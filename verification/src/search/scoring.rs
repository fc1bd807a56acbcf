use vstd::prelude::*;
use crate::data::quran::QuranText;
use crate::lang::text::{contains_str, strs};
use crate::search::index::{add_documents, doc_key, documents_of, IndexEntry, InvertedIndex};

verus! {

/// The weight of an original query word, in tenths.
pub const FULL_WEIGHT: u32 = 10;

/// A query term with its weight in tenths: 10 stands for the weight 1.0 of an
/// original query word, 8 for 0.8, and so on.
#[derive(Debug, Clone)]
pub struct WeightedTerm {
    pub word: String,
    pub weight: u32,
}

impl View for WeightedTerm {
    type V = (Seq<char>, u32);

    open spec fn view(&self) -> (Seq<char>, u32) {
        (self.word@, self.weight)
    }
}

/// One occurrence of a query term in a verse, with what its share of the
/// score is computed from: how often the term occurs in the verse, in how
/// many verses it occurs, where the word stands, whether it is a stop word,
/// and the weight of the term in tenths.
#[derive(Debug, Clone, Copy, PartialEq, Eq, Structural)]
pub struct Hit {
    pub term_count: usize,
    pub doc_freq: usize,
    pub word_index: u16,
    pub is_stop_word: bool,
    pub weight: u32,
}

/// A verse that a query touches, with everything its score is a function of.
#[derive(Debug, Clone)]
pub struct ScoredDocument {
    pub sura: u16,
    pub aya: u16,
    /// The number of occurrences of query terms in the verse.
    pub freq: usize,
    /// The query terms that occur in the verse, each once.
    pub matched_words: Vec<String>,
    /// The occurrences, term by term.
    pub hits: Vec<Hit>,
    /// The distinct word positions of the occurrences, rising.
    pub positions: Vec<u16>,
    /// The distances between neighbouring positions.
    pub gaps: Vec<u16>,
    /// The number of query terms that the coverage is measured against.
    pub query_terms: usize,
    /// The number of verses of the corpus.
    pub corpus_size: usize,
}

/// The terms as plain values.
pub open spec fn term_models(terms: Seq<WeightedTerm>) -> Seq<(Seq<char>, u32)> {
    terms.map_values(|t: WeightedTerm| t@)
}

/// The words as terms of full weight.
pub open spec fn unit_terms(words: Seq<Seq<char>>) -> Seq<(Seq<char>, u32)> {
    words.map_values(|w: Seq<char>| (w, FULL_WEIGHT))
}

/// The occurrences that lie in the verse `d`, in order.
pub open spec fn doc_postings(entries: Seq<IndexEntry>, d: (u16, u16)) -> Seq<IndexEntry>
    decreases entries.len(),
{
    if entries.len() == 0 {
        Seq::empty()
    } else if doc_key(entries.last()) == d {
        doc_postings(entries.drop_last(), d).push(entries.last())
    } else {
        doc_postings(entries.drop_last(), d)
    }
}

/// The hits of one term in the verse `d`.
pub open spec fn term_hits(entries: Seq<IndexEntry>, d: (u16, u16), weight: u32) -> Seq<Hit> {
    doc_postings(entries, d).map_values(
        |e: IndexEntry|
            Hit {
                term_count: doc_postings(entries, d).len() as usize,
                doc_freq: documents_of(entries).len() as usize,
                word_index: e.word_index,
                is_stop_word: e.is_stop_word,
                weight,
            },
    )
}

/// The hits of the terms in the verse `d`, term by term.
pub open spec fn doc_hits(idx: InvertedIndex, terms: Seq<(Seq<char>, u32)>, d: (u16, u16)) -> Seq<
    Hit,
>
    decreases terms.len(),
{
    if terms.len() == 0 {
        Seq::empty()
    } else {
        doc_hits(idx, terms.drop_last(), d) + term_hits(
            idx.postings(terms.last().0),
            d,
            terms.last().1,
        )
    }
}

/// The terms that occur in the verse `d`, each once, in query order.
pub open spec fn doc_matched(idx: InvertedIndex, terms: Seq<(Seq<char>, u32)>, d: (u16, u16)) -> Seq<
    Seq<char>,
>
    decreases terms.len(),
{
    if terms.len() == 0 {
        Seq::empty()
    } else {
        let rest = doc_matched(idx, terms.drop_last(), d);
        let w = terms.last().0;
        if doc_postings(idx.postings(w), d).len() > 0 && !rest.contains(w) {
            rest.push(w)
        } else {
            rest
        }
    }
}

/// The verses in which any of the terms occurs.
pub open spec fn touched(idx: InvertedIndex, terms: Seq<(Seq<char>, u32)>) -> Set<(u16, u16)>
    decreases terms.len(),
{
    if terms.len() == 0 {
        Set::empty()
    } else {
        touched(idx, terms.drop_last()).union(documents_of(idx.postings(terms.last().0)))
    }
}

/// The number of terms of full weight.
pub open spec fn full_weight_count(terms: Seq<(Seq<char>, u32)>) -> nat
    decreases terms.len(),
{
    if terms.len() == 0 {
        0
    } else if terms.last().1 == FULL_WEIGHT {
        full_weight_count(terms.drop_last()) + 1
    } else {
        full_weight_count(terms.drop_last())
    }
}

/// The number of terms that coverage is measured against: those of full
/// weight, or all of them where none has full weight.
pub open spec fn coverage_base(terms: Seq<(Seq<char>, u32)>) -> nat {
    if full_weight_count(terms) > 0 {
        full_weight_count(terms)
    } else {
        terms.len()
    }
}

/// Whether the positions rise strictly.
pub open spec fn rising(s: Seq<u16>) -> bool {
    forall|i: int, j: int| 0 <= i < j < s.len() ==> s[i] < s[j]
}

/// The distances between neighbours of a rising list.
pub open spec fn gaps_of(s: Seq<u16>) -> Seq<u16> {
    if s.len() < 2 {
        Seq::empty()
    } else {
        Seq::new((s.len() - 1) as nat, |i: int| (s[i + 1] - s[i]) as u16)
    }
}

/// Whether `doc` is what the query makes of the verse `d`.
pub open spec fn is_scored(
    doc: ScoredDocument,
    idx: InvertedIndex,
    terms: Seq<(Seq<char>, u32)>,
    corpus_size: nat,
) -> bool {
    let d = (doc.sura, doc.aya);
    &&& doc.hits@ == doc_hits(idx, terms, d)
    &&& doc.freq == doc.hits@.len()
    &&& strs(doc.matched_words@) == doc_matched(idx, terms, d)
    &&& rising(doc.positions@)
    &&& doc.positions@.to_set() == doc.hits@.map_values(|h: Hit| h.word_index).to_set()
    &&& doc.gaps@ == gaps_of(doc.positions@)
    &&& doc.query_terms == coverage_base(terms)
    &&& doc.corpus_size == corpus_size
}

/// The verses of the scored documents.
pub open spec fn doc_keys(docs: Seq<ScoredDocument>) -> Seq<(u16, u16)> {
    docs.map_values(|d: ScoredDocument| (d.sura, d.aya))
}

/// Whether `docs` is the result of scoring the terms: one document for each
/// verse in which a term occurs, and each document is what the query makes
/// of its verse.
pub open spec fn is_scoring(
    docs: Seq<ScoredDocument>,
    idx: InvertedIndex,
    terms: Seq<(Seq<char>, u32)>,
    corpus_size: nat,
) -> bool {
    &&& doc_keys(docs).no_duplicates()
    &&& doc_keys(docs).to_set() == touched(idx, terms)
    &&& forall|i: int| 0 <= i < docs.len() ==> is_scored(#[trigger] docs[i], idx, terms, corpus_size)
}

/// The occurrences among `entries` that lie in the verse `d`.
pub fn postings_in(entries: &Vec<IndexEntry>, d: (u16, u16)) -> (r: Vec<IndexEntry>)
    ensures
        r@ == doc_postings(entries@, d),
{
    let mut r: Vec<IndexEntry> = Vec::new();
    let mut i: usize = 0;
    assert(entries@.take(0) =~= Seq::<IndexEntry>::empty());
    while i < entries.len()
        invariant
            i <= entries.len(),
            r@ == doc_postings(entries@.take(i as int), d),
        decreases entries.len() - i,
    {
        assert(entries@.take(i + 1).drop_last() =~= entries@.take(i as int));
        let e = entries[i];
        if e.sura == d.0 && e.aya == d.1 {
            r.push(e);
        }
        i += 1;
    }
    assert(entries@.take(entries.len() as int) =~= entries@);
    r
}

/// The number of verses in which the occurrences lie.
pub fn count_documents(entries: &Vec<IndexEntry>) -> (n: usize)
    ensures
        n == documents_of(entries@).len(),
{
    let mut seen: Vec<(u16, u16)> = Vec::new();
    add_documents(&mut seen, entries);
    proof {
        assert(seen@.to_set() =~= documents_of(entries@));
        seen@.unique_seq_to_set();
    }
    seen.len()
}

/// Puts a position in its place in a rising list, unless the list has it.
pub fn insert_position(list: &mut Vec<u16>, p: u16)
    requires
        rising(old(list)@),
    ensures
        rising(final(list)@),
        final(list)@.to_set() == old(list)@.to_set().insert(p),
{
    let mut i: usize = 0;
    while i < list.len() && list[i] < p
        invariant
            i <= list.len(),
            list@ == old(list)@,
            rising(list@),
            forall|k: int| 0 <= k < i ==> list@[k] < p,
        decreases list.len() - i,
    {
        i += 1;
    }
    if i < list.len() && list[i] == p {
        assert(list@.to_set().insert(p) =~= list@.to_set());
    } else {
        let ghost before = list@;
        list.insert(i, p);
        assert(list@ == before.insert(i as int, p));
        assert(rising(list@)) by {
            assert forall|a: int, b: int| 0 <= a < b < list@.len() implies list@[a] < list@[b] by {
                let a0 = if a < i { a } else { a - 1 };
                let b0 = if b < i { b } else { b - 1 };
                if a != i && b != i {
                    assert(list@[a] == before[a0]);
                    assert(list@[b] == before[b0]);
                } else if a == i {
                    assert(list@[b] == before[b0]);
                } else {
                    assert(list@[a] == before[a0]);
                }
            }
        }
        assert(list@.to_set() =~= before.to_set().insert(p)) by {
            assert forall|x: u16| list@.to_set().contains(x) <==> before.to_set().insert(
                p,
            ).contains(x) by {
                if list@.contains(x) {
                    let k = choose|k: int| 0 <= k < list@.len() && list@[k] == x;
                    if k < i {
                        assert(before[k] == x);
                    } else if k > i {
                        assert(before[k - 1] == x);
                    }
                }
                if before.contains(x) {
                    let k = choose|k: int| 0 <= k < before.len() && before[k] == x;
                    if k < i {
                        assert(list@[k] == x);
                    } else {
                        assert(list@[k + 1] == x);
                    }
                }
                if x == p {
                    assert(list@[i as int] == x);
                }
            }
        }
    }
}

/// The distinct values of the list, rising.
pub fn rising_list(values: &Vec<u16>) -> (r: Vec<u16>)
    ensures
        rising(r@),
        r@.to_set() == values@.to_set(),
{
    let mut r: Vec<u16> = Vec::new();
    let mut i: usize = 0;
    assert(r@.to_set() =~= values@.take(0).to_set());
    while i < values.len()
        invariant
            i <= values.len(),
            rising(r@),
            r@.to_set() == values@.take(i as int).to_set(),
        decreases values.len() - i,
    {
        proof {
            assert(values@.take(i + 1) =~= values@.take(i as int).push(values@[i as int]));
            values@.take(i as int).lemma_push_to_set_commute(values@[i as int]);
        }
        insert_position(&mut r, values[i]);
        i += 1;
    }
    assert(values@.take(values.len() as int) =~= values@);
    r
}

/// The distinct positions of the hits, rising.
pub fn rising_positions(hits: &Vec<Hit>) -> (r: Vec<u16>)
    ensures
        rising(r@),
        r@.to_set() == hits@.map_values(|h: Hit| h.word_index).to_set(),
{
    let mut ps: Vec<u16> = Vec::new();
    let mut i: usize = 0;
    while i < hits.len()
        invariant
            i <= hits.len(),
            ps@.len() == i,
            forall|k: int| 0 <= k < i ==> ps@[k] == hits@[k].word_index,
        decreases hits.len() - i,
    {
        ps.push(hits[i].word_index);
        i += 1;
    }
    assert(ps@ =~= hits@.map_values(|h: Hit| h.word_index));
    rising_list(&ps)
}

/// The distances between neighbouring positions of a rising list.
pub fn gaps_between(positions: &Vec<u16>) -> (r: Vec<u16>)
    requires
        rising(positions@),
    ensures
        r@ == gaps_of(positions@),
        forall|i: int| 0 <= i < r@.len() ==> r@[i] > 0,
{
    let mut r: Vec<u16> = Vec::new();
    if positions.len() < 2 {
        return r;
    }
    let mut i: usize = 1;
    while i < positions.len()
        invariant
            1 <= i <= positions.len(),
            rising(positions@),
            r@.len() == i - 1,
            forall|k: int| 0 <= k < i - 1 ==> r@[k] == (positions@[k + 1] - positions@[k]) as u16,
            forall|k: int| 0 <= k < r@.len() ==> r@[k] > 0,
        decreases positions.len() - i,
    {
        assert(positions@[i - 1] < positions@[i as int]);
        r.push(positions[i] - positions[i - 1]);
        i += 1;
    }
    assert(r@ =~= gaps_of(positions@));
    r
}

/// Compute the distances between neighbours among the distinct positions,
/// taken in rising order. The proximity bonus of the positions is the sum of
/// the reciprocals of these distances; fewer than two positions have no
/// distance, and so no bonus.
pub fn compute_proximity_gaps(positions: &Vec<u16>) -> (r: Vec<u16>)
    ensures
        exists|s: Seq<u16>|
            #![trigger gaps_of(s)]
            rising(s) && s.to_set() == positions@.to_set() && r@ == gaps_of(s),
        positions@.len() < 2 ==> r@.len() == 0,
        forall|i: int| 0 <= i < r@.len() ==> r@[i] > 0,
{
    let sorted = rising_list(positions);
    let r = gaps_between(&sorted);
    proof {
        if positions@.len() < 2 && sorted@.len() >= 2 {
            assert(sorted@[0] < sorted@[1]);
            assert(sorted@.to_set().contains(sorted@[0]));
            assert(sorted@.to_set().contains(sorted@[1]));
            assert(positions@.contains(sorted@[0]));
            assert(positions@.contains(sorted@[1]));
        }
        assert(r@ == gaps_of(sorted@));
    }
    r
}

/// The number of terms that coverage is measured against.
pub fn coverage_terms(terms: &Vec<WeightedTerm>) -> (n: usize)
    ensures
        n == coverage_base(term_models(terms@)),
{
    let ghost tm = term_models(terms@);
    let mut n: usize = 0;
    let mut i: usize = 0;
    assert(tm.take(0) =~= Seq::<(Seq<char>, u32)>::empty());
    while i < terms.len()
        invariant
            i <= terms.len(),
            tm == term_models(terms@),
            n == full_weight_count(tm.take(i as int)),
            n <= i,
        decreases terms.len() - i,
    {
        assert(tm.take(i + 1).drop_last() =~= tm.take(i as int));
        assert(tm.take(i + 1).last() == terms@[i as int]@);
        if terms[i].weight == FULL_WEIGHT {
            n += 1;
        }
        i += 1;
    }
    assert(tm.take(terms.len() as int) =~= tm);
    if n > 0 {
        n
    } else {
        terms.len()
    }
}

/// What the query makes of one verse.
pub fn score_document(
    index: &InvertedIndex,
    terms: &Vec<WeightedTerm>,
    lists: &Vec<&Vec<IndexEntry>>,
    dfs: &Vec<usize>,
    d: (u16, u16),
    query_terms: usize,
    corpus_size: usize,
) -> (doc: ScoredDocument)
    requires
        lists.len() == terms.len(),
        dfs.len() == terms.len(),
        forall|k: int|
            0 <= k < terms.len() ==> (#[trigger] lists@[k])@ == index.postings(terms@[k].word@),
        forall|k: int|
            0 <= k < terms.len() ==> (#[trigger] dfs@[k]) == documents_of(
                index.postings(terms@[k].word@),
            ).len(),
        query_terms == coverage_base(term_models(terms@)),
    ensures
        doc.sura == d.0,
        doc.aya == d.1,
        is_scored(doc, *index, term_models(terms@), corpus_size as nat),
{
    let ghost tm = term_models(terms@);
    let mut hits: Vec<Hit> = Vec::new();
    let mut matched: Vec<String> = Vec::new();
    let mut k: usize = 0;
    assert(tm.take(0) =~= Seq::<(Seq<char>, u32)>::empty());
    assert(strs(matched@) =~= Seq::<Seq<char>>::empty());
    while k < terms.len()
        invariant
            k <= terms.len(),
            tm == term_models(terms@),
            lists.len() == terms.len(),
            dfs.len() == terms.len(),
            forall|k: int|
                0 <= k < terms.len() ==> (#[trigger] lists@[k])@ == index.postings(
                    terms@[k].word@,
                ),
            forall|k: int|
                0 <= k < terms.len() ==> (#[trigger] dfs@[k]) == documents_of(
                    index.postings(terms@[k].word@),
                ).len(),
            hits@ == doc_hits(*index, tm.take(k as int), d),
            strs(matched@) == doc_matched(*index, tm.take(k as int), d),
        decreases terms.len() - k,
    {
        let term = &terms[k];
        let entries = lists[k];
        let df = dfs[k];
        proof {
            assert(tm.take(k + 1).drop_last() =~= tm.take(k as int));
            assert(tm.take(k + 1).last() == term@);
            assert(lists@[k as int]@ == index.postings(term.word@));
            assert(dfs@[k as int] == documents_of(index.postings(term.word@)).len());
        }
        let here = postings_in(entries, d);
        let ghost target = term_hits(entries@, d, term.weight);
        let ghost start = hits@;
        let mut j: usize = 0;
        while j < here.len()
            invariant
                j <= here.len(),
                here@ == doc_postings(entries@, d),
                target == term_hits(entries@, d, term.weight),
                df == documents_of(entries@).len(),
                hits@ == start + target.take(j as int),
            decreases here.len() - j,
        {
            let e = here[j];
            let h = Hit {
                term_count: here.len(),
                doc_freq: df,
                word_index: e.word_index,
                is_stop_word: e.is_stop_word,
                weight: term.weight,
            };
            assert(target[j as int] == h);
            hits.push(h);
            assert(hits@ =~= start + target.take(j + 1));
            j += 1;
        }
        assert(target.take(here.len() as int) =~= target);
        if here.len() > 0 && !contains_str(&matched, &term.word) {
            let ghost before = matched@;
            matched.push(term.word.clone());
            assert(strs(matched@) =~= strs(before).push(term.word@));
        }
        k += 1;
    }
    assert(tm.take(terms.len() as int) =~= tm);
    let positions = rising_positions(&hits);
    let gaps = gaps_between(&positions);
    ScoredDocument {
        sura: d.0,
        aya: d.1,
        freq: hits.len(),
        matched_words: matched,
        hits,
        positions,
        gaps,
        query_terms,
        corpus_size,
    }
}

/// Score the verses that the weighted terms touch. Each document holds the
/// occurrences of the terms in its verse and all that its score is computed
/// from; the order of the documents is that in which the verses are first met.
pub fn score_search_weighted(
    index: &InvertedIndex,
    terms: &Vec<WeightedTerm>,
    quran: &QuranText,
) -> (r: Vec<ScoredDocument>)
    requires
        index.wf(),
    ensures
        is_scoring(r@, *index, term_models(terms@), quran@.len()),
        terms@.len() == 0 ==> r@.len() == 0,
{
    let ghost tm = term_models(terms@);
    if terms.len() == 0 {
        let none: Vec<ScoredDocument> = Vec::new();
        assert(doc_keys(none@).to_set() =~= touched(*index, tm));
        return none;
    }
    let mut lists: Vec<&Vec<IndexEntry>> = Vec::new();
    let mut dfs: Vec<usize> = Vec::new();
    let mut keys: Vec<(u16, u16)> = Vec::new();
    let mut k: usize = 0;
    assert(tm.take(0) =~= Seq::<(Seq<char>, u32)>::empty());
    assert(keys@.to_set() =~= Set::<(u16, u16)>::empty());
    while k < terms.len()
        invariant
            k <= terms.len(),
            index.wf(),
            tm == term_models(terms@),
            lists.len() == k,
            dfs.len() == k,
            forall|j: int| 0 <= j < k ==> (#[trigger] lists@[j])@ == index.postings(terms@[j].word@),
            forall|j: int|
                0 <= j < k ==> (#[trigger] dfs@[j]) == documents_of(
                    index.postings(terms@[j].word@),
                ).len(),
            keys@.no_duplicates(),
            keys@.to_set() == touched(*index, tm.take(k as int)),
        decreases terms.len() - k,
    {
        proof {
            assert(tm.take(k + 1).drop_last() =~= tm.take(k as int));
            assert(tm.take(k + 1).last() == terms@[k as int]@);
        }
        let entries = index.lookup(terms[k].word.as_str());
        let df = count_documents(entries);
        add_documents(&mut keys, entries);
        lists.push(entries);
        dfs.push(df);
        k += 1;
    }
    assert(tm.take(terms.len() as int) =~= tm);
    let base = coverage_terms(terms);
    let corpus = quran.len();
    let mut out: Vec<ScoredDocument> = Vec::new();
    let mut i: usize = 0;
    while i < keys.len()
        invariant
            i <= keys.len(),
            tm == term_models(terms@),
            lists.len() == terms.len(),
            dfs.len() == terms.len(),
            forall|j: int|
                0 <= j < terms.len() ==> (#[trigger] lists@[j])@ == index.postings(
                    terms@[j].word@,
                ),
            forall|j: int|
                0 <= j < terms.len() ==> (#[trigger] dfs@[j]) == documents_of(
                    index.postings(terms@[j].word@),
                ).len(),
            base == coverage_base(tm),
            corpus == quran@.len(),
            out.len() == i,
            doc_keys(out@) == keys@.take(i as int),
            forall|j: int| 0 <= j < i ==> is_scored(#[trigger] out@[j], *index, tm, corpus as nat),
        decreases keys.len() - i,
    {
        let doc = score_document(index, terms, &lists, &dfs, keys[i], base, corpus);
        let ghost before = out@;
        out.push(doc);
        assert(doc_keys(out@) =~= doc_keys(before).push(keys@[i as int]));
        assert(doc_keys(out@) =~= keys@.take(i + 1));
        i += 1;
    }
    assert(keys@.take(keys.len() as int) =~= keys@);
    out
}

/// Score the verses that the query words touch, each word with full weight.
pub fn score_search(index: &InvertedIndex, query_words: &Vec<String>, quran: &QuranText) -> (r: Vec<
    ScoredDocument,
>)
    requires
        index.wf(),
    ensures
        is_scoring(r@, *index, unit_terms(strs(query_words@)), quran@.len()),
        query_words@.len() == 0 ==> r@.len() == 0,
{
    let mut weighted: Vec<WeightedTerm> = Vec::new();
    let mut i: usize = 0;
    while i < query_words.len()
        invariant
            i <= query_words.len(),
            weighted.len() == i,
            forall|k: int|
                0 <= k < i ==> (#[trigger] weighted@[k])@ == (query_words@[k]@, FULL_WEIGHT),
        decreases query_words.len() - i,
    {
        weighted.push(WeightedTerm { word: query_words[i].clone(), weight: FULL_WEIGHT });
        i += 1;
    }
    assert(term_models(weighted@) =~= unit_terms(strs(query_words@)));
    score_search_weighted(index, &weighted, quran)
}

/// Scoring words is scoring them as terms of full weight: whatever is a
/// result of the one is a result of the other.
pub proof fn lemma_unit_weights_score_alike(
    docs: Seq<ScoredDocument>,
    idx: InvertedIndex,
    words: Seq<Seq<char>>,
    terms: Seq<(Seq<char>, u32)>,
    corpus_size: nat,
)
    requires
        terms.len() == words.len(),
        forall|i: int| 0 <= i < terms.len() ==> terms[i] == (words[i], FULL_WEIGHT),
    ensures
        is_scoring(docs, idx, terms, corpus_size) == is_scoring(
            docs,
            idx,
            unit_terms(words),
            corpus_size,
        ),
{
    assert(terms =~= unit_terms(words));
}

/// With one term, the weight of the term is all that its hits take from it:
/// the hits of a word under one weight are its hits under another weight
/// with the weight replaced.
pub proof fn lemma_weight_changes_only_the_weight(
    idx: InvertedIndex,
    word: Seq<char>,
    w1: u32,
    w2: u32,
    d: (u16, u16),
)
    ensures
        doc_hits(idx, seq![(word, w1)], d).len() == doc_hits(idx, seq![(word, w2)], d).len(),
        forall|i: int|
            0 <= i < doc_hits(idx, seq![(word, w1)], d).len() ==> #[trigger] doc_hits(
                idx,
                seq![(word, w1)],
                d,
            )[i] == (Hit { weight: w1, ..doc_hits(idx, seq![(word, w2)], d)[i] }),
{
    let t1 = seq![(word, w1)];
    let t2 = seq![(word, w2)];
    let none = Seq::<(Seq<char>, u32)>::empty();
    assert(t1.drop_last() =~= none);
    assert(t2.drop_last() =~= none);
    assert(doc_hits(idx, none, d) =~= Seq::<Hit>::empty());
    let e = idx.postings(word);
    assert(doc_hits(idx, t1, d) =~= term_hits(e, d, w1));
    assert(doc_hits(idx, t2, d) =~= term_hits(e, d, w2));
}

/// A single position has no neighbour, and so no gap.
pub proof fn lemma_single_position_has_no_gap(x: u16)
    ensures
        gaps_of(seq![x]).len() == 0,
{
}

} // verus!
