use std::collections::HashSet;
use vstd::prelude::*;
use crate::data::quran::{verse_code, verse_code_of, QuranText, VerseModel};
use crate::data::table::Table;
use crate::lang::arabic::{normalize_chars, normalized};
use crate::lang::text::{clone_words, from_chars, lowercase, lowercased, seqs, split_whitespace, strs, to_chars, trim_by, trimmed, words, CharClass};
use crate::nlp::stopwords::StopWords;

verus! {

broadcast use vstd::std_specs::hash::group_hash_axioms;

/// One occurrence of a term: the verse, the 1-based place of the word in it,
/// and whether the word is a stop word.
#[derive(Debug, Clone, Copy, PartialEq, Eq, Structural)]
pub struct IndexEntry {
    pub sura: u16,
    pub aya: u16,
    pub word_index: u16,
    pub is_stop_word: bool,
}

/// Inverted index mapping terms to their occurrences, in corpus order.
#[derive(Debug)]
pub struct InvertedIndex {
    pub table: Table<Vec<IndexEntry>>,
    pub no_postings: Vec<IndexEntry>,
}

/// The term under which a token is indexed: its normal form for Arabic, else
/// the token without the non-alphanumeric characters at its ends, in lower case.
pub open spec fn term_of(tok: Seq<char>, arabic: bool) -> Seq<char> {
    if arabic {
        normalized(tok)
    } else {
        lowercased(trimmed(tok, CharClass::NotAlphanumeric))
    }
}

/// Whether a token counts as a stop word.
pub open spec fn is_flagged(tok: Seq<char>, arabic: bool, stop: Set<Seq<char>>) -> bool {
    stop.contains(term_of(tok, arabic)) || (arabic && stop.contains(tok))
}

/// The word position that is recorded for the `n`-th word of a verse.
pub open spec fn position_of(n: nat) -> u16 {
    (n % 65536) as u16
}

/// The occurrences of a term among the given tokens of a verse.
pub open spec fn verse_postings(
    v: VerseModel,
    toks: Seq<Seq<char>>,
    stop: Set<Seq<char>>,
    arabic: bool,
    term: Seq<char>,
) -> Seq<IndexEntry>
    decreases toks.len(),
{
    if toks.len() == 0 {
        Seq::empty()
    } else {
        let rest = verse_postings(v, toks.drop_last(), stop, arabic, term);
        if term.len() > 0 && term_of(toks.last(), arabic) == term {
            rest.push(
                IndexEntry {
                    sura: v.sura,
                    aya: v.aya,
                    word_index: position_of(toks.len()),
                    is_stop_word: is_flagged(toks.last(), arabic, stop),
                },
            )
        } else {
            rest
        }
    }
}

/// The occurrences of a term in the corpus: verse by verse, word by word.
pub open spec fn corpus_postings(
    vs: Seq<VerseModel>,
    stop: Set<Seq<char>>,
    arabic: bool,
    term: Seq<char>,
) -> Seq<IndexEntry>
    decreases vs.len(),
{
    if vs.len() == 0 {
        Seq::empty()
    } else {
        corpus_postings(vs.drop_last(), stop, arabic, term) + verse_postings(
            vs.last(),
            words(vs.last().text),
            stop,
            arabic,
            term,
        )
    }
}

/// The verse that an occurrence lies in.
pub open spec fn doc_key(e: IndexEntry) -> (u16, u16) {
    (e.sura, e.aya)
}

/// The verses in which the given occurrences lie.
pub open spec fn documents_of(s: Seq<IndexEntry>) -> Set<(u16, u16)> {
    s.map_values(|e: IndexEntry| doc_key(e)).to_set()
}

/// The verses in which any occurrence of the given lists lies.
pub open spec fn all_documents(lists: Seq<Vec<IndexEntry>>) -> Set<(u16, u16)>
    decreases lists.len(),
{
    if lists.len() == 0 {
        Set::empty()
    } else {
        all_documents(lists.drop_last()).union(documents_of(lists.last()@))
    }
}

pub fn contains_pair(list: &Vec<(u16, u16)>, p: (u16, u16)) -> (b: bool)
    ensures
        b == list@.contains(p),
{
    let mut i: usize = 0;
    while i < list.len()
        invariant
            i <= list.len(),
            forall|k: int| 0 <= k < i ==> list@[k] != p,
        decreases list.len() - i,
    {
        if list[i].0 == p.0 && list[i].1 == p.1 {
            return true;
        }
        i += 1;
    }
    false
}

/// Adds to `seen` the verses of the given occurrences that it lacks.
pub fn add_documents(seen: &mut Vec<(u16, u16)>, entries: &Vec<IndexEntry>)
    requires
        old(seen)@.no_duplicates(),
    ensures
        final(seen)@.no_duplicates(),
        final(seen)@.to_set() == old(seen)@.to_set().union(documents_of(entries@)),
        old(seen)@.is_prefix_of(final(seen)@),
{
    let mut codes: HashSet<u32> = HashSet::new();
    let mut k: usize = 0;
    while k < seen.len()
        invariant
            k <= seen.len(),
            seen@ == old(seen)@,
            forall|s: u16, a: u16|
                seen@.take(k as int).contains((s, a)) <==> codes@.contains(
                    #[trigger] verse_code(s, a),
                ),
        decreases seen.len() - k,
    {
        let q = seen[k];
        let ghost before = codes@;
        codes.insert(verse_code_of(q.0, q.1));
        assert forall|s: u16, a: u16|
            seen@.take(k + 1).contains((s, a)) <==> codes@.contains(
                #[trigger] verse_code(s, a),
            ) by {
            assert(seen@.take(k + 1) =~= seen@.take(k as int).push(q));
            seen@.take(k as int).lemma_push_to_set_commute(q);
            assert(seen@.take(k + 1).to_set().contains((s, a)) <==> (seen@.take(
                k as int,
            ).to_set().contains((s, a)) || (s, a) == q));
            assert(seen@.take(k as int).contains((s, a)) <==> before.contains(verse_code(s, a)));
            if (s, a) != q {
                assert(verse_code(s, a) != verse_code(q.0, q.1));
            }
        }
        k += 1;
    }
    assert(seen@.take(seen.len() as int) =~= seen@);
    let mut i: usize = 0;
    assert(entries@.take(0).map_values(|e: IndexEntry| doc_key(e)) =~= Seq::<(u16, u16)>::empty());
    assert(seen@.to_set().union(documents_of(entries@.take(0))) =~= seen@.to_set());
    while i < entries.len()
        invariant
            i <= entries.len(),
            forall|s: u16, a: u16|
                seen@.contains((s, a)) <==> codes@.contains(#[trigger] verse_code(s, a)),
            seen@.no_duplicates(),
            seen@.to_set() == old(seen)@.to_set().union(documents_of(entries@.take(i as int))),
            old(seen)@.is_prefix_of(seen@),
        decreases entries.len() - i,
    {
        let e = entries[i];
        let p = (e.sura, e.aya);
        proof {
            let pre = entries@.take(i as int).map_values(|e: IndexEntry| doc_key(e));
            assert(entries@.take(i + 1).map_values(|e: IndexEntry| doc_key(e)) =~= pre.push(p));
            pre.lemma_push_to_set_commute(p);
        }
        let code = verse_code_of(p.0, p.1);
        assert(seen@.contains(p) <==> codes@.contains(verse_code(p.0, p.1)));
        if !codes.contains(&code) {
            let ghost before = seen@;
            let ghost before_codes = codes@;
            seen.push(p);
            codes.insert(code);
            proof {
                before.lemma_push_to_set_commute(p);
                assert(seen@.to_set() =~= old(seen)@.to_set().union(
                    documents_of(entries@.take(i + 1)),
                ));
                assert forall|s: u16, a: u16|
                    seen@.contains((s, a)) <==> codes@.contains(
                        #[trigger] verse_code(s, a),
                    ) by {
                    assert(seen@.to_set().contains((s, a)) <==> (before.to_set().contains((s, a))
                        || (s, a) == p));
                    assert(before.contains((s, a)) <==> before_codes.contains(verse_code(s, a)));
                    if (s, a) != p {
                        assert(verse_code(s, a) != verse_code(p.0, p.1));
                    }
                }
            }
        } else {
            assert(seen@.to_set() =~= old(seen)@.to_set().union(
                documents_of(entries@.take(i + 1)),
            ));
        }
        i += 1;
    }
    assert(entries@.take(entries.len() as int) =~= entries@);
}

impl InvertedIndex {
    /// The occurrences recorded for a term; none for a term that is not indexed.
    pub open spec fn postings(&self, term: Seq<char>) -> Seq<IndexEntry> {
        self.table.list(term)
    }

    /// The indexed terms, in the order in which they first occur.
    pub open spec fn terms(&self) -> Seq<Seq<char>> {
        self.table.key_seq()
    }

    pub open spec fn wf(&self) -> bool {
        &&& self.table.wf()
        &&& self.no_postings@.len() == 0
        &&& forall|t: Seq<char>| self.table.has(t) ==> (#[trigger] self.table.list(t)).len() > 0
    }

    /// Whether the index records exactly the occurrences of each term in the corpus.
    pub open spec fn indexes(&self, vs: Seq<VerseModel>, stop: Set<Seq<char>>, arabic: bool) -> bool {
        forall|t: Seq<char>| #[trigger] self.table.list(t) == corpus_postings(vs, stop, arabic, t)
    }

    /// Build an index over the corpus, Arabic or not.
    pub fn build_for(quran: &QuranText, stopwords: &StopWords, arabic: bool) -> (idx: Self)
        requires
            stopwords.wf(),
        ensures
            idx.wf(),
            idx.indexes(quran@, stopwords@, arabic),
    {
        let mut table: Table<Vec<IndexEntry>> = Table::new();
        let ghost stop = stopwords@;
        let mut i: usize = 0;
        assert(quran@.take(0) =~= Seq::<VerseModel>::empty());
        while i < quran.verses.len()
            invariant
                i <= quran.verses.len(),
                stop == stopwords@,
                stopwords.wf(),
                table.wf(),
                forall|t: Seq<char>| #[trigger]
                    table.list(t) == corpus_postings(quran@.take(i as int), stop, arabic, t),
                forall|t: Seq<char>| table.has(t) ==> (#[trigger] table.list(t)).len() > 0,
            decreases quran.verses.len() - i,
        {
            let verse = &quran.verses[i];
            let ghost vm = verse@;
            let ghost done = quran@.take(i as int);
            let text = to_chars(verse.text.as_str());
            let toks = split_whitespace(&text);
            let ghost wt = words(vm.text);
            let mut j: usize = 0;
            proof {
                assert(quran@.take(i + 1).drop_last() =~= done);
                assert(quran@.take(i + 1).last() == vm);
                assert(wt.take(0) =~= Seq::<Seq<char>>::empty());
                assert forall|t: Seq<char>| #[trigger]
                    table.list(t) == corpus_postings(done, stop, arabic, t) + verse_postings(
                        vm,
                        wt.take(0),
                        stop,
                        arabic,
                        t,
                    ) by {
                    assert(corpus_postings(done, stop, arabic, t) + Seq::<IndexEntry>::empty()
                        =~= corpus_postings(done, stop, arabic, t));
                }
            }
            while j < toks.len()
                invariant
                    j <= toks.len(),
                    seqs(toks@) == wt,
                    stop == stopwords@,
                    stopwords.wf(),
                    vm.sura == verse.sura,
                    vm.aya == verse.aya,
                    table.wf(),
                    forall|t: Seq<char>| #[trigger]
                        table.list(t) == corpus_postings(done, stop, arabic, t) + verse_postings(
                            vm,
                            wt.take(j as int),
                            stop,
                            arabic,
                            t,
                        ),
                    forall|t: Seq<char>| table.has(t) ==> (#[trigger] table.list(t)).len() > 0,
                decreases toks.len() - j,
            {
                let tok = &toks[j];
                proof {
                    assert(wt.take(j + 1).drop_last() =~= wt.take(j as int));
                    assert(wt.take(j + 1).last() == tok@);
                }
                let term_chars = if arabic {
                    normalize_chars(tok)
                } else {
                    let t = trim_by(tok, CharClass::NotAlphanumeric);
                    lowercase(&t)
                };
                assert(term_chars@ == term_of(tok@, arabic));
                if term_chars.len() > 0 {
                    let term = from_chars(&term_chars);
                    let raw = from_chars(tok);
                    let is_stop = stopwords.contains(term.as_str()) || (arabic
                        && stopwords.contains(raw.as_str()));
                    let entry = IndexEntry {
                        sura: verse.sura,
                        aya: verse.aya,
                        word_index: ((j + 1) % 65536) as u16,
                        is_stop_word: is_stop,
                    };
                    let ghost before = table;
                    let ghost k = term@;
                    table.append(term, entry);
                    proof {
                        assert forall|t: Seq<char>| #[trigger]
                            table.list(t) == corpus_postings(done, stop, arabic, t)
                                + verse_postings(vm, wt.take(j + 1), stop, arabic, t) by {
                            let c = corpus_postings(done, stop, arabic, t);
                            let p = verse_postings(vm, wt.take(j as int), stop, arabic, t);
                            assert(before.list(t) == c + p);
                            if t == k {
                                assert((c + p).push(entry) =~= c + p.push(entry));
                            }
                        }
                        assert forall|t: Seq<char>| table.has(t) implies (#[trigger] table.list(
                            t,
                        )).len() > 0 by {
                            if t != k {
                                assert(before.has(t));
                                assert(before.list(t).len() > 0);
                            }
                        }
                    }
                }
                j += 1;
            }
            proof {
                assert(wt.take(toks.len() as int) =~= wt);
            }
            i += 1;
        }
        assert(quran@.take(quran.verses.len() as int) =~= quran@);
        InvertedIndex { table, no_postings: Vec::new() }
    }

    /// Build an inverted index from Arabic text: each word is indexed under
    /// its normal form.
    pub fn build(quran: &QuranText, stopwords: &StopWords) -> (idx: Self)
        requires
            stopwords.wf(),
        ensures
            idx.wf(),
            idx.indexes(quran@, stopwords@, true),
    {
        Self::build_for(quran, stopwords, true)
    }

    /// Build an inverted index from English translation text.
    pub fn build_english(quran: &QuranText, stopwords: &StopWords) -> (idx: Self)
        requires
            stopwords.wf(),
        ensures
            idx.wf(),
            idx.indexes(quran@, stopwords@, false),
    {
        Self::build_for(quran, stopwords, false)
    }

    /// Look up a term in the index.
    pub fn lookup(&self, word: &str) -> (r: &Vec<IndexEntry>)
        requires
            self.wf(),
        ensures
            r@ == self.postings(word@),
    {
        let w = word.to_owned();
        match self.table.get(&w) {
            Some(v) => v,
            None => &self.no_postings,
        }
    }

    /// Check if the index is empty.
    pub fn is_empty(&self) -> (b: bool)
        ensures
            b == (self.terms().len() == 0),
    {
        self.table.len() == 0
    }

    /// Number of unique words in the index.
    pub fn vocabulary_size(&self) -> (n: usize)
        ensures
            n == self.terms().len(),
    {
        self.table.len()
    }

    /// The indexed terms, borrowed.
    pub fn terms_ref(&self) -> (r: &Vec<String>)
        ensures
            strs(r@) == self.terms(),
    {
        &self.table.keys
    }

    /// The indexed terms, in the order in which they first occur in the corpus.
    pub fn vocabulary(&self) -> (r: Vec<String>)
        ensures
            strs(r@) == self.terms(),
    {
        clone_words(&self.table.keys)
    }

    /// Total number of verses that hold an indexed word.
    pub fn total_documents(&self) -> (n: usize)
        ensures
            n == all_documents(self.table.vals@).len(),
    {
        let mut seen: Vec<(u16, u16)> = Vec::new();
        let mut i: usize = 0;
        assert(self.table.vals@.take(0) =~= Seq::<Vec<IndexEntry>>::empty());
        assert(seen@.to_set() =~= Set::<(u16, u16)>::empty());
        while i < self.table.vals.len()
            invariant
                i <= self.table.vals.len(),
                seen@.no_duplicates(),
                seen@.to_set() == all_documents(self.table.vals@.take(i as int)),
            decreases self.table.vals.len() - i,
        {
            assert(self.table.vals@.take(i + 1).drop_last() =~= self.table.vals@.take(i as int));
            add_documents(&mut seen, &self.table.vals[i]);
            i += 1;
        }
        assert(self.table.vals@.take(self.table.vals.len() as int) =~= self.table.vals@);
        proof {
            seen@.unique_seq_to_set();
        }
        seen.len()
    }

    /// Number of distinct verses that hold a given term (document frequency).
    pub fn document_frequency(&self, word: &str) -> (n: usize)
        requires
            self.wf(),
        ensures
            n == documents_of(self.postings(word@)).len(),
    {
        let entries = self.lookup(word);
        let mut seen: Vec<(u16, u16)> = Vec::new();
        add_documents(&mut seen, entries);
        proof {
            assert(seen@.to_set() =~= documents_of(entries@));
            seen@.unique_seq_to_set();
        }
        seen.len()
    }
}

} // verus!
