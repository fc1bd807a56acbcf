use vstd::prelude::*;
use crate::data::qac::{MorphModel, QacMorphology};
use crate::data::quran::QuranText;
use crate::data::table::WordSet;
use crate::lang::text::{contains_str, same_chars, strs, to_chars, words};
use crate::nlp::stopwords::StopWords;
use crate::ontology::concepts::{ConceptModel, RelationModel};
use crate::ontology::graph::OntologyGraph;
use crate::search::index::InvertedIndex;
use crate::search::query::{expand_by_lemma, expand_by_ontology, expand_by_roots, expand_fuzzy, fuzzy_expansion, is_arabic_tag, lemma_expansion, ontology_expansion, parse_query, query_words, roots_expansion, FUZZY_WEIGHT, LEMMA_WEIGHT, ONTOLOGY_WEIGHT, ROOT_WEIGHT};
use crate::search::scoring::{is_scoring, score_search_weighted, term_models, unit_terms, ScoredDocument, WeightedTerm, FULL_WEIGHT};

verus! {

/// The state of a query expansion: the terms found so far, the words that
/// were met (whether they became terms or not), and whether any of the
/// terms found occurs in the index.
#[derive(Debug)]
pub struct Expansion {
    pub terms: Vec<WeightedTerm>,
    pub seen: WordSet,
    pub any_hit: bool,
}

/// The state of a query expansion, as plain values.
pub ghost struct ExpansionModel {
    pub terms: Seq<(Seq<char>, u32)>,
    pub seen: Set<Seq<char>>,
    pub any_hit: bool,
}

impl View for Expansion {
    type V = ExpansionModel;

    open spec fn view(&self) -> ExpansionModel {
        ExpansionModel {
            terms: term_models(self.terms@),
            seen: self.seen@,
            any_hit: self.any_hit,
        }
    }
}

/// The short particles that Arabic writes in one word with what follows.
pub open spec fn clitic_prefixes() -> Seq<Seq<char>> {
    seq![
        ""@,
        "\u{0648}"@,
        "\u{0641}"@,
        "\u{0628}"@,
        "\u{0644}"@,
        "\u{0643}"@,
        "\u{0627}\u{0644}"@,
        "\u{0644}\u{0644}"@,
        "\u{0648}\u{0627}\u{0644}"@,
        "\u{0641}\u{0627}\u{0644}"@,
        "\u{0628}\u{0627}\u{0644}"@,
        "\u{0643}\u{0627}\u{0644}"@,
        "\u{0648}\u{0644}\u{0644}"@,
        "\u{0641}\u{0644}\u{0644}"@,
        "\u{0648}\u{0628}\u{0627}\u{0644}"@,
        "\u{0641}\u{0628}\u{0627}\u{0644}"@,
    ]
}

/// The clitic prefixes: none, waw, fa, bi, li, ka, the article, and their
/// usual combinations.
pub fn default_prefixes() -> (r: Vec<String>)
    ensures
        strs(r@) == clitic_prefixes(),
{
    let mut r: Vec<String> = Vec::new();
    r.push("".to_owned());
    r.push("\u{0648}".to_owned());
    r.push("\u{0641}".to_owned());
    r.push("\u{0628}".to_owned());
    r.push("\u{0644}".to_owned());
    r.push("\u{0643}".to_owned());
    r.push("\u{0627}\u{0644}".to_owned());
    r.push("\u{0644}\u{0644}".to_owned());
    r.push("\u{0648}\u{0627}\u{0644}".to_owned());
    r.push("\u{0641}\u{0627}\u{0644}".to_owned());
    r.push("\u{0628}\u{0627}\u{0644}".to_owned());
    r.push("\u{0643}\u{0627}\u{0644}".to_owned());
    r.push("\u{0648}\u{0644}\u{0644}".to_owned());
    r.push("\u{0641}\u{0644}\u{0644}".to_owned());
    r.push("\u{0648}\u{0628}\u{0627}\u{0644}".to_owned());
    r.push("\u{0641}\u{0628}\u{0627}\u{0644}".to_owned());
    assert(strs(r@) =~= clitic_prefixes());
    r
}

/// Whether the vocabulary term is one of the prefixes followed by the stem.
pub open spec fn prefixed_match(v: Seq<char>, stem: Seq<char>, prefixes: Seq<Seq<char>>) -> bool {
    exists|i: int| 0 <= i < prefixes.len() && #[trigger] (prefixes[i] + stem) == v
}

/// The expansion after the vocabulary was scanned for the stem: each term
/// that was not met before and is a prefix followed by the stem is added
/// with the weight, is met, and counts as a hit.
pub open spec fn stem_scan(
    x: ExpansionModel,
    vocab: Seq<Seq<char>>,
    stem: Seq<char>,
    weight: u32,
    prefixes: Seq<Seq<char>>,
) -> ExpansionModel
    decreases vocab.len(),
{
    if vocab.len() == 0 {
        x
    } else {
        let r = stem_scan(x, vocab.drop_last(), stem, weight, prefixes);
        let v = vocab.last();
        if !r.seen.contains(v) && prefixed_match(v, stem, prefixes) {
            ExpansionModel { terms: r.terms.push((v, weight)), seen: r.seen.insert(v), any_hit: true }
        } else {
            r
        }
    }
}

/// Stem-in-vocabulary expansion: a scan for stems of three characters and
/// more, nothing for shorter ones.
pub open spec fn stem_in_vocab(
    x: ExpansionModel,
    vocab: Seq<Seq<char>>,
    stem: Seq<char>,
    weight: u32,
    prefixes: Seq<Seq<char>>,
) -> ExpansionModel {
    if stem.len() < 3 {
        x
    } else {
        stem_scan(x, vocab, stem, weight, prefixes)
    }
}

/// Where an expansion starts: the words as terms of full weight, all met.
pub open spec fn start_of(ws: Seq<Seq<char>>) -> ExpansionModel {
    ExpansionModel { terms: unit_terms(ws), seen: ws.to_set(), any_hit: false }
}

/// The exact stage: each word that the index holds counts as a hit, and
/// each word is expanded as a stem with full weight.
pub open spec fn exact_stage(
    x: ExpansionModel,
    idx: InvertedIndex,
    ws: Seq<Seq<char>>,
    prefixes: Seq<Seq<char>>,
) -> ExpansionModel
    decreases ws.len(),
{
    if ws.len() == 0 {
        x
    } else {
        let r = exact_stage(x, idx, ws.drop_last(), prefixes);
        let w = ws.last();
        let marked = ExpansionModel { any_hit: r.any_hit || idx.postings(w).len() > 0, ..r };
        stem_in_vocab(marked, idx.terms(), w, FULL_WEIGHT, prefixes)
    }
}

/// What one stem of the lemma or root stage does: a stem that was not met
/// is met and becomes a term, and counts as a hit if the index holds it;
/// then the stem is expanded in the vocabulary, whether it was met before
/// or not.
pub open spec fn visit_stem(
    x: ExpansionModel,
    idx: InvertedIndex,
    stem: Seq<char>,
    weight: u32,
    prefixes: Seq<Seq<char>>,
) -> ExpansionModel {
    let met = if x.seen.contains(stem) {
        x
    } else {
        ExpansionModel {
            terms: x.terms.push((stem, weight)),
            seen: x.seen.insert(stem),
            any_hit: x.any_hit || idx.postings(stem).len() > 0,
        }
    };
    stem_in_vocab(met, idx.terms(), stem, weight, prefixes)
}

/// The stems one after another; `done` holds the stems that were visited,
/// and none is visited twice.
pub open spec fn stems_stage(
    x: ExpansionModel,
    done: Set<Seq<char>>,
    idx: InvertedIndex,
    stems: Seq<Seq<char>>,
    weight: u32,
    prefixes: Seq<Seq<char>>,
) -> (ExpansionModel, Set<Seq<char>>)
    decreases stems.len(),
{
    if stems.len() == 0 {
        (x, done)
    } else {
        let (r, d) = stems_stage(x, done, idx, stems.drop_last(), weight, prefixes);
        let s = stems.last();
        if d.contains(s) {
            (r, d)
        } else {
            (visit_stem(r, idx, s, weight, prefixes), d.insert(s))
        }
    }
}

/// The words of the terms that have less than full weight.
pub open spec fn lighter_words(terms: Seq<(Seq<char>, u32)>) -> Seq<Seq<char>>
    decreases terms.len(),
{
    if terms.len() == 0 {
        Seq::empty()
    } else if terms.last().1 != FULL_WEIGHT {
        lighter_words(terms.drop_last()).push(terms.last().0)
    } else {
        lighter_words(terms.drop_last())
    }
}

/// Those of `items` that are not among `ws`.
pub open spec fn not_among(items: Seq<Seq<char>>, ws: Seq<Seq<char>>) -> Seq<Seq<char>>
    decreases items.len(),
{
    if items.len() == 0 {
        Seq::empty()
    } else if !ws.contains(items.last()) {
        not_among(items.drop_last(), ws).push(items.last())
    } else {
        not_among(items.drop_last(), ws)
    }
}

/// The lemma stage and then the root stage.
pub open spec fn morphology_stage(
    x: ExpansionModel,
    idx: InvertedIndex,
    ws: Seq<Seq<char>>,
    qac: Seq<MorphModel>,
    prefixes: Seq<Seq<char>>,
) -> ExpansionModel {
    let lemma_stems = lighter_words(lemma_expansion(ws, qac));
    let root_stems = not_among(roots_expansion(ws, qac), ws);
    let (x1, d1) = stems_stage(x, Set::empty(), idx, lemma_stems, LEMMA_WEIGHT, prefixes);
    stems_stage(x1, d1, idx, root_stems, ROOT_WEIGHT, prefixes).0
}

/// The expansion after the given terms were taken over: each word that was
/// not met is met and becomes a term with the weight; where `count_hits`,
/// it counts as a hit if the index holds it.
pub open spec fn adopt(
    x: ExpansionModel,
    idx: InvertedIndex,
    terms: Seq<(Seq<char>, u32)>,
    weight: u32,
    count_hits: bool,
) -> ExpansionModel
    decreases terms.len(),
{
    if terms.len() == 0 {
        x
    } else {
        let r = adopt(x, idx, terms.drop_last(), weight, count_hits);
        let w = terms.last().0;
        if r.seen.contains(w) {
            r
        } else {
            ExpansionModel {
                terms: r.terms.push((w, weight)),
                seen: r.seen.insert(w),
                any_hit: r.any_hit || (count_hits && idx.postings(w).len() > 0),
            }
        }
    }
}

/// The full Arabic expansion of the words: exact, lemma and root, ontology,
/// and fuzzy where nothing before it hit the index.
pub open spec fn arabic_expansion(
    ws: Seq<Seq<char>>,
    idx: InvertedIndex,
    qac: Option<Seq<MorphModel>>,
    onto: Option<(Seq<ConceptModel>, Seq<RelationModel>)>,
    prefixes: Seq<Seq<char>>,
) -> ExpansionModel {
    let x1 = exact_stage(start_of(ws), idx, ws, prefixes);
    let x2 = match qac {
        Some(q) => morphology_stage(x1, idx, ws, q, prefixes),
        None => x1,
    };
    let x3 = match onto {
        Some(o) => adopt(x2, idx, ontology_expansion(ws, o.0, o.1), ONTOLOGY_WEIGHT, true),
        None => x2,
    };
    if x3.any_hit {
        x3
    } else {
        adopt(x3, idx, fuzzy_expansion(ws, idx), FUZZY_WEIGHT, false)
    }
}

pub fn lighter_words_of(terms: &Vec<WeightedTerm>) -> (r: Vec<String>)
    ensures
        strs(r@) == lighter_words(term_models(terms@)),
{
    let ghost tm = term_models(terms@);
    let mut r: Vec<String> = Vec::new();
    let mut i: usize = 0;
    assert(tm.take(0) =~= Seq::<(Seq<char>, u32)>::empty());
    assert(strs(r@) =~= Seq::<Seq<char>>::empty());
    while i < terms.len()
        invariant
            i <= terms.len(),
            tm == term_models(terms@),
            strs(r@) == lighter_words(tm.take(i as int)),
        decreases terms.len() - i,
    {
        proof {
            assert(tm.take(i + 1).drop_last() =~= tm.take(i as int));
            assert(tm.take(i + 1).last() == terms@[i as int]@);
        }
        if terms[i].weight != FULL_WEIGHT {
            let ghost before = r@;
            r.push(terms[i].word.clone());
            assert(strs(r@) =~= strs(before).push(terms@[i as int].word@));
        }
        i += 1;
    }
    assert(tm.take(terms.len() as int) =~= tm);
    r
}

pub fn not_among_of(items: &Vec<String>, ws: &Vec<String>) -> (r: Vec<String>)
    ensures
        strs(r@) == not_among(strs(items@), strs(ws@)),
{
    let ghost im = strs(items@);
    let mut r: Vec<String> = Vec::new();
    let mut i: usize = 0;
    assert(im.take(0) =~= Seq::<Seq<char>>::empty());
    assert(strs(r@) =~= Seq::<Seq<char>>::empty());
    while i < items.len()
        invariant
            i <= items.len(),
            im == strs(items@),
            strs(r@) == not_among(im.take(i as int), strs(ws@)),
        decreases items.len() - i,
    {
        proof {
            assert(im.take(i + 1).drop_last() =~= im.take(i as int));
            assert(im.take(i + 1).last() == items@[i as int]@);
        }
        if !contains_str(ws, &items[i]) {
            let ghost before = r@;
            r.push(items[i].clone());
            assert(strs(r@) =~= strs(before).push(items@[i as int]@));
        }
        i += 1;
    }
    assert(im.take(items.len() as int) =~= im);
    r
}

/// Whether the vocabulary term is one of the prefixes followed by the stem.
pub fn matches_with_prefix(v: &Vec<char>, stem: &Vec<char>, prefixes: &Vec<String>) -> (b: bool)
    ensures
        b == prefixed_match(v@, stem@, strs(prefixes@)),
{
    let ghost ps = strs(prefixes@);
    let mut i: usize = 0;
    while i < prefixes.len()
        invariant
            i <= prefixes.len(),
            ps == strs(prefixes@),
            forall|k: int| 0 <= k < i ==> #[trigger] (ps[k] + stem@) != v@,
        decreases prefixes.len() - i,
    {
        let mut candidate = to_chars(prefixes[i].as_str());
        let mut j: usize = 0;
        while j < stem.len()
            invariant
                j <= stem.len(),
                candidate@ == prefixes@[i as int]@ + stem@.take(j as int),
            decreases stem.len() - j,
        {
            candidate.push(stem[j]);
            assert(candidate@ =~= prefixes@[i as int]@ + stem@.take(j + 1));
            j += 1;
        }
        assert(stem@.take(stem.len() as int) =~= stem@);
        assert(candidate@ == ps[i as int] + stem@);
        if same_chars(v, &candidate) {
            return true;
        }
        i += 1;
    }
    false
}

impl Expansion {
    pub open spec fn wf(&self) -> bool {
        self.seen.wf()
    }

    /// Whether the word was met.
    pub fn is_seen(&self, w: &String) -> (b: bool)
        requires
            self.wf(),
        ensures
            b == self@.seen.contains(w@),
    {
        self.seen.contains(w)
    }

    /// Marks the word as met.
    pub fn mark_seen(&mut self, w: &String)
        requires
            old(self).wf(),
        ensures
            final(self).wf(),
            final(self)@ == (ExpansionModel { seen: old(self)@.seen.insert(w@), ..old(self)@ }),
    {
        self.seen.insert(w);
    }

    /// Adds a term.
    pub fn add_term(&mut self, w: &String, weight: u32)
        ensures
            final(self).seen == old(self).seen,
            final(self)@ == (ExpansionModel {
                terms: old(self)@.terms.push((w@, weight)),
                ..old(self)@
            }),
    {
        let ghost before = self.terms@;
        self.terms.push(WeightedTerm { word: w.clone(), weight });
        assert(term_models(self.terms@) =~= term_models(before).push((w@, weight)));
    }

    /// Where an expansion starts.
    pub fn start(words: &Vec<String>) -> (x: Expansion)
        ensures
            x.wf(),
            x@ == start_of(strs(words@)),
    {
        let ghost ws = strs(words@);
        let mut x = Expansion { terms: Vec::new(), seen: WordSet::new(), any_hit: false };
        let mut i: usize = 0;
        assert(x@.terms =~= unit_terms(ws.take(0)));
        assert(x@.seen =~= ws.take(0).to_set());
        while i < words.len()
            invariant
                i <= words.len(),
                ws == strs(words@),
                x.wf(),
                x@.terms == unit_terms(ws.take(i as int)),
                x@.seen == ws.take(i as int).to_set(),
                !x.any_hit,
            decreases words.len() - i,
        {
            proof {
                assert(ws.take(i + 1) =~= ws.take(i as int).push(words@[i as int]@));
                ws.take(i as int).lemma_push_to_set_commute(words@[i as int]@);
                assert(unit_terms(ws.take(i + 1)) =~= unit_terms(ws.take(i as int)).push(
                    (words@[i as int]@, FULL_WEIGHT),
                ));
            }
            x.add_term(&words[i], FULL_WEIGHT);
            x.mark_seen(&words[i]);
            i += 1;
        }
        assert(ws.take(words.len() as int) =~= ws);
        x
    }

    /// Takes over the terms that were not met.
    pub fn adopt_terms(
        &mut self,
        index: &InvertedIndex,
        terms: &Vec<WeightedTerm>,
        weight: u32,
        count_hits: bool,
    )
        requires
            index.wf(),
            old(self).wf(),
        ensures
            final(self).wf(),
            final(self)@ == adopt(old(self)@, *index, term_models(terms@), weight, count_hits),
    {
        let ghost tm = term_models(terms@);
        let mut i: usize = 0;
        assert(tm.take(0) =~= Seq::<(Seq<char>, u32)>::empty());
        while i < terms.len()
            invariant
                i <= terms.len(),
                index.wf(),
                self.wf(),
                tm == term_models(terms@),
                self@ == adopt(old(self)@, *index, tm.take(i as int), weight, count_hits),
            decreases terms.len() - i,
        {
            let w = &terms[i].word;
            proof {
                assert(tm.take(i + 1).drop_last() =~= tm.take(i as int));
                assert(tm.take(i + 1).last() == terms@[i as int]@);
            }
            if !self.is_seen(w) {
                self.mark_seen(w);
                if count_hits && index.lookup(w.as_str()).len() > 0 {
                    self.any_hit = true;
                }
                self.add_term(w, weight);
            }
            i += 1;
        }
        assert(tm.take(terms.len() as int) =~= tm);
    }
}

/// Pre-loaded search engine that holds the corpus, its index, and the
/// optional morphology and ontology.
pub struct SearchEngine {
    pub quran: QuranText,
    pub index: InvertedIndex,
    pub qac: Option<QacMorphology>,
    pub ontology: Option<OntologyGraph>,
    pub lang: String,
    pub prefixes: Vec<String>,
}

impl SearchEngine {
    pub open spec fn wf(&self) -> bool {
        &&& self.index.wf()
        &&& self.quran.wf()
        &&& self.qac is Some ==> self.qac.unwrap().wf()
        &&& self.ontology is Some ==> self.ontology.unwrap().wf()
    }

    pub open spec fn qac_model(&self) -> Option<Seq<MorphModel>> {
        match self.qac {
            Some(q) => Some(q@),
            None => None,
        }
    }

    pub open spec fn ontology_model(&self) -> Option<(Seq<ConceptModel>, Seq<RelationModel>)> {
        match self.ontology {
            Some(g) => Some((g.concept_models(), g.relation_models())),
            None => None,
        }
    }

    /// The terms that the engine searches for the query words: their Arabic
    /// expansion where the language is Arabic, else the words themselves.
    pub open spec fn search_terms(&self, ws: Seq<Seq<char>>) -> Seq<(Seq<char>, u32)> {
        if self.lang@ == "ar"@ {
            arabic_expansion(
                ws,
                self.index,
                self.qac_model(),
                self.ontology_model(),
                strs(self.prefixes@),
            ).terms
        } else {
            unit_terms(ws)
        }
    }

    /// Build a SearchEngine from pre-loaded data.
    pub fn from_data(
        quran: QuranText,
        stopwords: StopWords,
        qac: Option<QacMorphology>,
        ontology: Option<OntologyGraph>,
        lang: &str,
    ) -> (e: Self)
        requires
            quran.wf(),
            stopwords.wf(),
            qac is Some ==> qac.unwrap().wf(),
            ontology is Some ==> ontology.unwrap().wf(),
        ensures
            e.wf(),
            e.quran == quran,
            e.qac == qac,
            e.ontology == ontology,
            e.lang@ == lang@,
            e.index.indexes(quran@, stopwords@, lang@ == "ar"@),
            strs(e.prefixes@) == clitic_prefixes(),
    {
        let index = if is_arabic_tag(lang) {
            InvertedIndex::build(&quran, &stopwords)
        } else {
            InvertedIndex::build_english(&quran, &stopwords)
        };
        SearchEngine {
            quran,
            index,
            qac,
            ontology,
            lang: lang.to_owned(),
            prefixes: default_prefixes(),
        }
    }

    /// Scans the vocabulary for terms that are a clitic prefix followed by
    /// the stem, and adds those that were not met.
    pub fn expand_stem_in_vocab(&self, stem: &String, acc: &mut Expansion, weight: u32)
        requires
            old(acc).wf(),
        ensures
            final(acc).wf(),
            final(acc)@ == stem_in_vocab(
                old(acc)@,
                self.index.terms(),
                stem@,
                weight,
                strs(self.prefixes@),
            ),
    {
        let stem_chars = to_chars(stem.as_str());
        if stem_chars.len() < 3 {
            return ;
        }
        let vocab = self.index.terms_ref();
        let ghost vs = self.index.terms();
        let ghost ps = strs(self.prefixes@);
        let mut i: usize = 0;
        assert(vs.take(0) =~= Seq::<Seq<char>>::empty());
        while i < vocab.len()
            invariant
                i <= vocab.len(),
                strs(vocab@) == vs,
                ps == strs(self.prefixes@),
                stem_chars@ == stem@,
                acc.wf(),
                acc@ == stem_scan(old(acc)@, vs.take(i as int), stem@, weight, ps),
            decreases vocab.len() - i,
        {
            let v = &vocab[i];
            proof {
                assert(vs.take(i + 1).drop_last() =~= vs.take(i as int));
                assert(vs.take(i + 1).last() == v@);
            }
            if !acc.is_seen(v) {
                let v_chars = to_chars(v.as_str());
                if matches_with_prefix(&v_chars, &stem_chars, &self.prefixes) {
                    acc.mark_seen(v);
                    acc.any_hit = true;
                    acc.add_term(v, weight);
                }
            }
            i += 1;
        }
        assert(vs.take(vocab.len() as int) =~= vs);
    }

    /// Visits the stems of a stage, none twice.
    pub fn visit_stems(
        &self,
        stems: &Vec<String>,
        done: &mut WordSet,
        acc: &mut Expansion,
        weight: u32,
    )
        requires
            self.index.wf(),
            old(done).wf(),
            old(acc).wf(),
        ensures
            final(done).wf(),
            final(acc).wf(),
            (final(acc)@, final(done)@) == stems_stage(
                old(acc)@,
                old(done)@,
                self.index,
                strs(stems@),
                weight,
                strs(self.prefixes@),
            ),
    {
        let ghost ss = strs(stems@);
        let ghost ps = strs(self.prefixes@);
        let mut i: usize = 0;
        assert(ss.take(0) =~= Seq::<Seq<char>>::empty());
        while i < stems.len()
            invariant
                i <= stems.len(),
                self.index.wf(),
                ss == strs(stems@),
                ps == strs(self.prefixes@),
                done.wf(),
                acc.wf(),
                (acc@, done@) == stems_stage(
                    old(acc)@,
                    old(done)@,
                    self.index,
                    ss.take(i as int),
                    weight,
                    ps,
                ),
            decreases stems.len() - i,
        {
            let stem = &stems[i];
            proof {
                assert(ss.take(i + 1).drop_last() =~= ss.take(i as int));
                assert(ss.take(i + 1).last() == stem@);
            }
            if !done.contains(stem) {
                done.insert(stem);
                if !acc.is_seen(stem) {
                    acc.mark_seen(stem);
                    if self.index.lookup(stem.as_str()).len() > 0 {
                        acc.any_hit = true;
                    }
                    acc.add_term(stem, weight);
                }
                self.expand_stem_in_vocab(stem, acc, weight);
            }
            i += 1;
        }
        assert(ss.take(stems.len() as int) =~= ss);
    }

    /// Full Arabic expansion pipeline: the words themselves, the forms of
    /// their lemmas and roots, what the ontology relates to them, and, where
    /// none of these occurs in the index, the terms spelled nearly as they.
    pub fn expand_arabic(&self, words: &Vec<String>) -> (r: Vec<WeightedTerm>)
        requires
            self.wf(),
        ensures
            term_models(r@) == arabic_expansion(
                strs(words@),
                self.index,
                self.qac_model(),
                self.ontology_model(),
                strs(self.prefixes@),
            ).terms,
    {
        let ghost ws = strs(words@);
        let ghost ps = strs(self.prefixes@);
        let mut acc = Expansion::start(words);
        let mut i: usize = 0;
        assert(ws.take(0) =~= Seq::<Seq<char>>::empty());
        while i < words.len()
            invariant
                i <= words.len(),
                self.wf(),
                ws == strs(words@),
                ps == strs(self.prefixes@),
                acc.wf(),
                acc@ == exact_stage(start_of(ws), self.index, ws.take(i as int), ps),
            decreases words.len() - i,
        {
            proof {
                assert(ws.take(i + 1).drop_last() =~= ws.take(i as int));
                assert(ws.take(i + 1).last() == words@[i as int]@);
            }
            if self.index.lookup(words[i].as_str()).len() > 0 {
                acc.any_hit = true;
            }
            self.expand_stem_in_vocab(&words[i], &mut acc, FULL_WEIGHT);
            i += 1;
        }
        assert(ws.take(words.len() as int) =~= ws);
        match &self.qac {
            Some(qac) => {
                let lemma_terms = expand_by_lemma(words, qac);
                let lemma_stems = lighter_words_of(&lemma_terms);
                let root_forms = expand_by_roots(words, qac);
                let root_stems = not_among_of(&root_forms, words);
                let mut done = WordSet::new();
                self.visit_stems(&lemma_stems, &mut done, &mut acc, LEMMA_WEIGHT);
                self.visit_stems(&root_stems, &mut done, &mut acc, ROOT_WEIGHT);
            },
            None => {},
        }
        match &self.ontology {
            Some(graph) => {
                let onto_terms = expand_by_ontology(words, graph);
                acc.adopt_terms(&self.index, &onto_terms, ONTOLOGY_WEIGHT, true);
            },
            None => {},
        }
        if !acc.any_hit {
            let fuzzy_terms = expand_fuzzy(words, &self.index);
            acc.adopt_terms(&self.index, &fuzzy_terms, FUZZY_WEIGHT, false);
        }
        acc.terms
    }

    /// Run a search query: parse it, expand it where the language is Arabic,
    /// and score the verses that the terms touch. A query without words
    /// gives no document.
    pub fn search(&self, query_str: &str) -> (r: Vec<ScoredDocument>)
        requires
            self.wf(),
        ensures
            query_words(words(query_str@), self.lang@).len() == 0 ==> r@.len() == 0,
            is_scoring(
                r@,
                self.index,
                if query_words(words(query_str@), self.lang@).len() == 0 {
                    Seq::empty()
                } else {
                    self.search_terms(query_words(words(query_str@), self.lang@))
                },
                self.quran@.len(),
            ),
    {
        let ws = parse_query(query_str, self.lang.as_str());
        if ws.len() == 0 {
            let none: Vec<WeightedTerm> = Vec::new();
            assert(term_models(none@) =~= Seq::<(Seq<char>, u32)>::empty());
            return score_search_weighted(&self.index, &none, &self.quran);
        }
        let terms = if is_arabic_tag(self.lang.as_str()) {
            self.expand_arabic(&ws)
        } else {
            let mut plain: Vec<WeightedTerm> = Vec::new();
            let mut i: usize = 0;
            while i < ws.len()
                invariant
                    i <= ws.len(),
                    plain.len() == i,
                    forall|k: int| 0 <= k < i ==> (#[trigger] plain@[k])@ == (ws@[k]@, FULL_WEIGHT),
                decreases ws.len() - i,
            {
                plain.push(WeightedTerm { word: ws[i].clone(), weight: FULL_WEIGHT });
                i += 1;
            }
            assert(term_models(plain@) =~= unit_terms(strs(ws@)));
            plain
        };
        score_search_weighted(&self.index, &terms, &self.quran)
    }

    /// Access the underlying text.
    pub fn quran(&self) -> (r: &QuranText)
        ensures
            *r == self.quran,
    {
        &self.quran
    }

    /// Access the underlying index.
    pub fn index(&self) -> (r: &InvertedIndex)
        ensures
            *r == self.index,
    {
        &self.index
    }
}

} // verus!
