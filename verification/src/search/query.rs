use vstd::prelude::*;
use crate::data::qac::{linked, Link, MorphModel, QacMorphology};
use crate::lang::arabic::{has_arabic, is_arabic_chars, normalize_chars, normalized};
use crate::lang::similarity::{edit_distance, levenshtein_distance};
use crate::lang::text::{clone_words, contains_str, from_chars, lowercase, lowercased, seqs, split_whitespace, strs, to_chars, trim_by, trimmed, words, CharClass};
use crate::nlp::stopwords::StopWords;
use crate::nlp::wordnet::{synonyms_of, SynSetModel, WordEntryModel, WordNet};
use crate::ontology::concepts::{ConceptModel, RelationModel};
use crate::ontology::graph::{concept_by_id, concept_by_label, relations_of, ConceptKey, OntologyGraph};
use crate::search::index::InvertedIndex;
use crate::search::scoring::{term_models, WeightedTerm, FULL_WEIGHT};

verus! {

/// The weight of a form that shares the lemma of a query word, in tenths.
pub const LEMMA_WEIGHT: u32 = 8;

/// The weight of a form that shares the root of a query word, in tenths.
pub const ROOT_WEIGHT: u32 = 7;

/// The weight of a term that the ontology relates to a query word, in tenths.
pub const ONTOLOGY_WEIGHT: u32 = 5;

/// The weight of a term that is spelled nearly as a query word, in tenths.
pub const FUZZY_WEIGHT: u32 = 4;

/// The query word that a token gives: its normal form where the language is
/// Arabic, or is left open (`auto`) and the token holds Arabic script; else
/// the token without the non-alphanumeric characters at its ends, in lower
/// case.
pub open spec fn query_word(tok: Seq<char>, lang: Seq<char>) -> Seq<char> {
    if lang == "ar"@ || (lang == "auto"@ && has_arabic(tok)) {
        normalized(tok)
    } else {
        lowercased(trimmed(tok, CharClass::NotAlphanumeric))
    }
}

/// The query words of the tokens, in order, without the empty ones.
pub open spec fn query_words(toks: Seq<Seq<char>>, lang: Seq<char>) -> Seq<Seq<char>>
    decreases toks.len(),
{
    if toks.len() == 0 {
        Seq::empty()
    } else {
        let rest = query_words(toks.drop_last(), lang);
        let w = query_word(toks.last(), lang);
        if w.len() > 0 {
            rest.push(w)
        } else {
            rest
        }
    }
}

/// Whether the language tag is `ar`.
pub fn is_arabic_tag(lang: &str) -> (b: bool)
    ensures
        b == (lang@ == "ar"@),
{
    let a = lang.to_owned();
    let b = "ar".to_owned();
    a == b
}

/// Whether the language tag is `auto`.
pub fn is_auto_tag(lang: &str) -> (b: bool)
    ensures
        b == (lang@ == "auto"@),
{
    let a = lang.to_owned();
    let b = "auto".to_owned();
    a == b
}

/// Parse and normalize a search query into individual words.
pub fn parse_query(query: &str, lang: &str) -> (r: Vec<String>)
    ensures
        strs(r@) == query_words(words(query@), lang@),
{
    let arabic = is_arabic_tag(lang);
    let auto = is_auto_tag(lang);
    let chars = to_chars(query);
    let toks = split_whitespace(&chars);
    let ghost wt = words(query@);
    let mut r: Vec<String> = Vec::new();
    let mut i: usize = 0;
    assert(wt.take(0) =~= Seq::<Seq<char>>::empty());
    assert(strs(r@) =~= Seq::<Seq<char>>::empty());
    while i < toks.len()
        invariant
            i <= toks.len(),
            seqs(toks@) == wt,
            arabic == (lang@ == "ar"@),
            auto == (lang@ == "auto"@),
            strs(r@) == query_words(wt.take(i as int), lang@),
        decreases toks.len() - i,
    {
        let tok = &toks[i];
        proof {
            assert(wt.take(i + 1).drop_last() =~= wt.take(i as int));
            assert(wt.take(i + 1).last() == tok@);
        }
        let w = if arabic || (auto && is_arabic_chars(tok)) {
            normalize_chars(tok)
        } else {
            let t = trim_by(tok, CharClass::NotAlphanumeric);
            lowercase(&t)
        };
        if w.len() > 0 {
            let ghost before = r@;
            let s = from_chars(&w);
            r.push(s);
            assert(strs(r@) =~= strs(before).push(w@));
        }
        i += 1;
    }
    assert(wt.take(toks.len() as int) =~= wt);
    r
}

/// `acc`, then those of `items` that it lacks, each once.
pub open spec fn append_new(acc: Seq<Seq<char>>, items: Seq<Seq<char>>) -> Seq<Seq<char>>
    decreases items.len(),
{
    if items.len() == 0 {
        acc
    } else {
        let r = append_new(acc, items.drop_last());
        if r.contains(items.last()) {
            r
        } else {
            r.push(items.last())
        }
    }
}

/// The surface forms of the root family of a word: those of the word taken
/// as a root, or, where there are none, those of the first root of the word.
pub open spec fn root_family(qac: Seq<MorphModel>, w: Seq<char>) -> Seq<Seq<char>> {
    let direct = linked(qac, Link::RootToForm, normalized(w));
    let roots = linked(qac, Link::FormToRoot, normalized(w));
    if direct.len() > 0 {
        direct
    } else if roots.len() > 0 {
        linked(qac, Link::RootToForm, normalized(roots[0]))
    } else {
        Seq::empty()
    }
}

/// `acc`, extended by the root families of the words, one after another.
pub open spec fn roots_from(acc: Seq<Seq<char>>, ws: Seq<Seq<char>>, qac: Seq<MorphModel>) -> Seq<
    Seq<char>,
>
    decreases ws.len(),
{
    if ws.len() == 0 {
        acc
    } else {
        append_new(roots_from(acc, ws.drop_last(), qac), root_family(qac, ws.last()))
    }
}

/// The words, then the forms of their root families that are new.
pub open spec fn roots_expansion(ws: Seq<Seq<char>>, qac: Seq<MorphModel>) -> Seq<Seq<char>> {
    roots_from(ws, ws, qac)
}

pub proof fn lemma_append_new_extends(acc: Seq<Seq<char>>, items: Seq<Seq<char>>)
    ensures
        acc.is_prefix_of(append_new(acc, items)),
    decreases items.len(),
{
    if items.len() > 0 {
        lemma_append_new_extends(acc, items.drop_last());
    }
}

pub proof fn lemma_roots_from_extends(acc: Seq<Seq<char>>, ws: Seq<Seq<char>>, qac: Seq<MorphModel>)
    ensures
        acc.is_prefix_of(roots_from(acc, ws, qac)),
    decreases ws.len(),
{
    if ws.len() > 0 {
        lemma_roots_from_extends(acc, ws.drop_last(), qac);
        lemma_append_new_extends(roots_from(acc, ws.drop_last(), qac), root_family(qac, ws.last()));
    }
}

/// Root expansion never removes a word: the words are the beginning of
/// their expansion, so each of them is in it.
pub proof fn lemma_expansion_keeps_words(ws: Seq<Seq<char>>, qac: Seq<MorphModel>)
    ensures
        ws.is_prefix_of(roots_expansion(ws, qac)),
        forall|i: int| 0 <= i < ws.len() ==> roots_expansion(ws, qac).contains(#[trigger] ws[i]),
{
    lemma_roots_from_extends(ws, ws, qac);
    let r = roots_expansion(ws, qac);
    assert forall|i: int| 0 <= i < ws.len() implies r.contains(#[trigger] ws[i]) by {
        assert(r[i] == ws[i]);
    }
}

/// Appends to `acc` those of `items` that it lacks.
pub fn extend_new(acc: &mut Vec<String>, items: &Vec<String>)
    ensures
        strs(final(acc)@) == append_new(strs(old(acc)@), strs(items@)),
{
    let mut i: usize = 0;
    assert(strs(items@).take(0) =~= Seq::<Seq<char>>::empty());
    while i < items.len()
        invariant
            i <= items.len(),
            strs(acc@) == append_new(strs(old(acc)@), strs(items@).take(i as int)),
        decreases items.len() - i,
    {
        proof {
            assert(strs(items@).take(i + 1).drop_last() =~= strs(items@).take(i as int));
            assert(strs(items@).take(i + 1).last() == items@[i as int]@);
        }
        if !contains_str(acc, &items[i]) {
            let ghost before = acc@;
            acc.push(items[i].clone());
            assert(strs(acc@) =~= strs(before).push(items@[i as int]@));
        }
        i += 1;
    }
    assert(strs(items@).take(items.len() as int) =~= strs(items@));
}

/// The forms of the root family of a word.
pub fn root_forms(word: &String, qac: &QacMorphology) -> (r: Vec<String>)
    requires
        qac.wf(),
    ensures
        strs(r@) == root_family(qac@, word@),
{
    let direct = qac.get_surface_forms_for_root(word.as_str());
    if direct.len() > 0 {
        return direct;
    }
    match qac.find_root_by_form(word.as_str()) {
        Some(root) => qac.get_surface_forms_for_root(root.as_str()),
        None => direct,
    }
}

/// Expand query words with root derivations: the words themselves, then the
/// surface forms of their root families that are not there yet.
pub fn expand_by_roots(words: &Vec<String>, qac: &QacMorphology) -> (r: Vec<String>)
    requires
        qac.wf(),
    ensures
        strs(r@) == roots_expansion(strs(words@), qac@),
        strs(words@).is_prefix_of(strs(r@)),
        forall|i: int| 0 <= i < words@.len() ==> strs(r@).contains(#[trigger] words@[i]@),
{
    let ghost ws = strs(words@);
    let mut expanded = clone_words(words);
    let mut i: usize = 0;
    assert(ws.take(0) =~= Seq::<Seq<char>>::empty());
    while i < words.len()
        invariant
            i <= words.len(),
            qac.wf(),
            ws == strs(words@),
            strs(expanded@) == roots_from(ws, ws.take(i as int), qac@),
        decreases words.len() - i,
    {
        proof {
            assert(ws.take(i + 1).drop_last() =~= ws.take(i as int));
            assert(ws.take(i + 1).last() == words@[i as int]@);
        }
        let forms = root_forms(&words[i], qac);
        extend_new(&mut expanded, &forms);
        i += 1;
    }
    proof {
        assert(ws.take(words.len() as int) =~= ws);
        lemma_expansion_keeps_words(ws, qac@);
        assert forall|i: int| 0 <= i < words@.len() implies strs(expanded@).contains(
            #[trigger] words@[i]@,
        ) by {
            assert(ws[i] == words@[i]@);
        }
    }
    expanded
}

/// At most the first three of the items.
pub open spec fn first_three(s: Seq<Seq<char>>) -> Seq<Seq<char>> {
    if s.len() <= 3 {
        s
    } else {
        s.take(3)
    }
}

/// `acc`, then those of `items` that are neither in it nor stop words.
pub open spec fn append_unstopped(acc: Seq<Seq<char>>, items: Seq<Seq<char>>, stop: Set<Seq<char>>) -> Seq<
    Seq<char>,
>
    decreases items.len(),
{
    if items.len() == 0 {
        acc
    } else {
        let r = append_unstopped(acc, items.drop_last(), stop);
        if !r.contains(items.last()) && !stop.contains(items.last()) {
            r.push(items.last())
        } else {
            r
        }
    }
}

/// `acc`, extended for each word that is no stop word by the first three
/// of its synonyms.
pub open spec fn synonyms_from(
    acc: Seq<Seq<char>>,
    ws: Seq<Seq<char>>,
    index: Seq<WordEntryModel>,
    data: Seq<SynSetModel>,
    stop: Set<Seq<char>>,
) -> Seq<Seq<char>>
    decreases ws.len(),
{
    if ws.len() == 0 {
        acc
    } else {
        let r = synonyms_from(acc, ws.drop_last(), index, data, stop);
        if stop.contains(ws.last()) {
            r
        } else {
            append_unstopped(
                r,
                first_three(synonyms_of(index, data, lowercased(ws.last()))),
                stop,
            )
        }
    }
}

/// Expand English query words with WordNet synonyms: the words themselves,
/// then, for each word that is no stop word, the first three of its synonyms
/// that are new and no stop words.
pub fn expand_by_synonyms(words: &Vec<String>, wordnet: &WordNet, stopwords: &StopWords) -> (r: Vec<
    String,
>)
    requires
        wordnet.wf(),
        stopwords.wf(),
    ensures
        strs(r@) == synonyms_from(
            strs(words@),
            strs(words@),
            wordnet.index_model(),
            wordnet.data_model(),
            stopwords@,
        ),
{
    let ghost ws = strs(words@);
    let mut expanded = clone_words(words);
    let mut i: usize = 0;
    assert(ws.take(0) =~= Seq::<Seq<char>>::empty());
    while i < words.len()
        invariant
            i <= words.len(),
            ws == strs(words@),
            wordnet.wf(),
            stopwords.wf(),
            strs(expanded@) == synonyms_from(
                ws,
                ws.take(i as int),
                wordnet.index_model(),
                wordnet.data_model(),
                stopwords@,
            ),
        decreases words.len() - i,
    {
        proof {
            assert(ws.take(i + 1).drop_last() =~= ws.take(i as int));
            assert(ws.take(i + 1).last() == words@[i as int]@);
        }
        if !stopwords.contains(words[i].as_str()) {
            let syns = wordnet.get_synonyms(words[i].as_str());
            let n: usize = if syns.len() <= 3 {
                syns.len()
            } else {
                3
            };
            let ghost three = first_three(strs(syns@));
            let ghost base = strs(expanded@);
            assert(three =~= strs(syns@).take(n as int));
            let mut j: usize = 0;
            assert(three.take(0) =~= Seq::<Seq<char>>::empty());
            while j < n
                invariant
                    j <= n <= syns.len(),
                    stopwords.wf(),
                    three == strs(syns@).take(n as int),
                    strs(expanded@) == append_unstopped(base, three.take(j as int), stopwords@),
                decreases n - j,
            {
                proof {
                    assert(three.take(j + 1).drop_last() =~= three.take(j as int));
                    assert(three.take(j + 1).last() == syns@[j as int]@);
                }
                if !contains_str(&expanded, &syns[j]) && !stopwords.contains(syns[j].as_str()) {
                    let ghost before = expanded@;
                    expanded.push(syns[j].clone());
                    assert(strs(expanded@) =~= strs(before).push(syns@[j as int]@));
                }
                j += 1;
            }
            assert(three.take(n as int) =~= three);
        }
        i += 1;
    }
    assert(ws.take(words.len() as int) =~= ws);
    expanded
}

/// The words of the terms.
pub open spec fn term_words(terms: Seq<(Seq<char>, u32)>) -> Seq<Seq<char>> {
    terms.map_values(|t: (Seq<char>, u32)| t.0)
}

/// `terms`, then the word with the weight unless a term has the word (or
/// the word is empty and empty words are to be skipped).
pub open spec fn add_word(
    terms: Seq<(Seq<char>, u32)>,
    w: Seq<char>,
    weight: u32,
    skip_empty: bool,
) -> Seq<(Seq<char>, u32)> {
    if term_words(terms).contains(w) || (skip_empty && w.len() == 0) {
        terms
    } else {
        terms.push((w, weight))
    }
}

/// `terms`, then each of the words in turn as `add_word` adds it.
pub open spec fn add_words(
    terms: Seq<(Seq<char>, u32)>,
    ws: Seq<Seq<char>>,
    weight: u32,
    skip_empty: bool,
) -> Seq<(Seq<char>, u32)>
    decreases ws.len(),
{
    if ws.len() == 0 {
        terms
    } else {
        add_word(add_words(terms, ws.drop_last(), weight, skip_empty), ws.last(), weight, skip_empty)
    }
}

/// Whether a term has the word.
pub fn has_term(terms: &Vec<WeightedTerm>, w: &String) -> (b: bool)
    ensures
        b == term_words(term_models(terms@)).contains(w@),
{
    let ghost tw = term_words(term_models(terms@));
    let mut i: usize = 0;
    while i < terms.len()
        invariant
            i <= terms.len(),
            tw == term_words(term_models(terms@)),
            forall|k: int| 0 <= k < i ==> tw[k] != w@,
        decreases terms.len() - i,
    {
        if terms[i].word == *w {
            assert(tw[i as int] == w@);
            return true;
        }
        i += 1;
    }
    false
}

/// Adds a term for the word unless one is there.
pub fn push_word(terms: &mut Vec<WeightedTerm>, w: &String, weight: u32, skip_empty: bool)
    ensures
        term_models(final(terms)@) == add_word(term_models(old(terms)@), w@, weight, skip_empty),
{
    if has_term(terms, w) || (skip_empty && w.as_str().unicode_len() == 0) {
    } else {
        let ghost before = terms@;
        terms.push(WeightedTerm { word: w.clone(), weight });
        assert(term_models(terms@) =~= term_models(before).push((w@, weight)));
    }
}

/// Adds a term for each of the words that has none yet.
pub fn push_words(terms: &mut Vec<WeightedTerm>, ws: &Vec<String>, weight: u32, skip_empty: bool)
    ensures
        term_models(final(terms)@) == add_words(
            term_models(old(terms)@),
            strs(ws@),
            weight,
            skip_empty,
        ),
{
    let mut i: usize = 0;
    assert(strs(ws@).take(0) =~= Seq::<Seq<char>>::empty());
    while i < ws.len()
        invariant
            i <= ws.len(),
            term_models(terms@) == add_words(
                term_models(old(terms)@),
                strs(ws@).take(i as int),
                weight,
                skip_empty,
            ),
        decreases ws.len() - i,
    {
        proof {
            assert(strs(ws@).take(i + 1).drop_last() =~= strs(ws@).take(i as int));
            assert(strs(ws@).take(i + 1).last() == ws@[i as int]@);
        }
        push_word(terms, &ws[i], weight, skip_empty);
        i += 1;
    }
    assert(strs(ws@).take(ws.len() as int) =~= strs(ws@));
}

/// Adds a term of full weight for the word, whether one is there or not.
pub fn push_original(terms: &mut Vec<WeightedTerm>, w: &String)
    ensures
        term_models(final(terms)@) == term_models(old(terms)@).push((w@, FULL_WEIGHT)),
{
    let ghost before = terms@;
    terms.push(WeightedTerm { word: w.clone(), weight: FULL_WEIGHT });
    assert(term_models(terms@) =~= term_models(before).push((w@, FULL_WEIGHT)));
}

/// The surface forms that share the first lemma of a word.
pub open spec fn lemma_family(qac: Seq<MorphModel>, w: Seq<char>) -> Seq<Seq<char>> {
    let lemmas = linked(qac, Link::FormToLemma, normalized(w));
    if lemmas.len() > 0 {
        linked(qac, Link::LemmaToForm, normalized(lemmas[0]))
    } else {
        Seq::empty()
    }
}

/// The lemma expansion of the words: each word with full weight, followed
/// by the forms of its lemma family that no term has yet, with lemma weight.
pub open spec fn lemma_expansion(ws: Seq<Seq<char>>, qac: Seq<MorphModel>) -> Seq<(Seq<char>, u32)>
    decreases ws.len(),
{
    if ws.len() == 0 {
        Seq::empty()
    } else {
        add_words(
            lemma_expansion(ws.drop_last(), qac).push((ws.last(), FULL_WEIGHT)),
            lemma_family(qac, ws.last()),
            LEMMA_WEIGHT,
            false,
        )
    }
}

/// Expand query words with the surface forms that share their lemma.
pub fn expand_by_lemma(words: &Vec<String>, qac: &QacMorphology) -> (r: Vec<WeightedTerm>)
    requires
        qac.wf(),
    ensures
        term_models(r@) == lemma_expansion(strs(words@), qac@),
{
    let ghost ws = strs(words@);
    let mut terms: Vec<WeightedTerm> = Vec::new();
    let mut i: usize = 0;
    assert(ws.take(0) =~= Seq::<Seq<char>>::empty());
    assert(term_models(terms@) =~= Seq::<(Seq<char>, u32)>::empty());
    while i < words.len()
        invariant
            i <= words.len(),
            qac.wf(),
            ws == strs(words@),
            term_models(terms@) == lemma_expansion(ws.take(i as int), qac@),
        decreases words.len() - i,
    {
        proof {
            assert(ws.take(i + 1).drop_last() =~= ws.take(i as int));
            assert(ws.take(i + 1).last() == words@[i as int]@);
        }
        push_original(&mut terms, &words[i]);
        match qac.find_lemma_by_form(words[i].as_str()) {
            Some(lemma) => {
                let forms = qac.get_surface_forms_for_lemma(lemma.as_str());
                push_words(&mut terms, &forms, LEMMA_WEIGHT, false);
            },
            None => {},
        }
        i += 1;
    }
    assert(ws.take(words.len() as int) =~= ws);
    terms
}

/// The Arabic label of the concept at the far end of each relation; empty
/// where the graph has no such concept.
pub open spec fn related_labels(cs: Seq<ConceptModel>, rels: Seq<RelationModel>, incoming: bool) -> Seq<
    Seq<char>,
> {
    rels.map_values(
        |r: RelationModel|
            match concept_by_id(
                cs,
                if incoming {
                    r.subject
                } else {
                    r.object
                },
            ) {
                Some(c) => c.label_ar,
                None => Seq::empty(),
            },
    )
}

/// What the ontology adds for one word: where a concept answers to the
/// word, its synonyms, its Arabic label, and the labels of the concepts one
/// relation away, outgoing first; each with ontology weight, each once.
pub open spec fn ontology_terms_for(
    terms: Seq<(Seq<char>, u32)>,
    cs: Seq<ConceptModel>,
    rs: Seq<RelationModel>,
    w: Seq<char>,
) -> Seq<(Seq<char>, u32)> {
    match concept_by_label(cs, ConceptKey::Arabic, w) {
        None => terms,
        Some(c) => {
            let t1 = add_words(terms, c.synonyms, ONTOLOGY_WEIGHT, false);
            let t2 = add_word(t1, c.label_ar, ONTOLOGY_WEIGHT, true);
            let t3 = add_words(
                t2,
                related_labels(cs, relations_of(rs, c.id, false), false),
                ONTOLOGY_WEIGHT,
                true,
            );
            add_words(
                t3,
                related_labels(cs, relations_of(rs, c.id, true), true),
                ONTOLOGY_WEIGHT,
                true,
            )
        },
    }
}

/// The ontology expansion of the words: each word with full weight, followed
/// by what the ontology adds for it.
pub open spec fn ontology_expansion(
    ws: Seq<Seq<char>>,
    cs: Seq<ConceptModel>,
    rs: Seq<RelationModel>,
) -> Seq<(Seq<char>, u32)>
    decreases ws.len(),
{
    if ws.len() == 0 {
        Seq::empty()
    } else {
        ontology_terms_for(
            ontology_expansion(ws.drop_last(), cs, rs).push((ws.last(), FULL_WEIGHT)),
            cs,
            rs,
            ws.last(),
        )
    }
}

/// The labels of the concepts one relation away from a concept.
pub fn labels_of_related(graph: &OntologyGraph, concept_id: &String, incoming: bool) -> (r: Vec<
    String,
>)
    requires
        graph.wf(),
    ensures
        strs(r@) == related_labels(
            graph.concept_models(),
            relations_of(graph.relation_models(), concept_id@, incoming),
            incoming,
        ),
{
    let rels = graph.relations_at(concept_id.as_str(), incoming);
    let ghost rm = relations_of(graph.relation_models(), concept_id@, incoming);
    let ghost target = related_labels(graph.concept_models(), rm, incoming);
    let mut out: Vec<String> = Vec::new();
    let mut i: usize = 0;
    assert(strs(out@) =~= target.take(0));
    while i < rels.len()
        invariant
            i <= rels.len(),
            graph.wf(),
            rels@.map_values(|x: crate::ontology::concepts::Relation| x@) == rm,
            target == related_labels(graph.concept_models(), rm, incoming),
            strs(out@) == target.take(i as int),
        decreases rels.len() - i,
    {
        let rel = &rels[i];
        assert(rm[i as int] == rel@);
        let far = if incoming {
            &rel.subject
        } else {
            &rel.object
        };
        let label = match graph.get_concept(far.as_str()) {
            Some(c) => c.label_ar.clone(),
            None => String::new(),
        };
        let ghost before = out@;
        assert(label@ == target[i as int]);
        out.push(label);
        assert(strs(out@) =~= strs(before).push(target[i as int]));
        assert(strs(out@) =~= target.take(i + 1));
        i += 1;
    }
    assert(target.take(rels.len() as int) =~= target);
    out
}

/// Expand query words using ontology synonyms and related concepts.
pub fn expand_by_ontology(words: &Vec<String>, graph: &OntologyGraph) -> (r: Vec<WeightedTerm>)
    requires
        graph.wf(),
    ensures
        term_models(r@) == ontology_expansion(
            strs(words@),
            graph.concept_models(),
            graph.relation_models(),
        ),
{
    let ghost ws = strs(words@);
    let ghost cs = graph.concept_models();
    let ghost rs = graph.relation_models();
    let mut terms: Vec<WeightedTerm> = Vec::new();
    let mut i: usize = 0;
    assert(ws.take(0) =~= Seq::<Seq<char>>::empty());
    assert(term_models(terms@) =~= Seq::<(Seq<char>, u32)>::empty());
    while i < words.len()
        invariant
            i <= words.len(),
            ws == strs(words@),
            graph.wf(),
            cs == graph.concept_models(),
            rs == graph.relation_models(),
            term_models(terms@) == ontology_expansion(ws.take(i as int), cs, rs),
        decreases words.len() - i,
    {
        proof {
            assert(ws.take(i + 1).drop_last() =~= ws.take(i as int));
            assert(ws.take(i + 1).last() == words@[i as int]@);
        }
        push_original(&mut terms, &words[i]);
        match graph.find_by_arabic(words[i].as_str()) {
            Some(c) => {
                push_words(&mut terms, &c.synonyms, ONTOLOGY_WEIGHT, false);
                push_word(&mut terms, &c.label_ar, ONTOLOGY_WEIGHT, true);
                let outgoing = labels_of_related(graph, &c.id, false);
                push_words(&mut terms, &outgoing, ONTOLOGY_WEIGHT, true);
                let incoming = labels_of_related(graph, &c.id, true);
                push_words(&mut terms, &incoming, ONTOLOGY_WEIGHT, true);
            },
            None => {},
        }
        i += 1;
    }
    assert(ws.take(words.len() as int) =~= ws);
    terms
}

/// The greatest edit distance at which a vocabulary term still counts as
/// close to a word: 2 for words of four characters and more, else 1.
pub open spec fn fuzzy_threshold(w: Seq<char>) -> nat {
    if w.len() >= 4 {
        2
    } else {
        1
    }
}

/// Whether the vocabulary term is close to the word, and not the word itself.
pub open spec fn is_close(w: Seq<char>, v: Seq<char>) -> bool {
    0 < edit_distance(w, v) <= fuzzy_threshold(w)
}

/// `terms`, then the vocabulary terms close to `w` that no term has yet and
/// that are not query words themselves.
pub open spec fn add_close(
    terms: Seq<(Seq<char>, u32)>,
    vocab: Seq<Seq<char>>,
    w: Seq<char>,
    all: Seq<Seq<char>>,
) -> Seq<(Seq<char>, u32)>
    decreases vocab.len(),
{
    if vocab.len() == 0 {
        terms
    } else {
        let r = add_close(terms, vocab.drop_last(), w, all);
        let v = vocab.last();
        if !term_words(r).contains(v) && !all.contains(v) && is_close(w, v) {
            r.push((v, FUZZY_WEIGHT))
        } else {
            r
        }
    }
}

/// The fuzzy expansion of the first words `ws` of the query words `all`:
/// each word with full weight, and after a word that the index lacks the
/// vocabulary terms close to it.
pub open spec fn fuzzy_from(all: Seq<Seq<char>>, ws: Seq<Seq<char>>, idx: InvertedIndex) -> Seq<
    (Seq<char>, u32),
>
    decreases ws.len(),
{
    if ws.len() == 0 {
        Seq::empty()
    } else {
        let t = fuzzy_from(all, ws.drop_last(), idx).push((ws.last(), FULL_WEIGHT));
        if idx.postings(ws.last()).len() > 0 {
            t
        } else {
            add_close(t, idx.terms(), ws.last(), all)
        }
    }
}

/// The fuzzy expansion of the words: each word with full weight, and after a
/// word that the index lacks the vocabulary terms close to it that are
/// neither terms already nor query words.
pub open spec fn fuzzy_expansion(ws: Seq<Seq<char>>, idx: InvertedIndex) -> Seq<(Seq<char>, u32)> {
    fuzzy_from(ws, ws, idx)
}

/// Fuzzy gating: a word that the index holds is expanded to itself alone.
pub proof fn lemma_fuzzy_keeps_exact_hit(w: Seq<char>, idx: InvertedIndex)
    requires
        idx.postings(w).len() > 0,
    ensures
        fuzzy_expansion(seq![w], idx) == seq![(w, FULL_WEIGHT)],
{
    assert(seq![w].drop_last() =~= Seq::<Seq<char>>::empty());
    assert(seq![w].last() == w);
    assert(fuzzy_from(seq![w], Seq::<Seq<char>>::empty(), idx) =~= Seq::<
        (Seq<char>, u32),
    >::empty());
    assert(Seq::<(Seq<char>, u32)>::empty().push((w, FULL_WEIGHT)) =~= seq![(w, FULL_WEIGHT)]);
}

/// Expand query words with fuzzy matches from the index vocabulary.
pub fn expand_fuzzy(words: &Vec<String>, index: &InvertedIndex) -> (r: Vec<WeightedTerm>)
    requires
        index.wf(),
    ensures
        term_models(r@) == fuzzy_expansion(strs(words@), *index),
{
    let ghost ws = strs(words@);
    let vocab = index.terms_ref();
    let ghost vs = index.terms();
    let mut terms: Vec<WeightedTerm> = Vec::new();
    let mut i: usize = 0;
    assert(ws.take(0) =~= Seq::<Seq<char>>::empty());
    assert(term_models(terms@) =~= Seq::<(Seq<char>, u32)>::empty());
    while i < words.len()
        invariant
            i <= words.len(),
            index.wf(),
            ws == strs(words@),
            vs == index.terms(),
            strs(vocab@) == vs,
            term_models(terms@) == fuzzy_from(ws, ws.take(i as int), *index),
        decreases words.len() - i,
    {
        let word = &words[i];
        proof {
            assert(ws.take(i + 1).drop_last() =~= ws.take(i as int));
            assert(ws.take(i + 1).last() == word@);
        }
        push_original(&mut terms, word);
        if index.lookup(word.as_str()).len() == 0 {
            let max_dist: usize = if word.as_str().unicode_len() >= 4 {
                2
            } else {
                1
            };
            let ghost start = term_models(terms@);
            let mut j: usize = 0;
            assert(vs.take(0) =~= Seq::<Seq<char>>::empty());
            while j < vocab.len()
                invariant
                    j <= vocab.len(),
                    strs(vocab@) == vs,
                    max_dist == fuzzy_threshold(word@),
                    ws == strs(words@),
                    term_models(terms@) == add_close(start, vs.take(j as int), word@, ws),
                decreases vocab.len() - j,
            {
                let v = &vocab[j];
                proof {
                    assert(vs.take(j + 1).drop_last() =~= vs.take(j as int));
                    assert(vs.take(j + 1).last() == v@);
                }
                if !has_term(&terms, v) && !contains_str(words, v) {
                    let dist = levenshtein_distance(word.as_str(), v.as_str());
                    if dist > 0 && dist <= max_dist {
                        let ghost before = terms@;
                        terms.push(WeightedTerm { word: v.clone(), weight: FUZZY_WEIGHT });
                        assert(term_models(terms@) =~= term_models(before).push(
                            (v@, FUZZY_WEIGHT),
                        ));
                    }
                }
                j += 1;
            }
            assert(vs.take(vocab.len() as int) =~= vs);
        }
        i += 1;
    }
    assert(ws.take(words.len() as int) =~= ws);
    terms
}

} // verus!
