use quran_analysis::analysis::{frequency, stats};
use quran_analysis::data::loader::{LoadError, ModelStore, ModelTexts};
use quran_analysis::data::qac::QacMorphology;
use quran_analysis::data::quran::{LineFault, QuranText};
use quran_analysis::lang::arabic;
use quran_analysis::lang::number::parse_radix;
use quran_analysis::lang::similarity;
use quran_analysis::lang::text;
use quran_analysis::lang::transliteration;
use quran_analysis::nlp::pos_tagger::PosTagger;
use quran_analysis::nlp::stopwords::StopWords;
use quran_analysis::nlp::wordnet::{parse_data, parse_index, WordNet};
use quran_analysis::ontology::concepts::{Concept, Relation};
use quran_analysis::ontology::graph::OntologyGraph;
use quran_analysis::ontology::parser::{parse_owl_events, parse_owl_str, XmlEvent, XmlKind};
use quran_analysis::qa::answering::{self, QuestionType};
use quran_analysis::search::engine::{default_prefixes, SearchEngine};
use quran_analysis::search::index::InvertedIndex;
use quran_analysis::search::results::format_results;
use quran_analysis::search::scoring::{self, Hit, ScoredDocument, WeightedTerm};
use quran_analysis::search::query;

fn fatiha() -> QuranText {
    let content = "\
1|1|بسم الله الرحمن الرحيم
1|2|الحمد لله رب العالمين
1|3|الرحمن الرحيم
1|4|مالك يوم الدين
1|5|إياك نعبد وإياك نستعين
1|6|اهدنا الصراط المستقيم
1|7|صراط الذين أنعمت عليهم غير المغضوب عليهم ولا الضالين
";
    QuranText::from_str(content).unwrap()
}

fn no_stopwords() -> StopWords {
    StopWords::from_str("")
}

fn score_of(doc: &ScoredDocument) -> f64 {
    let mut score = 0.0_f64;
    for h in &doc.hits {
        let idf = if h.doc_freq > 0 {
            (doc.corpus_size as f64 / h.doc_freq as f64).ln()
        } else {
            0.0
        };
        let tf = 1.0 + (h.term_count as f64).ln();
        let pos_bonus = 1.0 + (1.0 / h.word_index as f64) * 0.5;
        let stop_penalty = if h.is_stop_word { 0.3 } else { 1.0 };
        score += tf * idf * pos_bonus * stop_penalty * (h.weight as f64 / 10.0);
    }
    let coverage = doc.matched_words.len() as f64 / doc.query_terms as f64;
    score *= 1.0 + coverage;
    let proximity: f64 = doc.gaps.iter().map(|g| 1.0 / *g as f64).sum();
    score * (1.0 + proximity * 0.3)
}

fn term(word: &str, weight: u32) -> WeightedTerm {
    WeightedTerm { word: word.to_string(), weight }
}

fn pairs(terms: &Vec<WeightedTerm>) -> Vec<(String, u32)> {
    terms.iter().map(|t| (t.word.clone(), t.weight)).collect()
}

#[test]
fn normalizing_twice_changes_nothing() {
    for s in ["بِسْمِ ٱللَّهِ", "أحمد إبراهيم آدم", "رحمة", "هدى", "plain text", ""] {
        let once = arabic::normalize_arabic(s);
        assert_eq!(arabic::normalize_arabic(&once), once);
    }
}

#[test]
fn normalizing_unifies_letters_and_strips_marks() {
    assert_eq!(arabic::normalize_arabic("أإآٱ"), "اااا");
    assert_eq!(arabic::normalize_arabic("رحمة"), "رحمه");
    assert_eq!(arabic::normalize_arabic("هدى"), "هدي");
    assert_eq!(arabic::normalize_arabic("\u{064E}\u{0651}\u{0670}"), "");
}

#[test]
fn document_frequency_counts_distinct_verses() {
    let quran = QuranText::from_str("1|1|نور نور نور\n1|2|نور\n2|1|ظلام\n").unwrap();
    let idx = InvertedIndex::build(&quran, &no_stopwords());
    assert_eq!(idx.lookup("نور").len(), 4);
    assert_eq!(idx.document_frequency("نور"), 2);
    for word in idx.vocabulary() {
        let mut verses: Vec<(u16, u16)> =
            idx.lookup(&word).iter().map(|e| (e.sura, e.aya)).collect();
        verses.sort();
        verses.dedup();
        assert_eq!(idx.document_frequency(&word), verses.len());
    }
    assert_eq!(idx.total_documents(), 3);
}

#[test]
fn document_frequency_of_word_in_two_verses_is_two() {
    let quran = fatiha();
    let idx = InvertedIndex::build(&quran, &no_stopwords());
    assert_eq!(idx.document_frequency(&arabic::normalize_arabic("الرحمن")), 2);
}

#[test]
fn postings_keep_corpus_order_and_positions() {
    let quran = QuranText::from_str("2|5|ب ا\n1|1|ا ب ا\n").unwrap();
    let idx = InvertedIndex::build(&quran, &StopWords::from_str("ب\n"));
    let at: Vec<(u16, u16, u16, bool)> = idx
        .lookup("ا")
        .iter()
        .map(|e| (e.sura, e.aya, e.word_index, e.is_stop_word))
        .collect();
    assert_eq!(at, vec![(2, 5, 2, false), (1, 1, 1, false), (1, 1, 3, false)]);
    assert!(idx.lookup("ب").iter().all(|e| e.is_stop_word));
    assert_eq!(idx.vocabulary(), vec!["ب".to_string(), "ا".to_string()]);
}

#[test]
fn english_index_trims_and_lowercases() {
    let quran = QuranText::from_str("1|1|In the Name, of \"God\"! --\n").unwrap();
    let idx = InvertedIndex::build_english(&quran, &StopWords::from_str("the\nof\n"));
    assert_eq!(idx.vocabulary(), vec!["in", "the", "name", "of", "god"]);
    assert_eq!(idx.lookup("god")[0].word_index, 5);
    assert!(idx.lookup("the")[0].is_stop_word);
    assert!(!idx.lookup("name")[0].is_stop_word);
    assert!(idx.lookup("God").is_empty());
}

#[test]
fn unit_weights_score_like_plain_words() {
    let quran = fatiha();
    let idx = InvertedIndex::build(&quran, &no_stopwords());
    let words = vec![
        arabic::normalize_arabic("الرحمن"),
        arabic::normalize_arabic("الرحيم"),
        arabic::normalize_arabic("الدين"),
    ];
    let weighted: Vec<WeightedTerm> = words.iter().map(|w| term(w, 10)).collect();
    let plain = scoring::score_search(&idx, &words, &quran);
    let with_weights = scoring::score_search_weighted(&idx, &weighted, &quran);
    assert_eq!(plain.len(), with_weights.len());
    assert_eq!(plain.len(), 3);
    for (a, b) in plain.iter().zip(with_weights.iter()) {
        assert_eq!((a.sura, a.aya, a.freq), (b.sura, b.aya, b.freq));
        assert_eq!(a.hits, b.hits);
        assert_eq!(a.matched_words, b.matched_words);
        assert_eq!(a.gaps, b.gaps);
        assert_eq!(score_of(a), score_of(b));
    }
}

#[test]
fn heavier_term_scores_higher() {
    let quran = fatiha();
    let idx = InvertedIndex::build(&quran, &no_stopwords());
    let word = arabic::normalize_arabic("الحمد");
    let full = scoring::score_search_weighted(&idx, &vec![term(&word, 10)], &quran);
    let half = scoring::score_search_weighted(&idx, &vec![term(&word, 5)], &quran);
    assert_eq!(full.len(), 1);
    assert_eq!(half.len(), 1);
    assert!(score_of(&full[0]) > score_of(&half[0]));
}

#[test]
fn score_parts_of_a_single_hit() {
    let quran = QuranText::from_str("1|1|نور ظلام\n1|2|ظلام\n").unwrap();
    let idx = InvertedIndex::build(&quran, &no_stopwords());
    let docs = scoring::score_search(&idx, &vec!["نور".to_string()], &quran);
    assert_eq!(docs.len(), 1);
    let d = &docs[0];
    assert_eq!((d.sura, d.aya, d.freq), (1, 1, 1));
    assert_eq!(
        d.hits,
        vec![Hit { term_count: 1, doc_freq: 1, word_index: 1, is_stop_word: false, weight: 10 }]
    );
    assert_eq!(d.matched_words, vec!["نور"]);
    assert_eq!(d.positions, vec![1]);
    assert!(d.gaps.is_empty());
    assert_eq!(d.query_terms, 1);
    assert_eq!(d.corpus_size, 2);
    let expected = 1.0 * (2.0_f64).ln() * 1.5 * 2.0;
    assert!((score_of(d) - expected).abs() < 1e-12);
}

#[test]
fn score_parts_of_repeated_and_expanded_terms() {
    let quran = QuranText::from_str("1|1|ا ب ا ج\n1|2|ب\n1|3|د\n").unwrap();
    let idx = InvertedIndex::build(&quran, &StopWords::from_str("ب\n"));
    let terms = vec![term("ا", 10), term("ب", 7), term("غ", 10)];
    let docs = scoring::score_search_weighted(&idx, &terms, &quran);
    assert_eq!(docs.len(), 2);
    let first = docs.iter().find(|d| d.aya == 1).unwrap();
    assert_eq!(
        first.hits,
        vec![
            Hit { term_count: 2, doc_freq: 1, word_index: 1, is_stop_word: false, weight: 10 },
            Hit { term_count: 2, doc_freq: 1, word_index: 3, is_stop_word: false, weight: 10 },
            Hit { term_count: 1, doc_freq: 2, word_index: 2, is_stop_word: true, weight: 7 },
        ]
    );
    assert_eq!(first.freq, 3);
    assert_eq!(first.matched_words, vec!["ا", "ب"]);
    assert_eq!(first.positions, vec![1, 2, 3]);
    assert_eq!(first.gaps, vec![1, 1]);
    assert_eq!(first.query_terms, 2);
    assert_eq!(first.corpus_size, 3);
    let second = docs.iter().find(|d| d.aya == 2).unwrap();
    assert_eq!(second.freq, 1);
    assert_eq!(second.matched_words, vec!["ب"]);
    assert!(second.gaps.is_empty());
}

#[test]
fn coverage_falls_back_to_all_terms() {
    let quran = QuranText::from_str("1|1|ا ب\n").unwrap();
    let idx = InvertedIndex::build(&quran, &no_stopwords());
    let docs = scoring::score_search_weighted(&idx, &vec![term("ا", 8), term("ب", 7)], &quran);
    assert_eq!(docs.len(), 1);
    assert_eq!(docs[0].query_terms, 2);
}

#[test]
fn proximity_gaps_of_positions() {
    assert_eq!(scoring::compute_proximity_gaps(&vec![1, 2]), vec![1]);
    assert_eq!(scoring::compute_proximity_gaps(&vec![1, 8]), vec![7]);
    assert_eq!(scoring::compute_proximity_gaps(&vec![9, 2, 2, 5]), vec![3, 4]);
    for x in [0u16, 1, 7, 65535] {
        assert!(scoring::compute_proximity_gaps(&vec![x]).is_empty());
    }
    assert!(scoring::compute_proximity_gaps(&Vec::new()).is_empty());
    assert!(scoring::compute_proximity_gaps(&vec![4, 4]).is_empty());
}

#[test]
fn both_words_adjacent_rank_first() {
    let quran = fatiha();
    let idx = InvertedIndex::build(&quran, &no_stopwords());
    let words = query::parse_query("الرحمن الرحيم", "ar");
    let mut docs = scoring::score_search(&idx, &words, &quran);
    docs.sort_by(|a, b| score_of(b).partial_cmp(&score_of(a)).unwrap());
    let top: Vec<(u16, u16)> = docs.iter().take(2).map(|d| (d.sura, d.aya)).collect();
    assert!(top.contains(&(1, 1)));
    assert!(top.contains(&(1, 3)));
    assert_eq!(docs.len(), 2);
}

fn small_morphology() -> QacMorphology {
    let content = "\
LOCATION\tFORM\tTAG\tFEATURES
(2:1:1:1)\tkitAbi\tN\tSTEM|POS:N|LEM:kitAb|ROOT:ktb|M|GEN
(2:2:1:1)\tkutub\tN\tSTEM|POS:N|LEM:kitAb|ROOT:ktb|MP|NOM
(2:3:1:1)\tkAtib\tN\tSTEM|POS:N|LEM:kAtib|ROOT:ktb|M|NOM
";
    QacMorphology::from_str(content).unwrap()
}

#[test]
fn root_expansion_keeps_the_words() {
    let qac = small_morphology();
    let words = vec!["كتاب".to_string(), "غريب".to_string(), "كتاب".to_string()];
    let expanded = query::expand_by_roots(&words, &qac);
    assert_eq!(&expanded[..3], &words[..]);
    assert_eq!(expanded, vec!["كتاب", "غريب", "كتاب", "كتب", "كاتب"]);
    assert!(query::expand_by_roots(&Vec::new(), &qac).is_empty());
}

#[test]
fn root_taken_directly_gives_its_forms() {
    let qac = small_morphology();
    assert_eq!(qac.get_surface_forms_for_root("كتب"), vec!["كتاب", "كتب", "كاتب"]);
    assert_eq!(qac.find_root_by_form("كاتب"), Some("كتب".to_string()));
    assert_eq!(qac.find_root_by_form("غريب"), None);
    assert_eq!(qac.find_lemma_by_form("كتب"), Some("كتاب".to_string()));
    assert_eq!(qac.get_surface_forms_for_lemma("كتاب"), vec!["كتاب", "كتب"]);
    assert_eq!(qac.find_by_root("كتب"), Some(vec![(2, 1, 1), (2, 2, 1), (2, 3, 1)]));
    assert_eq!(qac.find_by_root("غرب"), None);
    assert_eq!(qac.roots_of_word("كتاب"), vec!["كتب"]);
    assert!(qac.get(9, 9, 9).is_none());
}

#[test]
fn morphology_lines_that_write_no_entry() {
    let content = "# c\n\nLOCATION\tx\ty\tz\n(1:1:1)\ta\tN\tf\n(0:1:1:1)\ta\tN\tf\n(1:1:1:1)\ta\tN\n(1:2:3:4)\tbi\tP\tPREFIX\n";
    let qac = QacMorphology::from_str(content).unwrap();
    assert_eq!(qac.entries.len(), 1);
    let e = &qac.entries[0];
    assert_eq!((e.sura, e.aya, e.word, e.segment), (1, 2, 3, 4));
    assert_eq!(e.root, "");
    assert_eq!(e.lemma, "");
    assert_eq!(e.features, "PREFIX");
}

#[test]
fn fuzzy_expansion_leaves_exact_hits_alone() {
    let quran = fatiha();
    let idx = InvertedIndex::build(&quran, &no_stopwords());
    for word in idx.vocabulary() {
        let expanded = query::expand_fuzzy(&vec![word.clone()], &idx);
        assert_eq!(pairs(&expanded), vec![(word, 10)]);
    }
}

#[test]
fn fuzzy_expansion_adds_no_query_word() {
    let quran = QuranText::from_str("1|1|abc abe\n").unwrap();
    let idx = InvertedIndex::build_english(&quran, &no_stopwords());
    let expanded = query::expand_fuzzy(&vec!["abd".to_string(), "abc".to_string()], &idx);
    assert_eq!(
        pairs(&expanded),
        vec![("abd".to_string(), 10), ("abe".to_string(), 4), ("abc".to_string(), 10)]
    );
}

#[test]
fn fuzzy_threshold_depends_on_length() {
    let quran = QuranText::from_str("1|1|abc abcdef xy\n").unwrap();
    let idx = InvertedIndex::build_english(&quran, &no_stopwords());
    let short = query::expand_fuzzy(&vec!["abd".to_string()], &idx);
    assert_eq!(pairs(&short), vec![("abd".to_string(), 10), ("abc".to_string(), 4)]);
    let long = query::expand_fuzzy(&vec!["abcd".to_string()], &idx);
    assert_eq!(
        pairs(&long),
        vec![("abcd".to_string(), 10), ("abc".to_string(), 4), ("abcdef".to_string(), 4)]
    );
    let two = query::expand_fuzzy(&vec!["xz".to_string()], &idx);
    assert_eq!(pairs(&two), vec![("xz".to_string(), 10), ("xy".to_string(), 4)]);
}

fn concept(id: &str, label_ar: &str, synonyms: Vec<&str>) -> Concept {
    Concept {
        id: id.to_string(),
        label_ar: label_ar.to_string(),
        label_en: id.to_string(),
        frequency: 1,
        root: String::new(),
        lemma: String::new(),
        synonyms: synonyms.into_iter().map(|s| s.to_string()).collect(),
    }
}

fn relation(subject: &str, object: &str) -> Relation {
    Relation {
        subject: subject.to_string(),
        verb: "v".to_string(),
        object: object.to_string(),
        frequency: 1,
        verb_en: String::new(),
        verb_uthmani: String::new(),
    }
}

#[test]
fn ontology_expansion_gives_synonyms_and_related_label() {
    let graph = OntologyGraph::build(
        vec![concept("Human", "إنسان", vec!["بشر", "آدمي"]), concept("Earth", "أرض", vec![])],
        vec![relation("Human", "Earth")],
    );
    let expanded = query::expand_by_ontology(&vec!["إنسان".to_string()], &graph);
    assert_eq!(
        pairs(&expanded),
        vec![
            ("إنسان".to_string(), 10),
            ("بشر".to_string(), 5),
            ("آدمي".to_string(), 5),
            ("أرض".to_string(), 5),
        ]
    );
    let by_synonym = query::expand_by_ontology(&vec!["بشر".to_string()], &graph);
    assert_eq!(
        pairs(&by_synonym),
        vec![
            ("بشر".to_string(), 10),
            ("آدمي".to_string(), 5),
            ("إنسان".to_string(), 5),
            ("أرض".to_string(), 5),
        ]
    );
    let incoming = query::expand_by_ontology(&vec!["أرض".to_string()], &graph);
    assert_eq!(pairs(&incoming), vec![("أرض".to_string(), 10), ("إنسان".to_string(), 5)]);
}

#[test]
fn later_concept_wins_a_shared_name() {
    let graph = OntologyGraph::build(
        vec![concept("A", "نور", vec![]), concept("B", "ضوء", vec!["نور"]), concept("A", "شمس", vec![])],
        vec![relation("A", "B"), relation("B", "A"), relation("A", "C")],
    );
    assert_eq!(graph.concept_count(), 2);
    assert_eq!(graph.relation_count(), 3);
    assert_eq!(graph.get_concept("A").unwrap().label_ar, "شمس");
    assert_eq!(graph.find_by_arabic("نور").unwrap().id, "B");
    assert_eq!(graph.find_by_english("a").unwrap().label_ar, "شمس");
    assert!(graph.find_by_arabic("").is_none());
    assert!(graph.get_concept("C").is_none());
    assert_eq!(graph.outgoing_relations("A").len(), 2);
    assert_eq!(graph.incoming_relations("A").len(), 1);
    assert_eq!(graph.get_synonyms("B"), vec!["نور", "ضوء"]);
    assert!(graph.get_synonyms("C").is_empty());
}

#[test]
fn stem_is_found_behind_a_clitic_prefix() {
    let quran = QuranText::from_str("2|265|جنة بربوة\n23|50|ربوة ذات\n3|1|ضربوها\n").unwrap();
    let engine = SearchEngine::from_data(quran, no_stopwords(), None, None, "ar");
    let words = query::parse_query("ربوة", "ar");
    let terms = engine.expand_arabic(&words);
    assert_eq!(pairs(&terms), vec![("ربوه".to_string(), 10), ("بربوه".to_string(), 10)]);
    let docs = engine.search("ربوة");
    let mut verses: Vec<(u16, u16)> = docs.iter().map(|d| (d.sura, d.aya)).collect();
    verses.sort();
    assert_eq!(verses, vec![(2, 265), (23, 50)]);
}

#[test]
fn short_stems_are_not_expanded_and_fuzzy_fills_in() {
    let quran = QuranText::from_str("1|1|قل وقل قال\n").unwrap();
    let engine = SearchEngine::from_data(quran, no_stopwords(), None, None, "ar");
    let hit = engine.expand_arabic(&vec!["قل".to_string()]);
    assert_eq!(pairs(&hit), vec![("قل".to_string(), 10)]);
    let miss = engine.expand_arabic(&vec!["قلل".to_string()]);
    assert_eq!(pairs(&miss), vec![("قلل".to_string(), 10), ("قل".to_string(), 4), ("قال".to_string(), 4)]);
}

#[test]
fn lemma_and_root_forms_get_their_weights() {
    let quran = QuranText::from_str("1|1|كتاب كتب\n1|2|بالكاتب نور\n").unwrap();
    let engine = SearchEngine::from_data(quran, no_stopwords(), Some(small_morphology()), None, "ar");
    let terms = engine.expand_arabic(&vec!["كتاب".to_string()]);
    assert_eq!(
        pairs(&terms),
        vec![
            ("كتاب".to_string(), 10),
            ("كتب".to_string(), 8),
            ("كاتب".to_string(), 7),
            ("بالكاتب".to_string(), 7),
        ]
    );
}

#[test]
fn unseen_forms_become_terms_without_postings() {
    let quran = QuranText::from_str("1|1|نور\n").unwrap();
    let engine = SearchEngine::from_data(quran, no_stopwords(), Some(small_morphology()), None, "ar");
    let terms = engine.expand_arabic(&vec!["كتاب".to_string()]);
    assert_eq!(
        pairs(&terms),
        vec![("كتاب".to_string(), 10), ("كتب".to_string(), 8), ("كاتب".to_string(), 7)]
    );
}

#[test]
fn stem_expansion_takes_no_suffixed_term() {
    let quran = QuranText::from_str("1|1|abc abcd xabc\n").unwrap();
    let engine = SearchEngine::from_data(quran, no_stopwords(), None, None, "ar");
    let terms = engine.expand_arabic(&vec!["abc".to_string()]);
    assert_eq!(pairs(&terms), vec![("abc".to_string(), 10)]);
}

#[test]
fn explicit_language_is_not_overridden_by_script() {
    assert_eq!(query::parse_query("أحمد", "en"), vec!["أحمد"]);
    assert_eq!(query::parse_query("أحمد", "auto"), vec!["احمد"]);
    assert_eq!(query::parse_query("Mercy", "ar"), vec!["Mercy"]);
    assert_eq!(query::parse_query("«Mercy»", "fr"), vec!["mercy"]);
}

#[test]
fn unreadable_attribute_is_passed_over() {
    let (concepts, _) =
        parse_owl_str("<r><c bad rdf:ID=\"x\"><label xml:lang=\"AR\">t</label></c></r>").unwrap();
    assert_eq!(concepts.len(), 1);
    assert_eq!(concepts[0].id, "x");
    assert_eq!(concepts[0].label_ar, "t");
}

#[test]
fn ontology_terms_join_the_arabic_expansion() {
    let quran = QuranText::from_str("1|1|إنسان بشر\n").unwrap();
    let graph = OntologyGraph::build(vec![concept("Human", "إنسان", vec!["بشر", "آدمي"])], vec![]);
    let engine = SearchEngine::from_data(quran, no_stopwords(), None, Some(graph), "ar");
    let terms = engine.expand_arabic(&vec!["انسان".to_string()]);
    assert_eq!(pairs(&terms), vec![("انسان".to_string(), 10)]);
    let terms = engine.expand_arabic(&vec!["إنسان".to_string()]);
    assert_eq!(
        pairs(&terms),
        vec![("إنسان".to_string(), 10), ("بشر".to_string(), 5), ("آدمي".to_string(), 5)]
    );
}

#[test]
fn english_engine_does_not_expand() {
    let quran = QuranText::from_str("1|1|Mercy and mercies\n").unwrap();
    let engine = SearchEngine::from_data(quran, no_stopwords(), None, None, "en");
    let docs = engine.search("MERCY!");
    assert_eq!(docs.len(), 1);
    assert_eq!(docs[0].matched_words, vec!["mercy"]);
    assert!(engine.search("  ").is_empty());
    assert_eq!(engine.quran().len(), 1);
    assert_eq!(engine.index().vocabulary_size(), 3);
    assert_eq!(default_prefixes().len(), 16);
}

#[test]
fn verse_file_faults_name_their_line() {
    let e = QuranText::from_str("1|1|a\n\n# c\nno pipes here\n").unwrap_err();
    assert_eq!((e.fault, e.line), (LineFault::Format, 4));
    let e = QuranText::from_str("1|1\n").unwrap_err();
    assert_eq!((e.fault, e.line), (LineFault::Format, 1));
    let e = QuranText::from_str("1|1|a\nx|1|b\n").unwrap_err();
    assert_eq!((e.fault, e.line), (LineFault::Sura, 2));
    let e = QuranText::from_str("70000|1|b\n").unwrap_err();
    assert_eq!((e.fault, e.line), (LineFault::Sura, 1));
    let e = QuranText::from_str("1|-1|b\n1|x|c").unwrap_err();
    assert_eq!((e.fault, e.line), (LineFault::Aya, 1));
}

#[test]
fn verse_file_keeps_text_after_second_bar() {
    let quran = QuranText::from_str("  +1|002|a|b |c  \r\n1|2|later\n").unwrap();
    assert_eq!(quran.len(), 2);
    assert!(!quran.is_empty());
    assert_eq!(quran.verses[0].text, "a|b |c");
    assert_eq!(quran.get(1, 2).unwrap().text, "later");
    assert!(QuranText::from_str("").unwrap().is_empty());
}

#[test]
fn later_verse_wins_shared_numbers() {
    let quran = QuranText::from_str("1|1|first\n2|1|other\n1|1|second\n").unwrap();
    assert_eq!(quran.len(), 3);
    assert_eq!(quran.get(1, 1).unwrap().text, "second");
    assert_eq!(quran.get(2, 1).unwrap().text, "other");
    assert!(quran.get(1, 2).is_none());
    assert!(quran.get(0, 65537u32 as u16).is_none());
}

#[test]
fn loading_reports_the_first_rejected_text() {
    let good = "1|1|a\n".to_string();
    let bad = "oops\n".to_string();
    let texts = |a: &str, b: &str, c: &str| ModelTexts {
        quran_simple: a.to_string(),
        quran_uthmani: b.to_string(),
        translation_en: c.to_string(),
        qac: String::new(),
        stopwords_ar_l1: "من\n".to_string(),
        stopwords_ar_l2: String::new(),
        stopwords_en: "the\n".to_string(),
    };
    let store = ModelStore::load(&texts(&good, &good, &good)).ok().unwrap();
    assert_eq!(store.quran_simple.len(), 1);
    assert!(store.stopwords_ar_l1.contains("من"));
    assert!(store.stopwords_en.contains("the"));
    assert!(store.stopwords_ar_l2.is_empty());
    assert!(matches!(ModelStore::load(&texts(&bad, &bad, &bad)), Err(LoadError::QuranSimple(_))));
    assert!(matches!(ModelStore::load(&texts(&good, &bad, &bad)), Err(LoadError::QuranUthmani(_))));
    assert!(matches!(ModelStore::load(&texts(&good, &good, &bad)), Err(LoadError::TranslationEn(_))));
}

#[test]
fn numbers_are_read_with_sign_and_bound() {
    let chars = |s: &str| s.chars().collect::<Vec<char>>();
    assert_eq!(parse_radix(&chars("65535"), 10, 65535), Some(65535));
    assert_eq!(parse_radix(&chars("65536"), 10, 65535), None);
    assert_eq!(parse_radix(&chars("+007"), 10, 65535), Some(7));
    assert_eq!(parse_radix(&chars("+"), 10, 65535), None);
    assert_eq!(parse_radix(&chars(""), 10, 65535), None);
    assert_eq!(parse_radix(&chars("-1"), 10, 65535), None);
    assert_eq!(parse_radix(&chars("1 "), 10, 65535), None);
    assert_eq!(parse_radix(&chars("fF"), 16, 0xffff_ffff), Some(255));
    assert_eq!(parse_radix(&chars("18446744073709551615"), 10, u64::MAX), Some(u64::MAX));
    assert_eq!(parse_radix(&chars("18446744073709551616"), 10, u64::MAX), None);
}

#[test]
fn text_is_split_into_lines_and_words() {
    let chars = |s: &str| s.chars().collect::<Vec<char>>();
    let strings = |v: Vec<Vec<char>>| v.into_iter().map(|w| w.into_iter().collect::<String>()).collect::<Vec<String>>();
    assert_eq!(strings(text::lines(&chars("a\r\nb\n\nc\r"))), vec!["a", "b", "", "c\r"]);
    assert!(text::lines(&chars("")).is_empty());
    assert_eq!(strings(text::split_whitespace(&chars(" a\tb\u{00A0}c \n"))), vec!["a", "b", "c"]);
    assert_eq!(strings(text::split_char(&chars("|a||"), '|')), vec!["", "a", "", ""]);
    assert!(text::is_whitespace('\u{3000}'));
    assert!(!text::is_whitespace('\u{200B}'));
}

#[test]
fn edit_distance_counts_characters() {
    assert_eq!(similarity::levenshtein_distance("flaw", "lawn"), 2);
    assert_eq!(similarity::levenshtein_distance("", "رحمن"), 4);
    assert_eq!(similarity::common_unique_chars("aabbc", "cab"), 3);
}

#[test]
fn long_alef_pair_becomes_alef() {
    assert_eq!(transliteration::buckwalter_to_arabic("ja`vim"), "جاثِم");
    assert_eq!(transliteration::buckwalter_to_arabic("a`"), "ا");
    assert_eq!(transliteration::buckwalter_to_arabic("`a"), "\u{0670}\u{064E}");
    assert_eq!(transliteration::arabic_to_buckwalter("بِسْمِ 1"), "bisomi 1");
}

#[test]
fn language_follows_argument_then_script() {
    assert_eq!(arabic::detect_lang("hello", "ar"), "ar");
    assert_eq!(arabic::detect_lang("الله", "en"), "en");
    assert_eq!(arabic::detect_lang("الله", "auto"), "ar");
    assert_eq!(arabic::detect_lang("hello", "auto"), "en");
}

#[test]
fn question_marker_is_stripped_once() {
    assert_eq!(answering::extract_content_words("Who is who?", "en"), vec!["is", "who"]);
    assert_eq!(answering::extract_content_words("من هو الله؟", "ar"), vec!["الله"]);
    assert!(answering::extract_content_words("من", "ar").is_empty());
    assert_eq!(answering::extract_content_words("mercy?", "en"), vec!["mercy"]);
    assert_eq!(answering::detect_question_type("  كم لبثتم"), Some(QuestionType::Quantity));
    assert_eq!(answering::detect_question_type("How Long"), Some(QuestionType::Time));
    assert_eq!(answering::detect_question_type("whom"), Some(QuestionType::Person));
    assert_eq!(answering::detect_question_type(""), None);
}

#[test]
fn answers_carry_type_text_and_root_weight() {
    let quran = QuranText::from_str("1|1|كتاب نور\n1|2|كتب\n").unwrap();
    let idx = InvertedIndex::build(&quran, &no_stopwords());
    let qac = small_morphology();
    let plain = answering::answer_question("ما هو كتاب؟", &idx, &quran);
    assert_eq!(plain.len(), 1);
    assert_eq!(plain[0].question_type, QuestionType::General);
    assert_eq!(plain[0].text, "كتاب نور");
    let with_roots = answering::answer_question_with_qac("ما هو كتاب؟", &idx, &quran, Some(&qac));
    assert_eq!(with_roots.len(), 2);
    let second = with_roots.iter().find(|a| a.aya == 2).unwrap();
    assert_eq!(second.scored.hits[0].weight, 7);
    assert_eq!(second.scored.query_terms, 1);
    let untyped = answering::answer_question("نور", &idx, &quran);
    assert_eq!(untyped[0].question_type, QuestionType::General);
}

#[test]
fn results_take_the_first_documents_with_a_verse() {
    let quran = fatiha();
    let idx = InvertedIndex::build(&quran, &no_stopwords());
    let words = query::parse_query("الرحمن الدين", "ar");
    let docs = scoring::score_search(&idx, &words, &quran);
    assert_eq!(docs.len(), 3);
    let two = format_results(&docs, &quran, 2);
    assert_eq!(two.len(), 2);
    assert_eq!((two[1].sura, two[1].aya, two[1].position), (docs[1].sura, docs[1].aya, 1));
    assert_eq!(two[0].text, quran.get(docs[0].sura, docs[0].aya).unwrap().text);
    assert_eq!(two[0].highlights, docs[0].matched_words);
    assert_eq!(format_results(&docs, &quran, 10).len(), 3);
    let other = QuranText::from_str("9|9|x\n").unwrap();
    assert!(format_results(&docs, &other, 10).is_empty());
}

#[test]
fn stop_words_are_a_set() {
    let sw = StopWords::from_str("the\r\n  a \nthe\n\n\u{FEFF}\u{FEFF}is\n");
    assert_eq!(sw.len(), 3);
    assert!(sw.contains("is"));
    assert!(!sw.contains(" a "));
    assert!(!sw.is_empty());
}

#[test]
fn lexicon_last_line_counts() {
    let tagger = PosTagger::from_str("Run VB\nrun NN VB\nalone\n");
    assert_eq!(tagger.lexicon_size(), 1);
    let tagged = tagger.tag("RUN! nation famous cats ...");
    let got: Vec<(&str, &str)> = tagged.iter().map(|t| (t.word.as_str(), t.tag.as_str())).collect();
    assert_eq!(got, vec![("run", "NN"), ("nation", "NN"), ("famous", "JJ"), ("cats", "NNS")]);
}

#[test]
fn wordnet_synonyms_come_from_synsets() {
    let mut index = Vec::new();
    let mut data = Vec::new();
    parse_index(
        "  header line\nbook n 2 1 @ 2 0 00000010 00000020\nbook v 1 0 1 0 00000030\nshort n 1\n",
        "noun",
        &mut index,
    );
    parse_data(
        "  header\n00000010 03 n 03 book 0 Volume 0 record_book 0 001 @ 1 n 0000 | a written work  \n00000020 03 n 02 book 0 Ledger 0 000 | accounts\nbad 03 n 01 x 0 000 | none\n",
        "noun",
        &mut data,
    );
    let wn = WordNet::from_lists(index, data);
    assert_eq!(wn.len(), 1);
    assert!(wn.contains("BOOK"));
    assert!(!wn.contains("short"));
    assert_eq!(wn.index[0].synset_offsets, vec![10, 20]);
    assert_eq!(wn.index[1].synset_offsets, vec![30]);
    assert_eq!(wn.index[0].pos, "n");
    assert_eq!(wn.data.len(), 2);
    assert_eq!(wn.data[0].gloss, "a written work");
    assert_eq!(wn.data[0].words, vec!["book", "Volume", "record_book"]);
    assert_eq!(wn.get_synonyms("Book"), vec!["volume", "record book", "ledger"]);
    let sw = StopWords::from_str("volume\nthe\n");
    let expanded = query::expand_by_synonyms(&vec!["the".to_string(), "book".to_string()], &wn, &sw);
    assert_eq!(expanded, vec!["the", "book", "record book", "ledger"]);
}

fn event(kind: XmlKind, name: &str) -> XmlEvent {
    XmlEvent {
        kind,
        name: name.to_string(),
        id: None,
        lang: String::new(),
        resource: String::new(),
        frequency: String::new(),
        verb_en: String::new(),
        verb_uthmani: String::new(),
        text: None,
    }
}

#[test]
fn events_are_folded_into_concepts_and_relations() {
    let text = |t: &str| XmlEvent { text: Some(t.to_string()), ..event(XmlKind::Text, "") };
    let events = vec![
        XmlEvent { id: Some("P".to_string()), ..event(XmlKind::Start, "owl:ObjectProperty") },
        XmlEvent { lang: "AR".to_string(), ..event(XmlKind::Start, "rdfs:label") },
        text("ignored"),
        event(XmlKind::End, "rdfs:label"),
        event(XmlKind::End, "owl:ObjectProperty"),
        XmlEvent { id: Some("A".to_string()), ..event(XmlKind::Start, "owl:Class") },
        XmlEvent { lang: "AR".to_string(), ..event(XmlKind::Start, "rdfs:label") },
        text("alef"),
        event(XmlKind::End, "rdfs:label"),
        text("\n"),
        XmlEvent { lang: "EN".to_string(), ..event(XmlKind::Start, "rdfs:label") },
        text("first"),
        event(XmlKind::End, "rdfs:label"),
        event(XmlKind::Start, "annot:frequency"),
        text("12"),
        event(XmlKind::End, "annot:frequency"),
        event(XmlKind::Start, "annot:synonym_2"),
        text("s2"),
        event(XmlKind::End, "annot:synonym_2"),
        XmlEvent {
            resource: "B".to_string(),
            frequency: "x".to_string(),
            verb_en: "made".to_string(),
            ..event(XmlKind::Empty, "objpro:verbobjpro:rest")
        },
        event(XmlKind::Empty, "other:tag"),
        event(XmlKind::Other, ""),
        event(XmlKind::End, "owl:Class"),
        XmlEvent { id: Some(String::new()), ..event(XmlKind::Start, "owl:Class") },
        event(XmlKind::End, "owl:Class"),
    ];
    let (concepts, relations) = parse_owl_events(&events);
    assert_eq!(concepts.len(), 1);
    let c = &concepts[0];
    assert_eq!((c.id.as_str(), c.label_ar.as_str(), c.label_en.as_str()), ("A", "alef", "first"));
    assert_eq!(c.frequency, 12);
    assert_eq!(c.synonyms, vec!["s2"]);
    assert_eq!(relations.len(), 1);
    let r = &relations[0];
    assert_eq!((r.subject.as_str(), r.verb.as_str(), r.object.as_str()), ("A", "verb", "B"));
    assert_eq!((r.frequency, r.verb_en.as_str()), (0, "made"));
}

#[test]
fn broken_xml_is_an_error() {
    let r = parse_owl_str("<a><b></a>");
    assert!(r.is_err());
    assert!(r.unwrap_err().starts_with("XML parse error: "));
    let (concepts, relations) = parse_owl_str("<r><c rdf:ID=\"x&amp;y\"><label xml:lang=\"AR\">&lt;t&gt;</label></c></r>").unwrap();
    assert_eq!(concepts.len(), 1);
    assert_eq!(concepts[0].id, "x&y");
    assert_eq!(concepts[0].label_ar, "<t>");
    assert!(relations.is_empty());
}

#[test]
fn frequencies_fall_and_count_verses() {
    let quran = QuranText::from_str("1|1|ا ب ا\n1|2|ا ج\n").unwrap();
    let freqs = frequency::word_frequencies(&quran);
    let got: Vec<(&str, usize, usize)> =
        freqs.iter().map(|f| (f.word.as_str(), f.count, f.verse_count)).collect();
    assert_eq!(got[0], ("ا", 3, 2));
    assert_eq!(got.len(), 3);
    assert!(got[1..].iter().all(|f| f.1 == 1 && f.2 == 1));
    let s = stats::corpus_stats(&quran);
    assert_eq!(
        (s.total_verses, s.total_suras, s.total_words, s.total_chars, s.unique_words),
        (2, 1, 5, 8, 3)
    );
}
