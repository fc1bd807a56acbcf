use quran_analysis::data::qac::QacMorphology;
use quran_analysis::data::quran::QuranText;
use quran_analysis::lang::arabic;
use quran_analysis::nlp::stopwords::StopWords;
use quran_analysis::ontology::concepts::{Concept, Relation};
use quran_analysis::ontology::graph::OntologyGraph;
use quran_analysis::search::engine::SearchEngine;
use quran_analysis::search::index::InvertedIndex;
use quran_analysis::search::scoring::ScoredDocument;
use quran_analysis::search::{query, scoring};

/// The relevance score of a document, from what the library recorded of it.
fn score_of(doc: &ScoredDocument) -> f64 {
    let mut score = 0.0_f64;
    for h in &doc.hits {
        let idf = if h.doc_freq > 0 {
            (doc.corpus_size as f64 / h.doc_freq as f64).ln()
        } else {
            0.0
        };
        let tf = 1.0 + (h.term_count as f64).ln();
        let pos_bonus = 1.0 + (1.0 / h.word_index as f64) * 0.5;
        let stop_penalty = if h.is_stop_word { 0.3 } else { 1.0 };
        score += tf * idf * pos_bonus * stop_penalty * (h.weight as f64 / 10.0);
    }
    let coverage = doc.matched_words.len() as f64 / doc.query_terms as f64;
    score *= 1.0 + coverage;
    let proximity: f64 = doc.gaps.iter().map(|g| 1.0 / *g as f64).sum();
    score * (1.0 + proximity * 0.3)
}

/// The documents with their scores, best first.
fn ranked(docs: Vec<ScoredDocument>) -> Vec<(ScoredDocument, f64)> {
    let mut scored: Vec<(ScoredDocument, f64)> =
        docs.into_iter().map(|d| { let s = score_of(&d); (d, s) }).collect();
    scored.sort_by(|a, b| b.1.partial_cmp(&a.1).unwrap_or(std::cmp::Ordering::Equal));
    scored
}

/// The proximity bonus of a list of word positions.
fn proximity_bonus(positions: &Vec<u16>) -> f64 {
    scoring::compute_proximity_gaps(positions)
        .iter()
        .map(|g| 1.0 / *g as f64)
        .sum()
}

fn sample_quran() -> QuranText {
    let content = "\
1|1|بسم الله الرحمن الرحيم
1|2|الحمد لله رب العالمين
1|3|الرحمن الرحيم
1|4|مالك يوم الدين
1|5|إياك نعبد وإياك نستعين
1|6|اهدنا الصراط المستقيم
1|7|صراط الذين أنعمت عليهم غير المغضوب عليهم ولا الضالين
";
    QuranText::from_str(content).unwrap()
}

fn empty_stopwords() -> StopWords {
    StopWords::from_str("")
}

#[test]
fn test_build_index_from_quran() {
    let quran = sample_quran();
    let sw = empty_stopwords();
    let idx = InvertedIndex::build(&quran, &sw);
    assert!(!idx.is_empty());
}

#[test]
fn test_index_lookup_exact_word() {
    let quran = sample_quran();
    let sw = empty_stopwords();
    let idx = InvertedIndex::build(&quran, &sw);
    // "الله" should be in verse 1:1
    let normalized = arabic::normalize_arabic("الله");
    let results = idx.lookup(&normalized);
    assert!(!results.is_empty());
    assert!(results.iter().any(|e| e.sura == 1 && e.aya == 1));
}

#[test]
fn test_index_lookup_repeated_word() {
    let quran = sample_quran();
    let sw = empty_stopwords();
    let idx = InvertedIndex::build(&quran, &sw);
    // "الرحيم" appears in verse 1:1 and 1:3
    let normalized = arabic::normalize_arabic("الرحيم");
    let results = idx.lookup(&normalized);
    assert!(results.len() >= 2);
    let verses: Vec<(u16, u16)> = results.iter().map(|e| (e.sura, e.aya)).collect();
    assert!(verses.contains(&(1, 1)));
    assert!(verses.contains(&(1, 3)));
}

#[test]
fn test_index_lookup_nonexistent_word() {
    let quran = sample_quran();
    let sw = empty_stopwords();
    let idx = InvertedIndex::build(&quran, &sw);
    let results = idx.lookup("xyznotfound");
    assert!(results.is_empty());
}

#[test]
fn test_index_with_stopwords() {
    let quran = sample_quran();
    // Mark common words as stop words
    let sw = StopWords::from_str("ولا\nغير\n");
    let idx = InvertedIndex::build(&quran, &sw);
    // Stop words should still be indexed (for exact match)
    // but the index should still work
    assert!(!idx.is_empty());
}

#[test]
fn test_index_vocabulary_size() {
    let quran = sample_quran();
    let sw = empty_stopwords();
    let idx = InvertedIndex::build(&quran, &sw);
    assert!(idx.vocabulary_size() > 10);
}

#[test]
fn test_score_exact_match_higher_than_partial() {
    let quran = sample_quran();
    let sw = empty_stopwords();
    let idx = InvertedIndex::build(&quran, &sw);

    let query_words: Vec<String> = vec!["الرحمن".to_string(), "الرحيم".to_string()];
    let normalized: Vec<String> = query_words
        .iter()
        .map(|w| arabic::normalize_arabic(w))
        .collect();

    let results = ranked(scoring::score_search(&idx, &normalized, &quran));
    assert!(!results.is_empty());

    // Verse 1:1 and 1:3 both contain "الرحمن الرحيم"
    // They should be top results
    let top = &results[0].0;
    assert!(top.sura == 1 && (top.aya == 1 || top.aya == 3));
    let second = &results[1].0;
    assert!(second.sura == 1 && (second.aya == 1 || second.aya == 3));
    assert!(results.len() == 2 || results[1].1 > results[2].1);
}

#[test]
fn test_score_single_word_query() {
    let quran = sample_quran();
    let sw = empty_stopwords();
    let idx = InvertedIndex::build(&quran, &sw);

    let normalized = vec![arabic::normalize_arabic("الحمد")];
    let results = ranked(scoring::score_search(&idx, &normalized, &quran));
    assert!(!results.is_empty());
    assert_eq!(results[0].0.sura, 1);
    assert_eq!(results[0].0.aya, 2);
}

#[test]
fn test_score_empty_query() {
    let quran = sample_quran();
    let sw = empty_stopwords();
    let idx = InvertedIndex::build(&quran, &sw);

    let results = scoring::score_search(&idx, &Vec::new(), &quran);
    assert!(results.is_empty());
}

#[test]
fn test_scored_document_fields() {
    let quran = sample_quran();
    let sw = empty_stopwords();
    let idx = InvertedIndex::build(&quran, &sw);

    let normalized = vec![arabic::normalize_arabic("الله")];
    let results = ranked(scoring::score_search(&idx, &normalized, &quran));
    let top = &results[0];
    assert!(top.1 > 0.0);
    assert!(top.0.freq > 0);
}

#[test]
fn test_weighted_term_default_weight() {
    let term = scoring::WeightedTerm {
        word: "test".to_string(),
        weight: 10,
    };
    assert_eq!(term.weight, scoring::FULL_WEIGHT);
    assert_eq!(term.word, "test");
}

#[test]
fn test_score_search_weighted_original_higher_than_expansion() {
    let quran = sample_quran();
    let sw = empty_stopwords();
    let idx = InvertedIndex::build(&quran, &sw);

    let normalized = arabic::normalize_arabic("الله");
    let original = vec![scoring::WeightedTerm {
        word: normalized.clone(),
        weight: 10,
    }];
    let half_weight = vec![scoring::WeightedTerm {
        word: normalized,
        weight: 5,
    }];

    let results_orig = ranked(scoring::score_search_weighted(&idx, &original, &quran));
    let results_half = ranked(scoring::score_search_weighted(&idx, &half_weight, &quran));

    assert!(!results_orig.is_empty());
    assert!(!results_half.is_empty());
    assert!(results_orig[0].1 > results_half[0].1);
}

#[test]
fn test_score_search_weighted_empty_terms() {
    let quran = sample_quran();
    let sw = empty_stopwords();
    let idx = InvertedIndex::build(&quran, &sw);

    let results = scoring::score_search_weighted(&idx, &Vec::new(), &quran);
    assert!(results.is_empty());
}

#[test]
fn test_proximity_bonus_adjacent_words() {
    let positions = vec![1, 2];
    let bonus = proximity_bonus(&positions);
    assert!(bonus > 0.5, "Adjacent words should give high bonus, got {}", bonus);
}

#[test]
fn test_proximity_bonus_distant_words() {
    let positions = vec![1, 100];
    let bonus = proximity_bonus(&positions);
    let adjacent_bonus = proximity_bonus(&vec![1, 2]);
    assert!(
        bonus < adjacent_bonus,
        "Distant words should give lower bonus than adjacent"
    );
}

#[test]
fn test_proximity_bonus_single_word() {
    let positions = vec![5];
    let bonus = proximity_bonus(&positions);
    assert_eq!(bonus, 0.0);
}

#[test]
fn test_proximity_improves_phrase_ranking() {
    let positions_adjacent = vec![1, 2];
    let positions_distant = vec![1, 8];
    let bonus_adj = proximity_bonus(&positions_adjacent);
    let bonus_dist = proximity_bonus(&positions_distant);
    assert!(
        bonus_adj > bonus_dist * 3.0,
        "Adjacent bonus ({}) should be much larger than distant ({})",
        bonus_adj,
        bonus_dist
    );
}

#[test]
fn test_document_frequency_cache_matches_computed() {
    let quran = sample_quran();
    let sw = empty_stopwords();
    let idx = InvertedIndex::build(&quran, &sw);

    // The cached df should match the computed df for any word
    let word = arabic::normalize_arabic("الرحيم");
    let cached_df = idx.document_frequency(&word);
    // "الرحيم" appears in verses 1:1 and 1:3
    assert_eq!(cached_df, 2);
}

#[test]
fn test_document_frequency_cache_nonexistent_word() {
    let quran = sample_quran();
    let sw = empty_stopwords();
    let idx = InvertedIndex::build(&quran, &sw);

    let cached_df = idx.document_frequency("xyznotfound");
    assert_eq!(cached_df, 0);
}

#[test]
fn test_vocabulary_returns_all_indexed_words() {
    let quran = sample_quran();
    let sw = empty_stopwords();
    let idx = InvertedIndex::build(&quran, &sw);

    let vocab = idx.vocabulary();
    // Should contain all unique normalized words
    assert_eq!(vocab.len(), idx.vocabulary_size());
    // Every word in vocabulary should be lookupable
    for word in &vocab {
        assert!(!idx.lookup(word).is_empty());
    }
}

#[test]
fn test_expand_by_lemma_returns_weighted_terms() {
    // Two entries with same lemma but different normalized surface forms
    // kitAbi → "كتاب" (with alef), kutub → "كتب" (without alef)
    let content = "\
LOCATION\tFORM\tTAG\tFEATURES
(2:1:1:1)\tkitAbi\tN\tSTEM|POS:N|LEM:kitAb|ROOT:ktb|M|GEN
(2:2:1:1)\tkutub\tN\tSTEM|POS:N|LEM:kitAb|ROOT:ktb|MP|NOM
";
    let qac = QacMorphology::from_str(content).unwrap();

    let form_ar = arabic::normalize_arabic(
        &quran_analysis::lang::transliteration::buckwalter_to_arabic("kitAbi"),
    );
    let words = vec![form_ar.clone()];
    let expanded = query::expand_by_lemma(&words, &qac);

    // Should include original at full weight
    let original = expanded.iter().find(|t| t.word == form_ar);
    assert!(original.is_some());
    assert_eq!(original.unwrap().weight, 10);

    // Should include other forms at weight 0.8
    assert!(
        expanded.len() > 1,
        "Lemma expansion should add related forms, got: {:?}",
        expanded
    );
    let other = expanded.iter().find(|t| t.weight == 8);
    assert!(other.is_some(), "Expansion should have weight 0.8");
}

#[test]
fn test_expand_fuzzy_finds_close_match() {
    // Build index with known words
    let content = "\
1|1|بسم الله الرحمن الرحيم
1|2|الحمد لله رب العالمين
";
    let quran = QuranText::from_str(content).unwrap();
    let sw = empty_stopwords();
    let idx = InvertedIndex::build(&quran, &sw);

    // A word with 1-char edit distance from a word in the index
    let misspelled = arabic::normalize_arabic("الرحمم");
    let words = vec![misspelled];
    let expanded = query::expand_fuzzy(&words, &idx);
    assert!(
        expanded.len() > 1,
        "Fuzzy expansion should find close matches, got: {:?}",
        expanded
    );
    let fuzzy_match = expanded.iter().find(|t| t.weight < 10);
    assert!(fuzzy_match.is_some());
    assert_eq!(fuzzy_match.unwrap().weight, 4);
}

#[test]
fn test_expand_fuzzy_no_expansion_for_exact_match() {
    let quran = sample_quran();
    let sw = empty_stopwords();
    let idx = InvertedIndex::build(&quran, &sw);

    let word = arabic::normalize_arabic("الله");
    let words = vec![word.clone()];
    let expanded = query::expand_fuzzy(&words, &idx);
    assert_eq!(expanded.len(), 1);
    assert_eq!(expanded[0].word, word);
    assert_eq!(expanded[0].weight, 10);
}

#[test]
fn test_expand_fuzzy_respects_distance_threshold() {
    let quran = sample_quran();
    let sw = empty_stopwords();
    let idx = InvertedIndex::build(&quran, &sw);

    // A word very far from anything in the index
    let words = vec!["xxxxxxxxxx".to_string()];
    let expanded = query::expand_fuzzy(&words, &idx);
    // Should only contain the original word (no close matches)
    assert_eq!(expanded.len(), 1);
}

fn sample_ontology() -> OntologyGraph {
    let concepts = vec![
        Concept {
            id: "Human".to_string(),
            label_ar: "إنسان".to_string(),
            label_en: "Human".to_string(),
            frequency: 65,
            root: String::new(),
            lemma: String::new(),
            synonyms: vec!["بشر".to_string(), "آدمي".to_string()],
        },
        Concept {
            id: "Angel".to_string(),
            label_ar: "ملائكة".to_string(),
            label_en: "Angel".to_string(),
            frequency: 88,
            root: String::new(),
            lemma: String::new(),
            synonyms: vec![],
        },
    ];
    let relations = vec![Relation {
        subject: "Angel".to_string(),
        verb: "serves".to_string(),
        object: "Human".to_string(),
        frequency: 5,
        verb_en: "serves".to_string(),
        verb_uthmani: String::new(),
    }];
    OntologyGraph::build(concepts, relations)
}

#[test]
fn test_expand_by_ontology_finds_synonyms() {
    let graph = sample_ontology();
    let words = vec!["إنسان".to_string()];
    let expanded = query::expand_by_ontology(&words, &graph);
    let expanded_words: Vec<&str> = expanded.iter().map(|t| t.word.as_str()).collect();
    assert!(expanded_words.contains(&"بشر"));
    assert!(expanded_words.contains(&"آدمي"));
}

#[test]
fn test_expand_by_ontology_related_concepts() {
    let graph = sample_ontology();
    // "ملائكة" (Angel) is related to "إنسان" (Human) via "serves"
    let words = vec!["ملائكة".to_string()];
    let expanded = query::expand_by_ontology(&words, &graph);
    let expanded_words: Vec<&str> = expanded.iter().map(|t| t.word.as_str()).collect();
    // Should include the related concept's label
    assert!(expanded_words.contains(&"إنسان"));
}

#[test]
fn test_expand_by_ontology_original_weight_1() {
    let graph = sample_ontology();
    let words = vec!["إنسان".to_string()];
    let expanded = query::expand_by_ontology(&words, &graph);
    let original = expanded.iter().find(|t| t.word == "إنسان").unwrap();
    assert_eq!(original.weight, 10);
}

#[test]
fn test_expand_by_ontology_expansion_weight_half() {
    let graph = sample_ontology();
    let words = vec!["إنسان".to_string()];
    let expanded = query::expand_by_ontology(&words, &graph);
    let synonym = expanded.iter().find(|t| t.word == "بشر").unwrap();
    assert_eq!(synonym.weight, 5);
}

#[test]
fn test_expand_by_ontology_no_match() {
    let graph = sample_ontology();
    let words = vec!["كتاب".to_string()];
    let expanded = query::expand_by_ontology(&words, &graph);
    assert_eq!(expanded.len(), 1);
    assert_eq!(expanded[0].word, "كتاب");
    assert_eq!(expanded[0].weight, 10);
}

#[test]
fn test_search_engine_from_quran_text() {
    let quran = sample_quran();
    let sw = empty_stopwords();
    let engine = SearchEngine::from_data(quran, sw, None, None, "ar");
    assert!(engine.search("الله").len() > 0);
}

#[test]
fn test_search_engine_search_returns_results() {
    let quran = sample_quran();
    let sw = empty_stopwords();
    let engine = SearchEngine::from_data(quran, sw, None, None, "ar");
    let results: Vec<(ScoredDocument, f64)> =
        ranked(engine.search("الرحمن الرحيم")).into_iter().take(5).collect();
    assert!(!results.is_empty());
    let top = &results[0].0;
    assert!(top.sura == 1 && (top.aya == 1 || top.aya == 3));
}

#[test]
fn test_search_engine_search_empty_query() {
    let quran = sample_quran();
    let sw = empty_stopwords();
    let engine = SearchEngine::from_data(quran, sw, None, None, "ar");
    let results = engine.search("");
    assert!(results.is_empty());
}
