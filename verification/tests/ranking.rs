use rsfts::ranking::{rank_inputs, score_inputs, ScoreInputs};
use rsfts::{DocStats, Document, InvertedIndex, SearchEngine, SearchMode};

fn strings(words: &[&str]) -> Vec<String> {
    words.iter().map(|w| w.to_string()).collect()
}

fn doc(id: &str, title: &str, content: &str) -> Document {
    Document::new(id.to_string(), title.to_string(), content.to_string())
}

/// The score that the numbers give, with the usual parameters.
fn bm25(inputs: &ScoreInputs, avg_doc_length: f64) -> f64 {
    let k1 = 1.5;
    let b = 0.75;
    let mut score = 0.0;
    for term in &inputs.terms {
        let tf = term.tf as f64;
        let df = term.df as f64;
        let n = inputs.total_docs as f64;
        let idf = if df > 0.0 { ((n - df + 0.5) / (df + 0.5) + 1.0).ln() } else { 0.0 };
        let norm = 1.0 - b + b * (inputs.doc_length as f64 / avg_doc_length);
        score += idf * (tf * (k1 + 1.0)) / (tf + k1 * norm);
    }
    score
}

#[test]
fn test_bm25_score() {
    let mut index = InvertedIndex::new();
    index.add_document("doc1", &["test".to_string()]);

    let mut doc_stats = DocStats::new("doc1".to_string(), 10);
    doc_stats.term_frequencies.insert("test".to_string(), 2);

    let inputs = score_inputs(&["test".to_string()], &doc_stats, &index);
    assert_eq!(inputs.doc_length, 10);
    assert_eq!(inputs.total_docs, 1);
    assert_eq!(inputs.terms.len(), 1);
    assert_eq!(inputs.terms[0].tf, 2);
    assert_eq!(inputs.terms[0].df, 1);

    let score = bm25(&inputs, 10.0);
    assert!(score > 0.0);
    assert!((score - 0.41096).abs() < 1e-4);
}

#[test]
fn score_inputs_skip_terms_that_the_document_lacks() {
    let mut index = InvertedIndex::new();
    index.add_document("a", &strings(&["rust", "go"]));
    index.add_document("b", &strings(&["rust", "zig"]));
    let mut stats = DocStats::new("a".to_string(), 5);
    stats.term_frequencies.insert("rust".to_string(), 3);
    stats.term_frequencies.insert("go".to_string(), 2);
    stats.term_frequencies.insert("idle".to_string(), 0);

    let inputs = score_inputs(&strings(&["go", "zig", "java", "idle", "rust", "go"]), &stats, &index);
    assert_eq!(inputs.doc_length, 5);
    assert_eq!(inputs.total_docs, 2);
    let numbers: Vec<(usize, usize)> = inputs.terms.iter().map(|t| (t.tf, t.df)).collect();
    assert_eq!(numbers, vec![(2, 1), (3, 2), (2, 1)]);

    let none = score_inputs(&[], &stats, &index);
    assert!(none.terms.is_empty());
}

#[test]
fn rank_inputs_skip_candidates_without_statistics() {
    let mut engine = SearchEngine::in_memory();
    engine.upsert_document(&doc("a", "rust", "rust go")).unwrap();
    engine.upsert_document(&doc("b", "go", "zig")).unwrap();
    let ranked = rank_inputs(
        &strings(&["rust", "go"]),
        &strings(&["b", "ghost", "a"]),
        engine.doc_stats(),
        engine.index(),
    );
    assert_eq!(ranked.len(), 2);
    assert_eq!(ranked[0].doc_id, "b");
    assert_eq!(ranked[1].doc_id, "a");
    let b: Vec<(usize, usize)> = ranked[0].inputs.terms.iter().map(|t| (t.tf, t.df)).collect();
    let a: Vec<(usize, usize)> = ranked[1].inputs.terms.iter().map(|t| (t.tf, t.df)).collect();
    assert_eq!(b, vec![(1, 2)]);
    assert_eq!(a, vec![(2, 1), (1, 2)]);
    assert_eq!(ranked[0].inputs.doc_length, 2);
    assert_eq!(ranked[1].inputs.doc_length, 3);
    assert_eq!(ranked[0].inputs.total_docs, 2);
}

#[test]
fn ranked_search_scores_all_three() {
    let mut engine = SearchEngine::in_memory();
    engine
        .upsert_document(&doc(
            "1",
            "Rust Programming Language",
            "Rust is a systems programming language that runs blazingly fast, prevents segfaults, and guarantees thread safety.",
        ))
        .unwrap();
    engine
        .upsert_document(&doc(
            "2",
            "Go Programming Language",
            "Go is an open source programming language that makes it easy to build simple, reliable, and efficient software.",
        ))
        .unwrap();
    engine
        .upsert_document(&doc(
            "3",
            "Python Programming",
            "Python is a programming language that lets you work quickly and integrate systems more effectively.",
        ))
        .unwrap();
    let found = engine.matches("programming language", SearchMode::And);
    assert_eq!(found.ids.len(), 3);
    let ranked = rank_inputs(&found.terms, &found.ids, engine.doc_stats(), engine.index());
    assert_eq!(ranked.len(), 3);
    let avg = engine.total_length() as f64 / engine.document_count() as f64;
    let mut scores: Vec<f64> = ranked.iter().map(|r| bm25(&r.inputs, avg)).collect();
    for score in &scores {
        assert!(score.is_finite());
        assert!(*score > 0.0);
    }
    scores.sort_by(|a, b| b.partial_cmp(a).unwrap());
    assert!(scores[0] >= scores[1] && scores[1] >= scores[2]);
}

#[test]
fn more_occurrences_score_higher() {
    let mut engine = SearchEngine::in_memory();
    engine.upsert_document(&doc("thrice", "rust rust rust", "alpha beta")).unwrap();
    engine.upsert_document(&doc("once", "rust gamma delta", "alpha beta")).unwrap();
    let found = engine.matches("rust", SearchMode::And);
    let ranked = rank_inputs(&found.terms, &found.ids, engine.doc_stats(), engine.index());
    assert_eq!(ranked.len(), 2);
    let avg = engine.total_length() as f64 / engine.document_count() as f64;
    assert_eq!(avg, 5.0);
    let score = |id: &str| {
        let r = ranked.iter().find(|r| r.doc_id == id).unwrap();
        bm25(&r.inputs, avg)
    };
    assert!(score("thrice") > score("once"));

    let once = &ranked.iter().find(|r| r.doc_id == "once").unwrap().inputs;
    assert!(bm25(once, 5.0) != bm25(once, 2.5));
    assert!(bm25(once, 10.0) > bm25(once, 5.0));
}
