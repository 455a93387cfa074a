use rsfts::paging::{page_bounds, page_of};
use rsfts::{DocStats, Document, EngineError, SearchEngine, SearchMode, SearchOptions};

fn doc(id: &str, title: &str, content: &str) -> Document {
    Document::new(id.to_string(), title.to_string(), content.to_string())
}

fn corpus() -> SearchEngine {
    let mut engine = SearchEngine::in_memory();
    engine
        .upsert_document(&doc(
            "1",
            "Rust Programming Language",
            "Rust is a systems programming language that runs blazingly fast, prevents segfaults, and guarantees thread safety.",
        ))
        .unwrap();
    engine
        .upsert_document(&doc(
            "2",
            "Go Programming Language",
            "Go is an open source programming language that makes it easy to build simple, reliable, and efficient software.",
        ))
        .unwrap();
    engine
        .upsert_document(&doc(
            "3",
            "Python Programming",
            "Python is a programming language that lets you work quickly and integrate systems more effectively.",
        ))
        .unwrap();
    engine
}

fn unranked(mode: SearchMode, limit: Option<usize>, offset: usize) -> SearchOptions {
    SearchOptions { mode, use_ranking: false, limit, offset }
}

fn sorted(mut ids: Vec<String>) -> Vec<String> {
    ids.sort();
    ids
}

#[test]
fn test_engine_insert_and_search() {
    let mut engine = SearchEngine::in_memory();

    let doc1 = Document::new(
        "1".to_string(),
        "Rust Programming".to_string(),
        "Rust is a systems programming language".to_string(),
    );

    let doc2 = Document::new(
        "2".to_string(),
        "Go Programming".to_string(),
        "Go is a simple programming language".to_string(),
    );

    engine.upsert_document(&doc1).unwrap();
    engine.upsert_document(&doc2).unwrap();

    let results = engine.search("programming language", &SearchOptions::default());
    assert_eq!(results.total, 2);
}

#[test]
fn test_basic_workflow() {
    let mut engine = SearchEngine::in_memory();

    // Insert document
    let doc = Document::new(
        "1".to_string(),
        "Rust Programming Language".to_string(),
        "Rust is a blazingly fast and memory-efficient language".to_string(),
    );

    engine.upsert_document(&doc).unwrap();

    // Search
    let results = engine.search("rust programming", &SearchOptions::default());

    assert_eq!(results.total, 1);
    assert!(!results.ids.is_empty());
}

#[test]
fn default_options() {
    let options = SearchOptions::default();
    assert!(matches!(options.mode, SearchMode::And));
    assert!(options.use_ranking);
    assert_eq!(options.limit, Some(10));
    assert_eq!(options.offset, 0);
}

#[test]
fn conjunctive_search_finds_all_three() {
    let engine = corpus();
    let found = engine.matches("programming language", SearchMode::And);
    assert_eq!(found.terms, vec!["program", "languag"]);
    assert_eq!(sorted(found.ids), vec!["1", "2", "3"]);
    let result = engine.search("programming language", &SearchOptions::default());
    assert_eq!(result.total, 3);
    assert_eq!(sorted(result.ids), vec!["1", "2", "3"]);
}

#[test]
fn disjunctive_search_finds_rust_and_python() {
    let engine = corpus();
    let options = SearchOptions { mode: SearchMode::Or, ..SearchOptions::default() };
    let result = engine.search("rust python", &options);
    assert_eq!(result.total, 2);
    assert_eq!(sorted(result.ids), vec!["1", "3"]);
}

#[test]
fn conjunctive_search_needs_every_term() {
    let engine = corpus();
    let result = engine.search("rust python", &SearchOptions::default());
    assert_eq!(result.total, 0);
    assert!(result.ids.is_empty());
    let result = engine.search("systems language", &SearchOptions::default());
    assert_eq!(sorted(result.ids), vec!["1", "3"]);
}

#[test]
fn page_of_two_reports_all_matches() {
    let engine = corpus();
    let options = SearchOptions { limit: Some(2), offset: 0, ..SearchOptions::default() };
    let result = engine.search("programming", &options);
    assert_eq!(result.total, 3);
    assert_eq!(result.ids.len(), 2);
}

#[test]
fn pages_partition_the_matches() {
    let engine = corpus();
    let first = engine.search("programming", &unranked(SearchMode::And, Some(2), 0));
    let second = engine.search("programming", &unranked(SearchMode::And, Some(2), 2));
    let beyond = engine.search("programming", &unranked(SearchMode::And, Some(2), 3));
    let far = engine.search("programming", &unranked(SearchMode::And, None, 100));
    let all = engine.search("programming", &unranked(SearchMode::And, None, 0));
    assert_eq!(first.ids.len(), 2);
    assert_eq!(second.ids.len(), 1);
    assert!(beyond.ids.is_empty());
    assert!(far.ids.is_empty());
    assert_eq!(beyond.total, 3);
    assert_eq!(far.total, 3);
    assert_eq!(all.ids.len(), 3);
    let mut joined = first.ids.clone();
    joined.extend(second.ids.clone());
    assert_eq!(joined, all.ids);
}

#[test]
fn delete_removes_from_search() {
    let mut engine = corpus();
    assert!(engine.delete_document("2"));
    let result = engine.search("programming language", &SearchOptions::default());
    assert_eq!(result.total, 2);
    assert!(!result.ids.contains(&"2".to_string()));
    assert_eq!(sorted(result.ids), vec!["1", "3"]);
    assert_eq!(engine.document_count(), 2);
    assert!(engine.get_doc_stats("2").is_none());
    assert_eq!(engine.index().doc_frequency("go"), 0);
}

#[test]
fn delete_is_idempotent() {
    let mut engine = corpus();
    assert!(engine.delete_document("2"));
    assert!(!engine.delete_document("2"));
    assert!(!engine.delete_document("never there"));
    assert_eq!(engine.document_count(), 2);
    assert_eq!(engine.index().total_documents(), 2);
}

#[test]
fn upsert_replaces_a_document() {
    let mut engine = corpus();
    let before = engine.document_count();
    engine
        .upsert_document(&doc(
            "1",
            "Rust: A Modern Systems Programming Language",
            "Rust is a modern systems programming language focused on safety, speed, and concurrency.",
        ))
        .unwrap();
    assert_eq!(engine.document_count(), before);
    assert_eq!(engine.index().total_documents(), 3);
    let modern = engine.search("modern", &SearchOptions::default());
    assert_eq!(modern.ids, vec!["1"]);
    let gone = engine.search("segfaults", &SearchOptions::default());
    assert_eq!(gone.total, 0);
    let stats = engine.get_doc_stats("1").unwrap();
    assert_eq!(stats.term_frequencies.get("modern"), Some(&2));
    assert!(stats.term_frequencies.get("segfault").is_none());
}

#[test]
fn repeated_upsert_changes_nothing() {
    let mut engine = corpus();
    let again = doc(
        "3",
        "Python Programming",
        "Python is a programming language that lets you work quickly and integrate systems more effectively.",
    );
    let count = engine.document_count();
    let postings = engine.stats().total_postings;
    let length = engine.total_length();
    let found = sorted(engine.search("programming systems", &SearchOptions::default()).ids);
    engine.upsert_document(&again).unwrap();
    engine.upsert_document(&again).unwrap();
    assert_eq!(engine.document_count(), count);
    assert_eq!(engine.index().total_documents(), count);
    assert_eq!(engine.stats().total_postings, postings);
    assert_eq!(engine.total_length(), length);
    assert_eq!(sorted(engine.search("programming systems", &SearchOptions::default()).ids), found);
}

#[test]
fn upsert_then_delete_restores_the_count() {
    let mut engine = corpus();
    let count = engine.document_count();
    let tokens = engine.stats().total_tokens;
    engine.upsert_document(&doc("4", "Zig", "Zig is a general-purpose programming language")).unwrap();
    assert_eq!(engine.document_count(), count + 1);
    assert!(engine.delete_document("4"));
    assert_eq!(engine.document_count(), count);
    assert_eq!(engine.stats().total_tokens, tokens);
    assert_eq!(engine.search("zig", &SearchOptions::default()).total, 0);
    let all = engine.search("programming", &unranked(SearchMode::Or, None, 0));
    assert!(!all.ids.contains(&"4".to_string()));
}

#[test]
fn empty_query_finds_nothing() {
    let engine = corpus();
    for mode in [SearchMode::And, SearchMode::Or] {
        let found = engine.matches("", mode);
        assert!(found.terms.is_empty());
        assert!(found.ids.is_empty());
        let result = engine.search("", &unranked(mode, None, 0));
        assert_eq!(result.total, 0);
        assert!(result.ids.is_empty());
    }
}

#[test]
fn query_of_stopwords_finds_nothing() {
    let engine = corpus();
    for mode in [SearchMode::And, SearchMode::Or] {
        let result = engine.search("the and of", &unranked(mode, None, 0));
        assert_eq!(result.total, 0);
        assert!(result.ids.is_empty());
    }
}

#[test]
fn upsert_without_id_is_refused() {
    let mut engine = corpus();
    let refused = engine.upsert_document(&doc("", "No id", "some text"));
    assert!(matches!(refused, Err(EngineError::InvalidArgument)));
    assert_eq!(engine.document_count(), 3);
    assert_eq!(engine.search("text", &SearchOptions::default()).total, 0);
}

#[test]
fn batch_insert_stops_at_the_first_refusal() {
    let mut engine = SearchEngine::in_memory();
    let docs = vec![
        doc("a", "First", "alpha"),
        doc("", "Broken", "beta"),
        doc("c", "Third", "gamma"),
    ];
    let done = engine.batch_insert(&docs);
    assert!(matches!(done, Err(EngineError::InvalidArgument)));
    assert_eq!(engine.document_count(), 1);
    assert_eq!(engine.search("alpha", &SearchOptions::default()).total, 1);
    assert_eq!(engine.search("gamma", &SearchOptions::default()).total, 0);
}

#[test]
fn batch_insert_takes_all() {
    let mut engine = SearchEngine::in_memory();
    let docs = vec![doc("a", "First", "alpha"), doc("b", "Second", "beta"), doc("a", "Again", "gamma")];
    assert!(engine.batch_insert(&docs).is_ok());
    assert_eq!(engine.document_count(), 2);
    assert_eq!(engine.search("alpha", &SearchOptions::default()).total, 0);
    assert_eq!(engine.search("gamma", &SearchOptions::default()).ids, vec!["a"]);
    assert!(engine.batch_insert(&[]).is_ok());
    assert_eq!(engine.document_count(), 2);
}

#[test]
fn statistics_of_a_document() {
    let mut engine = SearchEngine::in_memory();
    engine.upsert_document(&doc("d", "Rust rust", "the rust of Go")).unwrap();
    let stats = engine.get_doc_stats("d").unwrap();
    assert_eq!(stats.id, "d");
    assert_eq!(stats.length, 4);
    assert_eq!(stats.term_frequencies.len(), 2);
    assert_eq!(stats.term_frequencies.get("rust"), Some(&3));
    assert_eq!(stats.term_frequencies.get("go"), Some(&1));
    assert!(stats.is_consistent());
}

#[test]
fn title_and_content_are_joined_by_a_space() {
    let mut engine = SearchEngine::in_memory();
    engine.upsert_document(&doc("d", "alpha", "beta")).unwrap();
    assert_eq!(engine.search("alphabeta", &SearchOptions::default()).total, 0);
    assert_eq!(engine.search("alpha beta", &SearchOptions::default()).total, 1);
    assert_eq!(engine.get_doc_stats("d").unwrap().length, 2);
}

#[test]
fn total_length_is_the_sum_of_lengths() {
    let mut engine = SearchEngine::in_memory();
    assert_eq!(engine.total_length(), 0);
    assert_eq!(engine.document_count(), 0);
    engine.upsert_document(&doc("a", "one two", "three")).unwrap();
    engine.upsert_document(&doc("b", "four", "five six seven eight")).unwrap();
    engine.upsert_document(&doc("c", "the", "of")).unwrap();
    assert_eq!(engine.total_length(), 8);
    assert_eq!(engine.document_count(), 3);
    engine.upsert_document(&doc("a", "one", "")).unwrap();
    assert_eq!(engine.total_length(), 6);
    engine.delete_document("b");
    assert_eq!(engine.total_length(), 1);
    assert_eq!(engine.document_count(), 2);
}

#[test]
fn stats_of_the_corpus() {
    let mut engine = SearchEngine::in_memory();
    engine.upsert_document(&doc("a", "rust", "go")).unwrap();
    engine.upsert_document(&doc("b", "rust", "python rust")).unwrap();
    let stats = engine.stats();
    assert_eq!(stats.total_documents, 2);
    assert_eq!(stats.total_tokens, 3);
    assert_eq!(stats.total_postings, 4);
}

#[test]
fn clear_forgets_everything() {
    let mut engine = corpus();
    engine.clear();
    assert_eq!(engine.document_count(), 0);
    assert_eq!(engine.total_length(), 0);
    assert_eq!(engine.stats().total_tokens, 0);
    assert_eq!(engine.search("programming", &SearchOptions::default()).total, 0);
    engine.upsert_document(&doc("1", "Rust", "again")).unwrap();
    assert_eq!(engine.document_count(), 1);
}

#[test]
fn engine_is_rebuilt_from_its_statistics() {
    let engine = corpus();
    let kept = engine.doc_stats();
    let mut stats: Vec<DocStats> = Vec::new();
    for i in (0..kept.len()).rev() {
        stats.push(kept.value_at(i).clone());
    }
    let rebuilt = SearchEngine::new(stats).unwrap();
    assert_eq!(rebuilt.document_count(), engine.document_count());
    assert_eq!(rebuilt.total_length(), engine.total_length());
    assert_eq!(rebuilt.stats().total_tokens, engine.stats().total_tokens);
    assert_eq!(rebuilt.stats().total_postings, engine.stats().total_postings);
    for query in ["programming language", "rust python", "systems", "nothing"] {
        for mode in [SearchMode::And, SearchMode::Or] {
            assert_eq!(
                sorted(rebuilt.matches(query, mode).ids),
                sorted(engine.matches(query, mode).ids)
            );
        }
    }
}

#[test]
fn rebuilding_refuses_malformed_statistics() {
    let mut wrong_sum = DocStats::new("a".to_string(), 3);
    wrong_sum.term_frequencies.insert("rust".to_string(), 2);
    assert!(!wrong_sum.is_consistent());
    assert!(matches!(SearchEngine::new(vec![wrong_sum]), Err(EngineError::Malformed)));

    let mut zero = DocStats::new("a".to_string(), 2);
    zero.term_frequencies.insert("rust".to_string(), 2);
    zero.term_frequencies.insert("go".to_string(), 0);
    assert!(matches!(SearchEngine::new(vec![zero]), Err(EngineError::Malformed)));

    let mut nameless = DocStats::new(String::new(), 1);
    nameless.term_frequencies.insert("rust".to_string(), 1);
    assert!(matches!(SearchEngine::new(vec![nameless]), Err(EngineError::Malformed)));

    let mut good = DocStats::new("a".to_string(), 2);
    good.term_frequencies.insert("rust".to_string(), 2);
    let engine = SearchEngine::new(vec![good]).unwrap();
    assert_eq!(engine.document_count(), 1);
    assert_eq!(engine.matches("rust", SearchMode::And).ids, vec!["a"]);

    assert_eq!(SearchEngine::new(Vec::new()).unwrap().document_count(), 0);
}

#[test]
fn rebuilding_keeps_the_later_of_two() {
    let mut first = DocStats::new("a".to_string(), 1);
    first.term_frequencies.insert("rust".to_string(), 1);
    let mut second = DocStats::new("a".to_string(), 2);
    second.term_frequencies.insert("go".to_string(), 2);
    let engine = SearchEngine::new(vec![first, second]).unwrap();
    assert_eq!(engine.document_count(), 1);
    assert_eq!(engine.total_length(), 2);
    assert!(engine.matches("rust", SearchMode::And).ids.is_empty());
    assert_eq!(engine.matches("go", SearchMode::And).ids, vec!["a"]);
}

#[test]
fn page_bounds_exact() {
    assert_eq!(page_bounds(3, 0, Some(2)), (0, 2));
    assert_eq!(page_bounds(3, 2, Some(2)), (2, 3));
    assert_eq!(page_bounds(3, 3, Some(2)), (3, 3));
    assert_eq!(page_bounds(3, 7, Some(2)), (3, 3));
    assert_eq!(page_bounds(3, 1, None), (1, 3));
    assert_eq!(page_bounds(3, 0, Some(0)), (0, 0));
    assert_eq!(page_bounds(0, 0, Some(10)), (0, 0));
    assert_eq!(page_bounds(3, 1, Some(usize::MAX)), (1, 3));
    assert_eq!(page_bounds(3, usize::MAX, Some(usize::MAX)), (3, 3));
}

#[test]
fn page_of_exact() {
    let ids: Vec<String> = ["a", "b", "c", "d"].iter().map(|s| s.to_string()).collect();
    assert_eq!(page_of(&ids, 1, Some(2)), vec!["b", "c"]);
    assert_eq!(page_of(&ids, 3, Some(2)), vec!["d"]);
    assert_eq!(page_of(&ids, 0, None), ids);
    assert!(page_of(&ids, 4, None).is_empty());
    assert!(page_of(&ids, 9, Some(1)).is_empty());
}

#[test]
fn errors_have_messages() {
    assert_eq!(EngineError::InvalidArgument.message(), "invalid argument: a document needs an id");
    assert_eq!(EngineError::Malformed.message(), "malformed document statistics");
}
