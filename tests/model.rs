use tag_spider_rs::model::Model;

fn s(x: &str) -> String {
    x.to_string()
}

fn corpus() -> Model {
    let mut m = Model::new();
    m.add_document(s("A"), 10, "the cat sat on the mat");
    m.add_document(s("B"), 10, "the dog sat on the log");
    m
}

fn score(total: usize, hits: &[(usize, usize)], n: usize) -> f32 {
    hits.iter()
        .map(|&(occ, df)| {
            let tf = if total == 0 { 0.0 } else { occ as f32 / total as f32 };
            let idf = (n as f32 / df.max(1) as f32).log10();
            tf * idf
        })
        .sum()
}

#[test]
fn query_finds_only_the_matching_document() {
    let m = corpus();
    let found = m.search_candidates("cat");
    assert_eq!(found.len(), 1);
    assert_eq!(found[0].path, "A");
    assert_eq!(found[0].total, 6);
    assert_eq!(found[0].hits.len(), 1);
    assert_eq!(found[0].hits[0].occurrences, 1);
    assert_eq!(found[0].hits[0].doc_freq, 1);
    let hits: Vec<(usize, usize)> = found[0].hits.iter().map(|h| (h.occurrences, h.doc_freq)).collect();
    assert!(score(found[0].total, &hits, m.doc_count()) > 0.0);
}

#[test]
fn empty_index_gives_no_results() {
    let m = Model::new();
    assert!(m.search_candidates("cat").is_empty());
    assert_eq!(m.doc_count(), 0);
}

#[test]
fn absent_terms_give_no_results() {
    let m = corpus();
    assert!(m.search_candidates("zebra giraffe").is_empty());
}

#[test]
fn term_in_every_document_gives_no_results() {
    let m = corpus();
    assert!(m.search_candidates("sat").is_empty());
}

#[test]
fn repeated_query_terms_count_each_time() {
    let m = corpus();
    let found = m.search_candidates("dog dog");
    assert_eq!(found.len(), 1);
    assert_eq!(found[0].path, "B");
    assert_eq!(found[0].hits.len(), 2);
    assert_eq!(found[0].hits[1].occurrences, 1);
}

#[test]
fn both_documents_match_a_mixed_query() {
    let m = corpus();
    let mut paths: Vec<String> = m.search_candidates("cat log").into_iter().map(|c| c.path).collect();
    paths.sort();
    assert_eq!(paths, vec![s("A"), s("B")]);
}

#[test]
fn reindexing_follows_timestamps() {
    let mut m = Model::new();
    assert!(m.requires_reindexing(&s("x"), 5));
    m.add_document(s("x"), 5, "hello");
    assert!(!m.requires_reindexing(&s("x"), 5));
    assert!(!m.requires_reindexing(&s("x"), 4));
    assert!(m.requires_reindexing(&s("x"), 6));
}

#[test]
fn adding_twice_equals_adding_once() {
    let mut once = corpus();
    once.add_document(s("C"), 3, "the cat and the dog");
    let mut twice = corpus();
    twice.add_document(s("C"), 3, "the cat and the dog");
    twice.add_document(s("C"), 3, "the cat and the dog");
    for term in ["the", "cat", "dog", "and", "sat", "mat", "log", "on"] {
        assert_eq!(once.document_frequency(&s(term)), twice.document_frequency(&s(term)));
        assert_eq!(once.term_frequency(&s("C"), &s(term)), twice.term_frequency(&s("C"), &s(term)));
    }
    assert_eq!(once.token_count(&s("C")), Some(5));
    assert_eq!(twice.token_count(&s("C")), Some(5));
    assert_eq!(twice.document_frequency(&s("the")), 3);
    assert_eq!(twice.doc_count(), 3);
}

#[test]
fn term_counts_and_totals() {
    let m = corpus();
    assert_eq!(m.term_frequency(&s("A"), &s("the")), Some(2));
    assert_eq!(m.term_frequency(&s("A"), &s("dog")), Some(0));
    assert_eq!(m.term_frequency(&s("Z"), &s("the")), None);
    assert_eq!(m.token_count(&s("B")), Some(6));
    assert_eq!(m.document_frequency(&s("the")), 2);
    assert_eq!(m.document_frequency(&s("cat")), 1);
    assert_eq!(m.document_frequency(&s("zebra")), 0);
}

#[test]
fn removing_lowers_frequencies_by_one() {
    let mut m = corpus();
    m.remove_document(&s("A"));
    assert_eq!(m.document_frequency(&s("the")), 1);
    assert_eq!(m.document_frequency(&s("cat")), 0);
    assert_eq!(m.document_frequency(&s("dog")), 1);
    assert_eq!(m.doc_count(), 1);
    assert!(m.requires_reindexing(&s("A"), 0));
    m.remove_document(&s("A"));
    assert_eq!(m.document_frequency(&s("cat")), 0);
    assert_eq!(m.document_frequency(&s("the")), 1);
}

#[test]
fn removing_an_absent_path_changes_nothing() {
    let mut m = corpus();
    m.remove_document(&s("nowhere"));
    assert_eq!(m.doc_count(), 2);
    assert_eq!(m.document_frequency(&s("the")), 2);
    assert_eq!(m.document_frequency(&s("cat")), 1);
    assert_eq!(m.document_frequency(&s("log")), 1);
}

#[test]
fn replacing_a_document_retracts_its_old_terms() {
    let mut m = corpus();
    m.add_document(s("A"), 11, "a bird");
    assert_eq!(m.document_frequency(&s("cat")), 0);
    assert_eq!(m.document_frequency(&s("the")), 1);
    assert_eq!(m.document_frequency(&s("bird")), 1);
    assert_eq!(m.doc_count(), 2);
    assert!(!m.requires_reindexing(&s("A"), 11));
}

#[test]
fn frequencies_match_documents_after_mixed_updates() {
    let mut m = corpus();
    m.add_document(s("C"), 1, "cat cat mat");
    m.remove_document(&s("B"));
    m.add_document(s("D"), 2, "log");
    m.add_document(s("C"), 3, "dog");
    let paths = ["A", "B", "C", "D"];
    for term in ["the", "cat", "sat", "on", "mat", "dog", "log"] {
        let containing = paths
            .iter()
            .filter(|p| matches!(m.term_frequency(&s(p), &s(term)), Some(c) if c > 0))
            .count();
        assert_eq!(m.document_frequency(&s(term)), containing);
    }
}

#[test]
fn empty_document_never_matches() {
    let mut m = corpus();
    m.add_document(s("E"), 1, "   ");
    assert_eq!(m.token_count(&s("E")), Some(0));
    let found = m.search_candidates("cat");
    assert!(found.iter().all(|c| c.path != "E"));
    assert_eq!(found.len(), 1);
}
