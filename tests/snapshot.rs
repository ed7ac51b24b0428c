use tag_spider_rs::model::Model;
use tag_spider_rs::snapshot::{DocRecord, SnapshotError};

fn s(x: &str) -> String {
    x.to_string()
}

fn record(path: &str, tf: &[(&str, usize)], count: usize, last_modified: u64) -> DocRecord {
    DocRecord {
        path: s(path),
        tf: tf.iter().map(|(t, c)| (s(t), *c)).collect(),
        count,
        last_modified,
    }
}

fn frequencies(list: &[(&str, usize)]) -> Vec<(String, usize)> {
    list.iter().map(|(t, c)| (s(t), *c)).collect()
}

fn refused(docs: Vec<DocRecord>, df: Vec<(String, usize)>) -> SnapshotError {
    match Model::from_snapshot(&docs, &df) {
        Err(e) => e,
        Ok(_) => panic!("an unsound snapshot was accepted"),
    }
}

#[test]
fn snapshot_reloads_to_the_same_index() {
    let mut m = Model::new();
    m.add_document(s("A"), 10, "the cat sat on the mat");
    m.add_document(s("B"), 12, "the dog sat on the log");
    m.remove_document(&s("B"));
    let (docs, df) = m.snapshot();
    assert_eq!(docs.len(), 1);
    assert_eq!(docs[0].count, 6);
    let back = Model::from_snapshot(&docs, &df).unwrap();
    assert_eq!(back.doc_count(), 1);
    assert_eq!(back.token_count(&s("A")), Some(6));
    assert_eq!(back.term_frequency(&s("A"), &s("the")), Some(2));
    assert_eq!(back.document_frequency(&s("the")), 1);
    assert_eq!(back.document_frequency(&s("dog")), 0);
    assert!(!back.requires_reindexing(&s("A"), 10));
    assert!(back.requires_reindexing(&s("A"), 11));
    assert_eq!(back.search_candidates("cat").len(), 0);
}

#[test]
fn sound_snapshot_is_accepted() {
    let docs = vec![record("A", &[("cat", 2), ("dog", 1)], 3, 1), record("B", &[("dog", 4)], 4, 2)];
    let m = Model::from_snapshot(&docs, &frequencies(&[("cat", 1), ("dog", 2), ("gone", 0)])).unwrap();
    assert_eq!(m.doc_count(), 2);
    assert_eq!(m.document_frequency(&s("dog")), 2);
    assert_eq!(m.term_frequency(&s("B"), &s("dog")), Some(4));
}

#[test]
fn duplicate_path_is_refused() {
    let docs = vec![record("A", &[("cat", 1)], 1, 1), record("A", &[("cat", 1)], 1, 1)];
    assert_eq!(refused(docs, frequencies(&[("cat", 1)])), SnapshotError::DuplicatePath(s("A")));
}

#[test]
fn duplicate_term_is_refused() {
    let docs = vec![record("A", &[("cat", 1), ("cat", 1)], 2, 1)];
    assert_eq!(
        refused(docs, frequencies(&[("cat", 1)])),
        SnapshotError::DuplicateTerm { path: s("A"), term: s("cat") }
    );
}

#[test]
fn zero_term_count_is_refused() {
    let docs = vec![record("A", &[("cat", 0)], 0, 1)];
    assert_eq!(
        refused(docs, frequencies(&[])),
        SnapshotError::ZeroCount { path: s("A"), term: s("cat") }
    );
}

#[test]
fn wrong_token_total_is_refused() {
    let docs = vec![record("A", &[("cat", 2)], 3, 1)];
    assert_eq!(refused(docs, frequencies(&[("cat", 1)])), SnapshotError::CountMismatch(s("A")));
}

#[test]
fn duplicate_frequency_is_refused() {
    let docs = vec![record("A", &[("cat", 1)], 1, 1)];
    assert_eq!(
        refused(docs, frequencies(&[("cat", 1), ("cat", 1)])),
        SnapshotError::DuplicateFrequency(s("cat"))
    );
}

#[test]
fn wrong_frequency_is_refused() {
    let docs = vec![record("A", &[("cat", 1)], 1, 1)];
    assert_eq!(
        refused(docs, frequencies(&[("cat", 2)])),
        SnapshotError::FrequencyMismatch(s("cat"))
    );
}

#[test]
fn missing_frequency_is_refused() {
    let docs = vec![record("A", &[("cat", 1), ("dog", 1)], 2, 1)];
    assert_eq!(
        refused(docs, frequencies(&[("cat", 1)])),
        SnapshotError::FrequencyMismatch(s("dog"))
    );
}

#[test]
fn empty_snapshot_gives_empty_index() {
    let m = Model::from_snapshot(&vec![], &vec![]).unwrap();
    assert_eq!(m.doc_count(), 0);
    assert!(m.search_candidates("anything").is_empty());
}
