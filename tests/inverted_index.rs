use parallel_computing::ingestion::segment_bounds;
use parallel_computing::inverted_index::{InvertedIndex, QueryResult};
use parallel_computing::word_stemming::{stem_words, word_to_stem};

fn words(list: &[&str]) -> Vec<String> {
    list.iter().map(|s| s.to_string()).collect()
}

fn pairs(results: &[QueryResult]) -> Vec<(String, usize)> {
    results.iter().map(|r| (r.document.clone(), r.rank)).collect()
}

fn sorted_pairs(results: &[QueryResult]) -> Vec<(String, usize)> {
    let mut v = pairs(results);
    v.sort();
    v
}

fn sample_index() -> InvertedIndex {
    let mut index = InvertedIndex::new();
    index.insert("d1".to_string(), words(&["running", "runs", "ran"]));
    index.insert("d2".to_string(), words(&["jump", "running"]));
    index
}

#[test]
fn stems_are_lowercased_and_reduced() {
    assert_eq!(word_to_stem("running".to_string()), "run");
    assert_eq!(word_to_stem("RUNS".to_string()), "run");
    assert_eq!(word_to_stem("Jump".to_string()), "jump");
    assert_eq!(word_to_stem("totally".to_string()), "total");
}

#[test]
fn stem_words_collapses_shared_stems() {
    let stems = stem_words(&words(&["run", "runs", "Running", "jump"]));
    let mut stems: Vec<String> = stems;
    stems.sort();
    assert_eq!(stems, words(&["jump", "run"]));
}

#[test]
fn query_ranks_by_shared_stems() {
    let index = sample_index();
    assert_eq!(pairs(&index.query("running jump")), vec![("d2".to_string(), 2), ("d1".to_string(), 1)]);
}

#[test]
fn query_with_one_stem_finds_every_holder() {
    let index = sample_index();
    // "runs" and "running" share the stem "run", so both documents hold it once.
    assert_eq!(sorted_pairs(&index.query("runs")), vec![("d1".to_string(), 1), ("d2".to_string(), 1)]);
    assert_eq!(pairs(&index.query("ran")), vec![("d1".to_string(), 1)]);
}

#[test]
fn repeated_query_words_count_once() {
    let index = sample_index();
    assert_eq!(pairs(&index.query("jump jump JUMP")), vec![("d2".to_string(), 1)]);
}

#[test]
fn query_without_matches_or_words() {
    let index = sample_index();
    assert!(index.query("").is_empty());
    assert!(index.query("?!").is_empty());
    assert!(index.query("zebra").is_empty());
    assert!(InvertedIndex::new().query("run").is_empty());
}

#[test]
fn inserting_twice_changes_nothing() {
    let mut index = sample_index();
    let before = sorted_pairs(&index.query("running jump ran"));
    index.insert("d1".to_string(), words(&["running", "runs", "ran"]));
    assert_eq!(sorted_pairs(&index.query("running jump ran")), before);
    assert_eq!(sorted_pairs(&index.query("run")), vec![("d1".to_string(), 1), ("d2".to_string(), 1)]);
}

#[test]
fn unrelated_document_keeps_ranks() {
    let mut index = sample_index();
    let before: Vec<(String, usize)> =
        sorted_pairs(&index.query("running jump")).into_iter().filter(|p| p.0 == "d1").collect();
    index.insert("d3".to_string(), words(&["jump", "running", "ran"]));
    let after: Vec<(String, usize)> =
        sorted_pairs(&index.query("running jump")).into_iter().filter(|p| p.0 == "d1").collect();
    assert_eq!(before, after);
    assert_eq!(pairs(&index.query("running jump ran"))[0], ("d3".to_string(), 3));
}

#[test]
fn rank_never_exceeds_query_stems() {
    let index = sample_index();
    for q in ["running jump", "runs ran jump", "run run run", "a b c jump"] {
        let bound = stem_words(&words(&q.split(' ').collect::<Vec<_>>())).len();
        for r in index.query(q) {
            assert!(r.rank >= 1 && r.rank <= bound);
        }
    }
}

#[test]
fn results_come_in_descending_rank() {
    let mut index = InvertedIndex::new();
    index.insert("a".to_string(), words(&["x"]));
    index.insert("b".to_string(), words(&["x", "y", "z"]));
    index.insert("c".to_string(), words(&["x", "y"]));
    let ranks: Vec<usize> = index.query("x y z").iter().map(|r| r.rank).collect();
    assert_eq!(ranks, vec![3, 2, 1]);
    assert_eq!(index.query("x y z")[0].document, "b");
}

#[test]
fn insertion_order_does_not_matter() {
    let mut one = InvertedIndex::new();
    one.insert("d1".to_string(), words(&["alpha", "beta"]));
    one.insert("d2".to_string(), words(&["beta", "gamma"]));
    let mut two = InvertedIndex::new();
    two.insert("d2".to_string(), words(&["beta", "gamma"]));
    two.insert("d1".to_string(), words(&["alpha", "beta"]));
    for q in ["alpha", "beta", "gamma", "alpha beta gamma"] {
        assert_eq!(sorted_pairs(&one.query(q)), sorted_pairs(&two.query(q)));
    }
}

#[test]
fn segments_cover_every_file() {
    assert_eq!(segment_bounds(10, 4), vec![(0, 3), (3, 6), (6, 8), (8, 10)]);
    assert_eq!(segment_bounds(8, 4), vec![(0, 2), (2, 4), (4, 6), (6, 8)]);
    assert_eq!(segment_bounds(2, 4), vec![(0, 1), (1, 2), (2, 2), (2, 2)]);
    assert_eq!(segment_bounds(0, 1), vec![(0, 0)]);
    assert_eq!(segment_bounds(5, 1), vec![(0, 5)]);
}

#[test]
fn stems_recorded_directly() {
    let mut index = InvertedIndex::new();
    index.insert_stems("d1".to_string(), stem_words(&words(&["Running", "jumps"])));
    index.insert_stems("d2".to_string(), words(&["jump"]));
    assert_eq!(pairs(&index.query("run jumping")), vec![("d1".to_string(), 2), ("d2".to_string(), 1)]);
}
