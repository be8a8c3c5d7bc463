use std::borrow::Cow;
use trillian::hypertrie::index::LayeredIndex;

fn collect(c: Cow<[u32]>) -> Vec<u32> {
    c.into_owned()
}

#[test]
fn build_and_query() {
    let idx = LayeredIndex::build(&[(1, 2, 3), (1, 2, 4), (1, 5, 6), (7, 8, 9)]);
    assert_eq!(idx.len(), 4);
    assert_eq!(collect(idx.query_two(1, 2)), vec![3, 4]);
    assert_eq!(collect(idx.query_two(1, 5)), vec![6]);
    assert!(idx.query_two(9, 9).is_empty());
    assert!(idx.contains(1, 2, 3));
    assert!(!idx.contains(1, 2, 99));
}

#[test]
fn counts_and_keys() {
    let idx = LayeredIndex::build(&[(1, 2, 3), (1, 2, 4), (1, 5, 6), (7, 8, 9)]);
    // count_one(first) = total thirds under first, over all seconds
    assert_eq!(idx.count_one(1), 3); // (1,2,3),(1,2,4),(1,5,6)
    assert_eq!(idx.count_one(7), 1);
    assert_eq!(idx.count_one(42), 0);
    // count_two(first, second) = thirds under (first, second)
    assert_eq!(idx.count_two(1, 2), 2);
    assert_eq!(idx.count_two(1, 5), 1);
    assert_eq!(idx.count_two(1, 9), 0);
    // first_keys = distinct, sorted firsts
    assert_eq!(idx.first_keys(), vec![1, 7]);
    // seconds_of = distinct, sorted seconds under a first (zero-copy base)
    assert_eq!(collect(idx.seconds_of(1)), vec![2, 5]);
    assert!(idx.seconds_of(42).is_empty());
}

#[test]
fn seconds_of_merges_delta() {
    let mut idx = LayeredIndex::build(&[(1, 2, 3)]);
    idx.insert(1, 8, 9); // new second 8 under first 1 (delta)
    let mut secs = collect(idx.seconds_of(1));
    secs.sort_unstable();
    assert_eq!(secs, vec![2, 8]);
    // after deleting the only third under (1,8), second 8 disappears
    idx.delete(1, 8, 9);
    assert_eq!(collect(idx.seconds_of(1)), vec![2]);
}

#[test]
fn delta_insert_delete_roundtrip() {
    let mut idx = LayeredIndex::build(&[(1, 2, 3), (1, 2, 5)]);
    // Insert into existing group -> merge.
    assert!(idx.insert(1, 2, 4));
    assert_eq!(collect(idx.query_two(1, 2)), vec![3, 4, 5]);
    assert!(!idx.insert(1, 2, 4)); // duplicate
    assert_eq!(idx.len(), 3);

    // Insert into new group.
    assert!(idx.insert(9, 9, 9));
    assert_eq!(collect(idx.query_two(9, 9)), vec![9]);

    // Delete a base value.
    assert!(idx.delete(1, 2, 3));
    assert_eq!(collect(idx.query_two(1, 2)), vec![4, 5]);
    assert!(!idx.contains(1, 2, 3));

    // Delete a delta insert.
    assert!(idx.delete(1, 2, 4));
    assert_eq!(collect(idx.query_two(1, 2)), vec![5]);

    // Re-insert a deleted base value.
    assert!(idx.insert(1, 2, 3));
    assert_eq!(collect(idx.query_two(1, 2)), vec![3, 5]);

    assert!(!idx.delete(1, 2, 999)); // not present
}

#[test]
fn all_triples_with_delta() {
    let mut idx = LayeredIndex::build(&[(1, 1, 1), (2, 2, 2)]);
    idx.insert(3, 3, 3);
    idx.delete(1, 1, 1);
    let mut all = idx.all_triples();
    all.sort_unstable();
    assert_eq!(all, vec![(2, 2, 2), (3, 3, 3)]);
    assert_eq!(idx.len(), 2);
}

#[test]
fn compaction_preserves_contents() {
    let mut idx = LayeredIndex::build(&[(1, 1, 1)]);
    // Force enough inserts to trigger maybe_compact.
    for t in 0..5000u32 {
        idx.insert(2, 2, t);
    }
    // After (any) compaction all data must still be correct.
    idx.compact();
    assert!(idx.delta_is_empty());
    assert_eq!(idx.len(), 5001);
    assert!(idx.contains(1, 1, 1));
    assert_eq!(idx.query_two(2, 2).len(), 5000);
}

#[test]
fn query_one_pairs_merges_delta() {
    let mut idx = LayeredIndex::build(&[(1, 2, 3)]);
    idx.insert(1, 4, 5);
    let mut pairs = idx.query_one_pairs(1);
    pairs.sort_unstable();
    assert_eq!(pairs, vec![(2, 3), (4, 5)]);
}
