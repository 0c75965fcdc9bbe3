use merk::bytes::u64_to_be;
use merk::test_utils::{assert_tree_invariants, del_entry, make_batch_rand, make_batch_seq,
    make_del_batch_seq, make_mixed_batch_rand, make_tree_rand, make_tree_seq, put_entry,
    random_value};
use merk::tree::Op;

#[test]
fn entries_have_big_endian_keys() {
    let e = put_entry(0x0102030405060708);
    assert_eq!(e.0, vec![1, 2, 3, 4, 5, 6, 7, 8]);
    match e.1 {
        Op::Put(v) => assert_eq!(v, vec![123u8; 60]),
        Op::Delete => panic!("expected a Put"),
    }
    let d = del_entry(9);
    assert_eq!(d.0, u64_to_be(9));
    assert!(matches!(d.1, Op::Delete));
}

#[test]
fn sequential_batches_are_sorted() {
    let b = make_batch_seq(3..7);
    assert_eq!(b.len(), 4);
    for (i, e) in b.iter().enumerate() {
        assert_eq!(e.0, u64_to_be(3 + i as u64));
    }
    let d = make_del_batch_seq(0..2);
    assert_eq!(d.len(), 2);
    assert!(matches!(d[0].1, Op::Delete));
}

#[test]
fn random_batches_are_sorted_and_unique() {
    let b = make_batch_rand(50, 7);
    assert!(b.len() <= 50);
    assert!(!b.is_empty());
    for w in b.windows(2) {
        assert!(w[0].0 < w[1].0);
    }
    for e in &b {
        assert_eq!(e.0.len(), 8);
        match &e.1 {
            Op::Put(v) => assert_eq!(v, &vec![123u8; 60]),
            Op::Delete => panic!("expected a Put"),
        }
    }
    // the same seed gives the same batch within one build
    let b2 = make_batch_rand(50, 7);
    assert_eq!(b.len(), b2.len());
    for (x, y) in b.iter().zip(b2.iter()) {
        assert_eq!(x.0, y.0);
    }
}

#[test]
fn random_value_has_requested_length() {
    assert_eq!(random_value(0).len(), 0);
    assert_eq!(random_value(7).len(), 7);
}

#[test]
fn mixed_batches_are_sorted() {
    let t = make_tree_seq(10);
    let keys = t.keys_in_order();
    let b = make_mixed_batch_rand(Some(&t), 20);
    assert_eq!(b.len(), 20);
    for w in b.windows(2) {
        assert!(w[0].0 <= w[1].0);
    }
    for e in &b {
        match &e.1 {
            Op::Put(_) => assert!(e.0.len() == 2 || keys.contains(&e.0)),
            Op::Delete => assert!(keys.contains(&e.0)),
        }
    }
    let b2 = make_mixed_batch_rand(None, 5);
    assert_eq!(b2.len(), 5);
    for e in &b2 {
        assert_eq!(e.0.len(), 2);
        assert!(matches!(e.1, Op::Put(_)));
    }
}

#[test]
fn built_trees_keep_their_invariants() {
    let t = make_tree_seq(100);
    assert_eq!(t.size(), 101);
    assert_tree_invariants(&t);

    let t = make_tree_rand(100, 10, 42);
    assert!(t.size() <= 101);
    assert_tree_invariants(&t);
}
