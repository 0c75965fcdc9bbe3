use merk::bytes::u64_to_be;
use merk::digest::node_digest_exec;
use merk::tree::{ApplyError, Batch, BatchEntry, FetchError, NoopCommit, Op, PanicSource, Tree,
    Walker};

fn put(n: u64, val: &[u8]) -> BatchEntry {
    (u64_to_be(n), Op::Put(val.to_vec()))
}

fn del(n: u64) -> BatchEntry {
    (u64_to_be(n), Op::Delete)
}

fn apply(tree: Option<Tree>, batch: &Batch) -> Result<Option<Tree>, ApplyError> {
    let walker = tree.map(|t| Walker::new(t, PanicSource {}));
    Walker::<PanicSource>::apply_to(walker, batch)
}

fn apply_ok(tree: Option<Tree>, batch: &Batch) -> Tree {
    apply(tree, batch).unwrap().unwrap()
}

#[test]
fn three_entry_scenario() {
    let batch: Batch = vec![put(1, b"a"), put(2, b"b"), put(3, b"c")];
    let mut t = apply_ok(None, &batch);
    assert_eq!(t.key(), &u64_to_be(2));
    assert_eq!(t.value(), &b"b".to_vec());
    assert!(t.is_modified());
    {
        let l = t.child(true).unwrap();
        let r = t.child(false).unwrap();
        assert_eq!(l.key(), &u64_to_be(1));
        assert_eq!(r.key(), &u64_to_be(3));
        assert!(l.is_modified());
        assert!(r.is_modified());
        assert!(l.child(true).is_none() && l.child(false).is_none());
        assert!(r.child(true).is_none() && r.child(false).is_none());
    }
    t.commit(&mut NoopCommit {}).unwrap();
    assert!(!t.is_modified());
    let hl = node_digest_exec(&u64_to_be(1), &b"a".to_vec(), 0, 0);
    let hr = node_digest_exec(&u64_to_be(3), &b"c".to_vec(), 0, 0);
    let hroot = node_digest_exec(&u64_to_be(2), &b"b".to_vec(), hl, hr);
    assert_eq!(t.hash(), hroot);
    let old_hash = t.hash();

    let mut t2 = apply_ok(Some(t), &vec![del(2)]);
    let keys = t2.keys_in_order();
    assert_eq!(keys.len(), 2);
    assert_eq!(keys[0], u64_to_be(1));
    assert_eq!(keys[1], u64_to_be(3));
    assert!(t2.balance_factor().abs() < 2);
    t2.commit(&mut NoopCommit {}).unwrap();
    assert_ne!(t2.hash(), old_hash);
}

#[test]
fn commit_twice_same_hash() {
    let batch: Batch = vec![put(1, b"x"), put(2, b"y"), put(3, b"z"), put(4, b"w")];
    let mut t = apply_ok(None, &batch);
    t.commit(&mut NoopCommit {}).unwrap();
    let h1 = t.hash();
    assert!(!t.is_modified());
    t.commit(&mut NoopCommit {}).unwrap();
    assert_eq!(t.hash(), h1);
    assert!(!t.is_modified());
}

#[test]
fn duplicate_key_rejected() {
    let batch: Batch = vec![put(5, b"a"), put(5, b"b")];
    match apply(None, &batch) {
        Err(ApplyError::DuplicateKey) => {}
        other => panic!("expected DuplicateKey, got {:?}", other.is_ok()),
    }
    let t = apply_ok(None, &vec![put(5, b"a")]);
    let batch2: Batch = vec![put(5, b"b"), put(5, b"c")];
    match apply(Some(t), &batch2) {
        Err(ApplyError::DuplicateKey) => {}
        other => panic!("expected DuplicateKey, got {:?}", other.is_ok()),
    }
}

#[test]
fn delete_missing_rejected() {
    match apply(None, &vec![del(5)]) {
        Err(ApplyError::DeleteOnEmpty) => {}
        other => panic!("expected DeleteOnEmpty, got {:?}", other.is_ok()),
    }
    let t = apply_ok(None, &vec![put(1, b"a")]);
    match apply(Some(t), &vec![del(2)]) {
        Err(ApplyError::DeleteOnEmpty) => {}
        other => panic!("expected DeleteOnEmpty, got {:?}", other.is_ok()),
    }
}

#[test]
fn size_law_concrete() {
    let mut batch: Batch = Vec::new();
    for n in 0..10u64 {
        batch.push(put(n, b"v"));
    }
    let t = apply_ok(None, &batch);
    assert_eq!(t.size(), 10);

    let mut more: Batch = Vec::new();
    for n in 10..20u64 {
        more.push(put(n, b"v"));
    }
    let t = apply_ok(Some(t), &more);
    assert_eq!(t.size(), 20);

    let mut dels: Batch = Vec::new();
    for n in 0..5u64 {
        dels.push(del(n));
    }
    let t = apply_ok(Some(t), &dels);
    assert_eq!(t.size(), 15);
}

#[test]
fn update_value_in_place() {
    let t = apply_ok(None, &vec![put(7, b"a")]);
    let t = apply_ok(Some(t), &vec![put(7, b"zz")]);
    assert_eq!(t.size(), 1);
    assert_eq!(t.value(), &b"zz".to_vec());
}

#[test]
fn delete_most_of_tree_stays_balanced() {
    let mut batch: Batch = Vec::new();
    for n in 0..64u64 {
        batch.push(put(n, b"v"));
    }
    let mut t = apply_ok(None, &batch);
    t.commit(&mut NoopCommit {}).unwrap();
    let mut dels: Batch = Vec::new();
    for n in 0..60u64 {
        dels.push(del(n));
    }
    let mut t = apply_ok(Some(t), &dels);
    assert_eq!(t.size(), 4);
    t.commit(&mut NoopCommit {}).unwrap();
    merk::test_utils::assert_tree_invariants(&t);
}

fn count_pruned(t: &Tree) -> usize {
    let mut n = 0;
    for side in [true, false] {
        if let Some(l) = t.link(side) {
            if l.is_pruned() {
                n += 1;
            }
        }
        if let Some(c) = t.child(side) {
            n += count_pruned(c);
        }
    }
    n
}

fn find_pruned_hash(t: &Tree) -> Option<u64> {
    for side in [true, false] {
        if let Some(l) = t.link(side) {
            if l.is_pruned() {
                return Some(l.hash());
            }
        }
        if let Some(c) = t.child(side) {
            if let Some(h) = find_pruned_hash(c) {
                return Some(h);
            }
        }
    }
    None
}

#[test]
fn pruned_side_left_alone() {
    // a committed three-entry tree rooted at key 2
    let batch: Batch = vec![put(1, b"a"), put(2, b"b"), put(3, b"c")];
    let mut t = apply_ok(None, &batch);
    t.commit(&mut NoopCommit {}).unwrap();
    let left_hash = t.child(true).unwrap().hash();
    t.prune(true);
    {
        let l = t.link(true).unwrap();
        assert!(l.is_pruned());
        assert_eq!(l.hash(), left_hash);
        assert_eq!(l.key(), &u64_to_be(1));
    }
    // a batch that only touches the right side succeeds without any fetch:
    // the fail-fast source would have refused one
    let mut t = apply_ok(Some(t), &vec![put(4, b"d")]);
    assert_eq!(count_pruned(&t), 1);
    assert_eq!(find_pruned_hash(&t), Some(left_hash));
    t.commit(&mut NoopCommit {}).unwrap();
    assert_eq!(find_pruned_hash(&t), Some(left_hash));
}

#[test]
fn touching_pruned_side_fails_fast() {
    let batch: Batch = vec![put(1, b"a"), put(2, b"b"), put(3, b"c")];
    let mut t = apply_ok(None, &batch);
    t.commit(&mut NoopCommit {}).unwrap();
    t.prune(true);
    match apply(Some(t), &vec![put(1, b"q")]) {
        Err(ApplyError::Fetch(FetchError::Fatal)) => {}
        other => panic!("expected a fatal fetch error, got {:?}", other.is_ok()),
    }
}

#[test]
fn root_hash_covers_values() {
    let a = apply_and_commit(vec![put(1, b"a"), put(2, b"b")]);
    let b = apply_and_commit(vec![put(1, b"a"), put(2, b"c")]);
    assert_ne!(a, b);
}

fn apply_and_commit(batch: Batch) -> u64 {
    let mut t = apply_ok(None, &batch);
    t.commit(&mut NoopCommit {}).unwrap();
    t.hash()
}
