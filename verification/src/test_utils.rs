//! Helpers for exercising the tree: invariant checking, in-memory batch
//! application, and batch and tree builders, sequential or randomized.

use vstd::prelude::*;
use std::ops::Range;
use rand::Rng;
use rand::RngCore;
use rand::SeedableRng;
use crate::tree::{
    Tree, Link, Walker, NoopCommit, Batch, BatchEntry, Op, PanicSource, link_clean, dels_of,
    puts_of, apply_map, sorted_batch, uniq_batch, all_puts, all_dels, entry_key,
    lemma_uniform_batch, lemma_batch_keys, lemma_put_value, lemma_contents_size, lemma_size_law,
    lemma_skeleton_congruence,
};
use crate::bytes::{
    lex_lt, lex_le, be_bytes_of, u64_to_be, compare_bytes, copy_bytes, KeyOrder, lemma_be_order,
    lemma_lex_asym, lemma_lex_connected, lemma_lex_trans,
};

verus! {

/// Walk a committed tree and check the search-order, balance and
/// cleanliness invariants on every resident node, as a consumer of the
/// engine's contract would. Under that contract no check can fail, so each
/// failure branch is statically unreachable.
pub fn assert_tree_invariants(tree: &Tree)
    requires
        tree.wf(),
        link_clean(tree.left),
        link_clean(tree.right),
    decreases tree.spec_size(),
{
    let bf = tree.balance_factor();
    if !(-2 < bf && bf < 2) {
        vstd::pervasive::unreached::<()>();
    }
    proof {
        let tl = tree.left;
        let tr = tree.right;
        match tl {
            Some(Link::Resident(c)) => lemma_contents_size(*c),
            _ => {},
        }
        match tr {
            Some(Link::Resident(c)) => lemma_contents_size(*c),
            _ => {},
        }
    }
    let maybe_left = tree.link(true);
    match maybe_left {
        Some(l) => {
            match compare_bytes(l.key(), tree.key()) {
                KeyOrder::Less => {},
                _ => {
                    vstd::pervasive::unreached::<()>();
                },
            }
            if l.is_modified() {
                vstd::pervasive::unreached::<()>();
            }
        },
        None => {},
    }
    let maybe_right = tree.link(false);
    match maybe_right {
        Some(r) => {
            match compare_bytes(r.key(), tree.key()) {
                KeyOrder::Greater => {},
                _ => {
                    vstd::pervasive::unreached::<()>();
                },
            }
            if r.is_modified() {
                vstd::pervasive::unreached::<()>();
            }
        },
        None => {},
    }
    match tree.child(true) {
        Some(lc) => assert_tree_invariants(lc),
        None => {},
    }
    match tree.child(false) {
        Some(rc) => assert_tree_invariants(rc),
        None => {},
    }
}

/// Apply a batch in memory and commit, without re-checking the invariants.
pub fn apply_memonly_unchecked(tree: Tree, batch: &Batch) -> (t2: Tree)
    requires
        tree.wf(),
        tree.hash_inv(),
        tree.resident(),
        sorted_batch(batch@),
        uniq_batch(batch@),
        dels_of(batch@).subset_of(tree.contents().dom()),
        apply_map(tree.contents(), batch@) != Map::<Seq<u8>, Seq<u8>>::empty(),
        tree.spec_size() + batch@.len() <= u64::MAX,
        batch@.len() <= u64::MAX - 1,
    ensures
        t2.wf(),
        t2.hash_inv(),
        t2.resident(),
        t2.clean(),
        t2.contents() == apply_map(tree.contents(), batch@),
        t2.hash == t2.computed_digest(),
        t2.spec_size() <= tree.spec_size() + batch@.len(),
{
    let ghost c0 = tree.contents();
    let walker = Walker::<PanicSource>::new(tree, PanicSource {  });
    let r = Walker::<PanicSource>::apply_to(Some(walker), batch);
    let mut t2 = match r {
        Ok(Some(t)) => t,
        Ok(None) => vstd::pervasive::unreached(),
        Err(_) => vstd::pervasive::unreached(),
    };
    let ghost pre = t2;
    let cr = t2.commit(&mut NoopCommit {  });
    match cr {
        Ok(()) => {},
        Err(_) => vstd::pervasive::unreached(),
    }
    proof {
        lemma_skeleton_congruence(t2, pre);
    }
    t2
}

/// Apply a batch in memory, commit, and re-check the tree's invariants.
pub fn apply_memonly(tree: Tree, batch: &Batch) -> (t2: Tree)
    requires
        tree.wf(),
        tree.hash_inv(),
        tree.resident(),
        sorted_batch(batch@),
        uniq_batch(batch@),
        dels_of(batch@).subset_of(tree.contents().dom()),
        apply_map(tree.contents(), batch@) != Map::<Seq<u8>, Seq<u8>>::empty(),
        tree.spec_size() + batch@.len() <= u64::MAX,
        batch@.len() <= u64::MAX - 1,
    ensures
        t2.wf(),
        t2.hash_inv(),
        t2.resident(),
        t2.clean(),
        t2.contents() == apply_map(tree.contents(), batch@),
        t2.hash == t2.computed_digest(),
        t2.spec_size() <= tree.spec_size() + batch@.len(),
{
    let t2 = apply_memonly_unchecked(tree, batch);
    assert_tree_invariants(&t2);
    t2
}

/// As `apply_memonly`, starting from an optional tree: building from
/// nothing requires a batch of Puts alone.
pub fn apply_to_memonly(maybe_tree: Option<Tree>, batch: &Batch) -> (r: Option<Tree>)
    requires
        sorted_batch(batch@),
        uniq_batch(batch@),
        batch@.len() <= u64::MAX - 1,
        match maybe_tree {
            Some(t) => t.wf() && t.hash_inv() && t.resident() && t.spec_size() + batch@.len()
                <= u64::MAX && dels_of(batch@).subset_of(t.contents().dom()) && apply_map(
                t.contents(),
                batch@,
            ) != Map::<Seq<u8>, Seq<u8>>::empty(),
            None => dels_of(batch@).subset_of(Set::<Seq<u8>>::empty()),
        },
    ensures
        ({
            let c0 = match maybe_tree {
                Some(t) => t.contents(),
                None => Map::<Seq<u8>, Seq<u8>>::empty(),
            };
            &&& (r matches Some(t2) ==> t2.wf() && t2.hash_inv() && t2.resident() && t2.clean()
                && t2.contents() == apply_map(c0, batch@))
            &&& (r is None ==> apply_map(c0, batch@) == Map::<Seq<u8>, Seq<u8>>::empty())
        }),
{
    match maybe_tree {
        Some(tree) => Some(apply_memonly(tree, batch)),
        None => {
            let res = Walker::<PanicSource>::apply_to(None, batch);
            match res {
                Ok(Some(mut t2)) => {
                    let ghost pre = t2;
                    let cr = t2.commit(&mut NoopCommit {  });
                    match cr {
                        Ok(()) => {},
                        Err(_) => vstd::pervasive::unreached(),
                    }
                    proof {
                        lemma_skeleton_congruence(t2, pre);
                    }
                    assert_tree_invariants(&t2);
                    Some(t2)
                },
                Ok(None) => None,
                Err(_) => vstd::pervasive::unreached(),
            }
        },
    }
}

/// Two operations that read the same: both deletes, or puts of equal
/// payloads.
pub open spec fn op_like(a: Op, b: Op) -> bool {
    match (a, b) {
        (Op::Put(v1), Op::Put(v2)) => v1@ == v2@,
        (Op::Delete, Op::Delete) => true,
        _ => false,
    }
}

/// A batch whose Puts all carry the fixed payload writes only that payload.
proof fn lemma_payload_puts(bs: Seq<BatchEntry>)
    requires
        uniq_batch(bs),
        forall|i: int|
            0 <= i < bs.len() ==> ((#[trigger] bs[i]).1 matches Op::Put(v) ==> v@
                == seq_value()),
    ensures
        forall|k: Seq<u8>| puts_of(bs).dom().contains(k) ==> puts_of(bs)[k] == seq_value(),
{
    lemma_batch_keys(bs);
    assert forall|k: Seq<u8>| puts_of(bs).dom().contains(k) implies puts_of(bs)[k]
        == seq_value() by {
        let i = choose|i: int|
            0 <= i < bs.len() && entry_key(#[trigger] bs[i]) == k && bs[i].1 is Put;
        lemma_put_value(bs, i);
    }
}

/// A batch whose keys all have one length writes only keys of that length.
proof fn lemma_puts_key_shape(bs: Seq<BatchEntry>, n: int)
    requires
        forall|i: int| 0 <= i < bs.len() ==> entry_key(#[trigger] bs[i]).len() == n,
    ensures
        forall|k: Seq<u8>| puts_of(bs).dom().contains(k) ==> k.len() == n,
{
    lemma_batch_keys(bs);
    assert forall|k: Seq<u8>| puts_of(bs).dom().contains(k) implies k.len() == n by {
        let i = choose|i: int|
            0 <= i < bs.len() && entry_key(#[trigger] bs[i]) == k && bs[i].1 is Put;
    }
}

/// Distinct integers have distinct big-endian keys.
proof fn lemma_be_injective(a: u64, b: u64)
    requires
        a != b,
    ensures
        be_bytes_of(a) != be_bytes_of(b),
{
    if a < b {
        lemma_be_order(a, b);
    } else {
        lemma_be_order(b, a);
    }
    lemma_lex_asym(be_bytes_of(a), be_bytes_of(b));
}

/// The fixed payload written by sequential batch entries.
pub open spec fn seq_value() -> Seq<u8> {
    Seq::new(60, |i: int| 123u8)
}

/// Build the fixed 60-byte payload.
fn make_value() -> (v: Vec<u8>)
    ensures
        v@ == seq_value(),
{
    let mut v: Vec<u8> = Vec::new();
    let mut i: usize = 0;
    while i < 60
        invariant
            i <= 60,
            v@ =~= Seq::new(i as nat, |q: int| 123u8),
        decreases 60 - i,
    {
        v.push(123);
        i = i + 1;
        proof {
            assert(v@ =~= Seq::new(i as nat, |q: int| 123u8));
        }
    }
    proof {
        assert(v@ =~= seq_value());
    }
    v
}

/// A Put entry for the big-endian key of `n`, with the fixed payload.
pub fn put_entry(n: u64) -> (e: BatchEntry)
    ensures
        e.0@ == be_bytes_of(n),
        e.1 matches Op::Put(v) && v@ == seq_value(),
{
    (u64_to_be(n), Op::Put(make_value()))
}

/// A Delete entry for the big-endian key of `n`.
pub fn del_entry(n: u64) -> (e: BatchEntry)
    ensures
        e.0@ == be_bytes_of(n),
        e.1 is Delete,
{
    (u64_to_be(n), Op::Delete)
}

/// A batch that puts the fixed payload under each key of the range, in order.
pub fn make_batch_seq(range: Range<u64>) -> (b: Batch)
    requires
        range.start <= range.end,
        range.end - range.start <= usize::MAX,
    ensures
        b@.len() == range.end - range.start,
        forall|i: int|
            0 <= i < b@.len() ==> entry_key(#[trigger] b@[i]) == be_bytes_of(
                (range.start + i) as u64,
            ),
        forall|i: int|
            0 <= i < b@.len() ==> ((#[trigger] b@[i]).1 matches Op::Put(v) && v@
                == seq_value()),
        sorted_batch(b@),
        uniq_batch(b@),
        all_puts(b@),
{
    let mut b: Batch = Vec::new();
    let mut n = range.start;
    while n < range.end
        invariant
            range.start <= n <= range.end,
            b@.len() == n - range.start,
            forall|i: int|
                0 <= i < b@.len() ==> entry_key(#[trigger] b@[i]) == be_bytes_of(
                    (range.start + i) as u64,
                ),
            forall|i: int|
                0 <= i < b@.len() ==> ((#[trigger] b@[i]).1 matches Op::Put(v) && v@
                    == seq_value()),
        decreases range.end - n,
    {
        b.push(put_entry(n));
        n = n + 1;
    }
    proof {
        assert forall|i: int, j: int| 0 <= i < j < b@.len() implies lex_le(
            entry_key(#[trigger] b@[i]),
            entry_key(#[trigger] b@[j]),
        ) && entry_key(b@[i]) != entry_key(b@[j]) by {
            lemma_be_order((range.start + i) as u64, (range.start + j) as u64);
            lemma_lex_asym(entry_key(b@[i]), entry_key(b@[j]));
        }
    }
    b
}

/// A batch that deletes each key of the range, in order.
pub fn make_del_batch_seq(range: Range<u64>) -> (b: Batch)
    requires
        range.start <= range.end,
        range.end - range.start <= usize::MAX,
    ensures
        b@.len() == range.end - range.start,
        forall|i: int|
            0 <= i < b@.len() ==> entry_key(#[trigger] b@[i]) == be_bytes_of(
                (range.start + i) as u64,
            ),
        sorted_batch(b@),
        uniq_batch(b@),
        all_dels(b@),
{
    let mut b: Batch = Vec::new();
    let mut n = range.start;
    while n < range.end
        invariant
            range.start <= n <= range.end,
            b@.len() == n - range.start,
            forall|i: int|
                0 <= i < b@.len() ==> entry_key(#[trigger] b@[i]) == be_bytes_of(
                    (range.start + i) as u64,
                ) && b@[i].1 is Delete,
        decreases range.end - n,
    {
        b.push(del_entry(n));
        n = n + 1;
    }
    proof {
        assert forall|i: int, j: int| 0 <= i < j < b@.len() implies lex_le(
            entry_key(#[trigger] b@[i]),
            entry_key(#[trigger] b@[j]),
        ) && entry_key(b@[i]) != entry_key(b@[j]) by {
            lemma_be_order((range.start + i) as u64, (range.start + j) as u64);
            lemma_lex_asym(entry_key(b@[i]), entry_key(b@[j]));
        }
    }
    b
}

/// Relies on SeedableRng::seed_from_u64 for SmallRng: a deterministic
/// generator built from the seed.
#[verifier::external_body]
fn seeded_rng(seed: u64) -> rand::rngs::SmallRng {
    rand::rngs::SmallRng::seed_from_u64(seed)
}

#[verifier::external_type_specification]
#[verifier::external_body]
pub struct ExSmallRng(rand::rngs::SmallRng);

#[verifier::external_type_specification]
#[verifier::external_body]
pub struct ExThreadRng(rand::rngs::ThreadRng);

/// Relies on Rng::gen for u64: the generator's next value; nothing is
/// promised of it.
#[verifier::external_body]
fn next_random_u64(rng: &mut rand::rngs::SmallRng) -> u64 {
    rng.gen()
}

/// Relies on rand::thread_rng: a handle to the thread-local generator. It
/// aborts the process if the operating system's entropy source fails on a
/// thread's first use or on a reseed; like running out of memory, that is
/// environmental and independent of any input.
#[verifier::external_body]
fn entropy_rng() -> rand::rngs::ThreadRng {
    rand::thread_rng()
}

/// Relies on Rng::gen for u64 on the thread-local generator; nothing is
/// promised of the value. A failed reseed from the operating system aborts,
/// as for `entropy_rng`.
#[verifier::external_body]
fn next_entropy_u64(rng: &mut rand::rngs::ThreadRng) -> u64 {
    rng.gen()
}

/// Relies on RngCore::fill_bytes: fills the buffer in place with random
/// bytes, leaving its length unchanged.
#[verifier::external_body]
fn fill_random_bytes(rng: &mut rand::rngs::ThreadRng, buf: &mut Vec<u8>)
    ensures
        final(buf)@.len() == old(buf)@.len(),
{
    rng.fill_bytes(buf.as_mut_slice());
}

/// Relies on Vec::sort_by of std: sorts in place by the given comparator —
/// here the library's own key comparison — into non-decreasing key order;
/// the result is a permutation of the input.
#[verifier::external_body]
fn sort_batch(b: &mut Batch)
    ensures
        sorted_batch(final(b)@),
        final(b)@.len() == old(b)@.len(),
        forall|q: int|
            0 <= q < final(b)@.len() ==> exists|p: int|
                0 <= p < old(b)@.len() && #[trigger] final(b)@[q] == old(b)@[p],
{
    b.sort_by(
        |x, y|
            match compare_bytes(&x.0, &y.0) {
                KeyOrder::Less => std::cmp::Ordering::Less,
                KeyOrder::Equal => std::cmp::Ordering::Equal,
                KeyOrder::Greater => std::cmp::Ordering::Greater,
            },
    );
}

/// Drop all but the first of each run of equal keys from a sorted batch.
fn dedup_sorted(b: Batch) -> (r: Batch)
    requires
        sorted_batch(b@),
    ensures
        sorted_batch(r@),
        uniq_batch(r@),
        r@.len() <= b@.len(),
        b@.len() >= 1 ==> r@.len() >= 1,
        forall|q: int|
            0 <= q < r@.len() ==> exists|p: int|
                0 <= p < b@.len() && entry_key(#[trigger] r@[q]) == entry_key(b@[p]) && op_like(
                    r@[q].1,
                    b@[p].1,
                ),
        all_puts(b@) ==> all_puts(r@),
        all_dels(b@) ==> all_dels(r@),
{
    let mut r: Batch = Vec::new();
    let mut i: usize = 0;
    while i < b.len()
        invariant
            i <= b@.len(),
            sorted_batch(b@),
            sorted_batch(r@),
            uniq_batch(r@),
            r@.len() <= i,
            (r@.len() > 0) == (i > 0),
            i > 0 ==> entry_key(r@.last()) == entry_key(b@[i - 1]),
            forall|q: int|
                0 <= q < r@.len() ==> exists|p: int|
                    0 <= p < i && entry_key(#[trigger] r@[q]) == entry_key(b@[p]) && op_like(
                        r@[q].1,
                        b@[p].1,
                    ),
            all_puts(b@) ==> all_puts(r@),
            all_dels(b@) ==> all_dels(r@),
        decreases b@.len() - i,
    {
        let push_it = if i == 0 {
            true
        } else {
            match compare_bytes(&b[i - 1].0, &b[i].0) {
                KeyOrder::Equal => false,
                _ => true,
            }
        };
        if push_it {
            let e: BatchEntry = (
                copy_bytes(&b[i].0),
                match &b[i].1 {
                    Op::Put(v) => Op::Put(copy_bytes(v)),
                    Op::Delete => Op::Delete,
                },
            );
            proof {
                if i > 0 {
                    let prev = entry_key(b@[i - 1]);
                    let cur = entry_key(b@[i as int]);
                    lemma_lex_connected(prev, cur);
                    assert(lex_le(prev, cur));
                    assert forall|q: int| 0 <= q < r@.len() implies lex_lt(
                        entry_key(#[trigger] r@[q]),
                        cur,
                    ) by {
                        if q < r@.len() - 1 {
                            assert(lex_le(entry_key(r@[q]), entry_key(r@[r@.len() - 1])));
                        }
                        if entry_key(r@[q]) == prev {
                        } else {
                            lemma_lex_trans(entry_key(r@[q]), prev, cur);
                        }
                    }
                }
            }
            r.push(e);
            proof {
                assert(entry_key(r@.last()) == entry_key(b@[i as int]) && op_like(
                    r@.last().1,
                    b@[i as int].1,
                ));
                assert forall|p: int, q: int| 0 <= p < q < r@.len() implies lex_le(
                    entry_key(#[trigger] r@[p]),
                    entry_key(#[trigger] r@[q]),
                ) && entry_key(r@[p]) != entry_key(r@[q]) by {
                    if q < r@.len() - 1 {
                    } else if p < r@.len() - 1 {
                        lemma_lex_asym(entry_key(r@[p]), entry_key(r@[q]));
                    }
                }
            }
        }
        i = i + 1;
    }
    r
}

/// A sorted, deduplicated batch of Puts under pseudo-random keys drawn from
/// the seeded generator.
pub fn make_batch_rand(size: u64, seed: u64) -> (b: Batch)
    requires
        size <= usize::MAX,
    ensures
        sorted_batch(b@),
        uniq_batch(b@),
        all_puts(b@),
        b@.len() <= size,
        size >= 1 ==> b@.len() >= 1,
        forall|i: int| 0 <= i < b@.len() ==> entry_key(#[trigger] b@[i]).len() == 8,
        forall|i: int|
            0 <= i < b@.len() ==> ((#[trigger] b@[i]).1 matches Op::Put(v) && v@
                == seq_value()),
{
    let mut rng = seeded_rng(seed);
    let mut batch: Batch = Vec::new();
    let mut k: u64 = 0;
    while k < size
        invariant
            k <= size,
            batch@.len() == k,
            forall|q: int|
                0 <= q < batch@.len() ==> entry_key(#[trigger] batch@[q]).len() == 8 && (
                batch@[q].1 matches Op::Put(v) && v@ == seq_value()),
        decreases size - k,
    {
        let n = next_random_u64(&mut rng);
        batch.push(put_entry(n));
        k = k + 1;
    }
    let ghost b0 = batch@;
    sort_batch(&mut batch);
    let ghost b1 = batch@;
    proof {
        assert forall|q: int|
            0 <= q < b1.len() implies entry_key(#[trigger] b1[q]).len() == 8 && (b1[q].1
            matches Op::Put(v) && v@ == seq_value()) by {
            let p = choose|p: int| 0 <= p < b0.len() && b1[q] == b0[p];
        }
    }
    let r = dedup_sorted(batch);
    proof {
        assert forall|i: int|
            0 <= i < r@.len() implies entry_key(#[trigger] r@[i]).len() == 8 && (r@[i].1
            matches Op::Put(v) && v@ == seq_value()) by {
            let p = choose|p: int|
                0 <= p < b1.len() && entry_key(#[trigger] r@[i]) == entry_key(b1[p]) && op_like(
                    r@[i].1,
                    b1[p].1,
                );
        }
    }
    r
}

/// A sorted, deduplicated batch of Deletes under pseudo-random keys drawn
/// from the seeded generator.
pub fn make_del_batch_rand(size: u64, seed: u64) -> (b: Batch)
    requires
        size <= usize::MAX,
    ensures
        sorted_batch(b@),
        uniq_batch(b@),
        all_dels(b@),
        b@.len() <= size,
        size >= 1 ==> b@.len() >= 1,
        forall|i: int| 0 <= i < b@.len() ==> entry_key(#[trigger] b@[i]).len() == 8,
{
    let mut rng = seeded_rng(seed);
    let mut batch: Batch = Vec::new();
    let mut k: u64 = 0;
    while k < size
        invariant
            k <= size,
            batch@.len() == k,
            forall|q: int|
                0 <= q < batch@.len() ==> entry_key(#[trigger] batch@[q]).len() == 8 && batch@[
                    q
                ].1 is Delete,
        decreases size - k,
    {
        let n = next_random_u64(&mut rng);
        batch.push(del_entry(n));
        k = k + 1;
    }
    let ghost b0 = batch@;
    sort_batch(&mut batch);
    let ghost b1 = batch@;
    proof {
        assert forall|q: int|
            0 <= q < b1.len() implies entry_key(#[trigger] b1[q]).len() == 8 && b1[q].1
            is Delete by {
            let p = choose|p: int| 0 <= p < b0.len() && b1[q] == b0[p];
        }
    }
    let r = dedup_sorted(batch);
    proof {
        assert forall|i: int|
            0 <= i < r@.len() implies entry_key(#[trigger] r@[i]).len() == 8 && r@[i].1
            is Delete by {
            let p = choose|p: int|
                0 <= p < b1.len() && entry_key(#[trigger] r@[i]) == entry_key(b1[p]) && op_like(
                    r@[i].1,
                    b1[p].1,
                );
        }
    }
    r
}

/// A fresh byte string of the given length filled with random bytes.
pub fn random_value(size: usize) -> (v: Vec<u8>)
    ensures
        v@.len() == size,
{
    let mut rng = entropy_rng();
    let mut v: Vec<u8> = Vec::new();
    let mut i: usize = 0;
    while i < size
        invariant
            v@.len() == i,
            i <= size,
        decreases size - i,
    {
        v.push(0);
        i = i + 1;
    }
    fill_random_bytes(&mut rng, &mut v);
    v
}

/// A sorted batch mixing inserts under fresh random keys with updates and
/// deletes of keys drawn from the given tree. Keys may repeat; callers that
/// need a deduplicated batch must thin it first.
pub fn make_mixed_batch_rand(maybe_tree: Option<&Tree>, size: u64) -> (b: Batch)
    requires
        size <= usize::MAX,
        maybe_tree matches Some(t) ==> t.resident() && t.spec_size() <= usize::MAX,
    ensures
        sorted_batch(b@),
        b@.len() == size,
        maybe_tree is None ==> all_puts(b@) && (forall|i: int|
            0 <= i < b@.len() ==> entry_key(#[trigger] b@[i]).len() == 2),
        forall|i: int|
            0 <= i < b@.len() ==> ((#[trigger] b@[i]).1 matches Op::Put(v) ==> v@.len() == 2),
        maybe_tree matches Some(t) ==> (forall|i: int|
            0 <= i < b@.len() ==> (((#[trigger] b@[i]).1 is Delete ==> t.contents().dom()
                .contains(entry_key(b@[i]))) && (b@[i].1 is Put ==> entry_key(b@[i]).len() == 2
                || t.contents().dom().contains(entry_key(b@[i]))))),
{
    let ghost tc = match maybe_tree {
        Some(t) => t.contents(),
        None => Map::<Seq<u8>, Seq<u8>>::empty(),
    };
    let mut rng = entropy_rng();
    let keys: Option<Vec<Vec<u8>>> = match maybe_tree {
        Some(t) => Some(t.keys_in_order()),
        None => None,
    };
    let mut batch: Batch = Vec::new();
    let mut k: u64 = 0;
    while k < size
        invariant
            k <= size,
            batch@.len() == k,
            keys matches Some(kv) ==> kv@.len() > 0 && (forall|q: int|
                0 <= q < kv@.len() ==> tc.dom().contains((#[trigger] kv@[q])@)),
            keys is Some == maybe_tree is Some,
            forall|q: int|
                0 <= q < batch@.len() ==> (((#[trigger] batch@[q]).1 matches Op::Put(v) ==> v@
                    .len() == 2) && (batch@[q].1 is Delete ==> tc.dom().contains(entry_key(
                    batch@[q]))) && (batch@[q].1 is Put ==> entry_key(batch@[q]).len() == 2
                    || tc.dom().contains(entry_key(batch@[q])))),
            maybe_tree is None ==> (forall|q: int|
                0 <= q < batch@.len() ==> (#[trigger] batch@[q]).1 is Put && entry_key(
                    batch@[q]).len() == 2),
        decreases size - k,
    {
        let e: BatchEntry = match &keys {
            Some(kv) => {
                let kind = next_entropy_u64(&mut rng) % 3;
                if kind == 0 {
                    (random_value(2), Op::Put(random_value(2)))
                } else {
                    let idx = (next_entropy_u64(&mut rng) % (kv.len() as u64)) as usize;
                    let key = copy_bytes(&kv[idx]);
                    if kind == 1 {
                        (key, Op::Put(random_value(2)))
                    } else {
                        (key, Op::Delete)
                    }
                }
            },
            None => (random_value(2), Op::Put(random_value(2))),
        };
        batch.push(e);
        k = k + 1;
    }
    let ghost b0 = batch@;
    sort_batch(&mut batch);
    proof {
        assert forall|q: int|
            0 <= q < batch@.len() implies (((#[trigger] batch@[q]).1 matches Op::Put(v) ==> v@
            .len() == 2) && (batch@[q].1 is Delete ==> tc.dom().contains(entry_key(batch@[q])))
            && (batch@[q].1 is Put ==> entry_key(batch@[q]).len() == 2 || tc.dom().contains(
            entry_key(batch@[q]))) && (maybe_tree is None ==> batch@[q].1 is Put && entry_key(
            batch@[q]).len() == 2)) by {
            let p = choose|p: int| 0 <= p < b0.len() && batch@[q] == b0[p];
        }
    }
    batch
}

/// The 20-byte all-zero key the tree builders start from.
pub open spec fn base_key() -> Seq<u8> {
    Seq::new(20, |i: int| 0u8)
}

fn make_base_key() -> (v: Vec<u8>)
    ensures
        v@ == base_key(),
{
    let mut v: Vec<u8> = Vec::new();
    let mut i: usize = 0;
    while i < 20
        invariant
            i <= 20,
            v@ =~= Seq::new(i as nat, |q: int| 0u8),
        decreases 20 - i,
    {
        v.push(0);
        i = i + 1;
        proof {
            assert(v@ =~= Seq::new(i as nat, |q: int| 0u8));
        }
    }
    proof {
        assert(v@ =~= base_key());
    }
    v
}


/// A well-formed tree is ready for a batch of Puts: nothing is deleted, and
/// the result cannot be empty.
proof fn lemma_put_batch_ready(t: Tree, bs: Seq<BatchEntry>)
    requires
        t.wf(),
        all_puts(bs),
    ensures
        dels_of(bs).subset_of(t.contents().dom()),
        apply_map(t.contents(), bs) != Map::<Seq<u8>, Seq<u8>>::empty(),
{
    lemma_uniform_batch(bs);
    lemma_contents_size(t);
    assert(apply_map(t.contents(), bs).dom().contains(t.key@));
}

/// One more batch stays within the planned total.
proof fn lemma_step_bound(i: u64, count: u64, bsz: u64, total: u64)
    requires
        i < count,
        count * bsz == total,
        bsz >= 1,
    ensures
        (i + 1) * bsz <= total,
        i * bsz + bsz == (i + 1) * bsz,
{
    assert((i + 1) * bsz <= count * bsz) by (nonlinear_arith)
        requires
            i + 1 <= count,
            bsz >= 1,
    ;
    assert(i * bsz + bsz == (i + 1) * bsz) by (nonlinear_arith);
}

/// The keys of the tree built from `n` sequential entries: the base key,
/// and the big-endian key of every integer below `n`.
pub open spec fn seq_tree_dom(n: nat) -> Set<Seq<u8>> {
    Set::new(
        |k: Seq<u8>| k == base_key() || (exists|j: u64| j < n && k == be_bytes_of(j)),
    )
}

/// What one sequential Put batch writes: the fixed payload under exactly
/// the big-endian keys of its range.
proof fn lemma_seq_batch_puts(bs: Seq<BatchEntry>, lo: u64, hi: u64)
    requires
        lo <= hi,
        bs.len() == hi - lo,
        forall|i: int|
            0 <= i < bs.len() ==> entry_key(#[trigger] bs[i]) == be_bytes_of((lo + i) as u64),
        forall|i: int|
            0 <= i < bs.len() ==> ((#[trigger] bs[i]).1 matches Op::Put(v) && v@
                == seq_value()),
        uniq_batch(bs),
    ensures
        forall|k: Seq<u8>|
            #[trigger] puts_of(bs).dom().contains(k) <==> (exists|j: u64|
                lo <= j < hi && k == be_bytes_of(j)),
        forall|k: Seq<u8>| puts_of(bs).dom().contains(k) ==> puts_of(bs)[k] == seq_value(),
{
    lemma_batch_keys(bs);
    lemma_payload_puts(bs);
    assert forall|k: Seq<u8>| #[trigger] puts_of(bs).dom().contains(k) implies (exists|j: u64|
        lo <= j < hi && k == be_bytes_of(j)) by {
        let i = choose|i: int|
            0 <= i < bs.len() && entry_key(#[trigger] bs[i]) == k && bs[i].1 is Put;
        assert(lo <= ((lo + i) as u64) && ((lo + i) as u64) < hi && k == be_bytes_of((lo + i) as u64));
    }
    assert forall|k: Seq<u8>| (exists|j: u64| lo <= j < hi && k == be_bytes_of(j)) implies
        #[trigger] puts_of(bs).dom().contains(k) by {
        let j = choose|j: u64| lo <= j < hi && k == be_bytes_of(j);
        assert(entry_key(bs[j - lo]) == k);
        assert(bs[j - lo].1 is Put);
    }
}

/// A committed tree grown by applying seeded random Put batches to a
/// single-entry tree.
#[verifier::rlimit(100)]
#[verifier::spinoff_prover]
pub fn make_tree_rand(node_count: u64, batch_size: u64, initial_seed: u64) -> (t: Tree)
    requires
        1 <= batch_size <= usize::MAX,
        node_count >= batch_size,
        node_count % batch_size == 0,
        node_count <= 0x7fffffffffffffff,
    ensures
        t.wf(),
        t.hash_inv(),
        t.resident(),
        t.clean(),
        t.contents().dom().contains(base_key()),
        t.contents()[base_key()] == seq_value(),
        forall|k: Seq<u8>| t.contents().dom().contains(k) ==> t.contents()[k] == seq_value(),
        forall|k: Seq<u8>|
            t.contents().dom().contains(k) && k != base_key() ==> k.len() == 8,
        2 <= t.spec_size() <= node_count + 1,
{
    broadcast use vstd::set::axiom_set_insert_len;

    let mut tree = Tree::new(make_base_key(), make_value());
    let ghost pre = tree;
    let cr = tree.commit(&mut NoopCommit {  });
    match cr {
        Ok(()) => {},
        Err(_) => vstd::pervasive::unreached(),
    }
    let mut seed = initial_seed;
    let batch_count = node_count / batch_size;
    proof {
        lemma_skeleton_congruence(tree, pre);
        vstd::arithmetic::div_mod::lemma_fundamental_div_mod(
            node_count as int,
            batch_size as int,
        );
        assert(batch_count * batch_size == batch_size * batch_count) by (nonlinear_arith);
        assert(batch_count >= 1) by (nonlinear_arith)
            requires
                batch_count * batch_size == node_count,
                node_count >= batch_size,
                batch_size >= 1,
        ;
    }
    let mut i: u64 = 0;
    while i < batch_count
        invariant
            i <= batch_count,
            batch_count * batch_size == node_count,
            1 <= batch_size <= usize::MAX,
            node_count <= 0x7fffffffffffffff,
            tree.wf(),
            tree.hash_inv(),
            tree.resident(),
            tree.clean(),
            tree.spec_size() <= 1 + i * batch_size,
            i >= 1 ==> tree.spec_size() >= 2,
            tree.contents().dom().contains(base_key()),
            forall|k: Seq<u8>|
                tree.contents().dom().contains(k) ==> tree.contents()[k] == seq_value(),
            forall|k: Seq<u8>|
                tree.contents().dom().contains(k) && k != base_key() ==> k.len() == 8,
        decreases batch_count - i,
    {
        let batch = make_batch_rand(batch_size, seed);
        let ghost tprev = tree;
        proof {
            lemma_put_batch_ready(tree, batch@);
            lemma_step_bound(i, batch_count, batch_size, node_count);
            lemma_uniform_batch(batch@);
            lemma_payload_puts(batch@);
            lemma_puts_key_shape(batch@, 8);
            lemma_batch_keys(batch@);
        }
        tree = apply_memonly(tree, &batch);
        proof {
            assert(tree.contents().dom().contains(base_key()));
            assert forall|k: Seq<u8>|
                tree.contents().dom().contains(k) implies tree.contents()[k]
                == seq_value() by {
                if !puts_of(batch@).dom().contains(k) {
                    assert(tree.contents()[k] == tprev.contents()[k]);
                }
            }
            assert forall|k: Seq<u8>|
                tree.contents().dom().contains(k) && k != base_key() implies k.len() == 8 by {
                if !puts_of(batch@).dom().contains(k) {
                    assert(tprev.contents().dom().contains(k));
                }
            }
            // the batch put at least one 8-byte key, distinct from the base
            let k0 = entry_key(batch@[0]);
            assert(puts_of(batch@).dom().contains(k0));
            assert(tree.contents().dom().contains(k0));
            assert(k0.len() == 8 && base_key().len() == 20);
            let two = Set::<Seq<u8>>::empty().insert(base_key()).insert(k0);
            assert(two.len() == 2);
            lemma_contents_size(tree);
            vstd::set_lib::lemma_len_subset(two, tree.contents().dom());
        }
        seed = seed.wrapping_add(1);
        i = i + 1;
    }
    tree
}

/// A committed tree grown by applying sequential-key Put batches to a
/// single-entry tree.
#[verifier::rlimit(100)]
#[verifier::spinoff_prover]
pub fn make_tree_seq(node_count: u64) -> (t: Tree)
    requires
        1 <= node_count <= 0x7fffffffffffffff,
        node_count >= 10000 ==> node_count % 10000 == 0,
    ensures
        t.wf(),
        t.hash_inv(),
        t.resident(),
        t.clean(),
        t.contents().dom() == seq_tree_dom(node_count as nat),
        forall|k: Seq<u8>| t.contents().dom().contains(k) ==> t.contents()[k] == seq_value(),
        t.spec_size() == node_count + 1,
{
    let batch_size: u64 = if node_count >= 10000 {
        10000
    } else {
        node_count
    };
    let mut tree = Tree::new(make_base_key(), make_value());
    let ghost pre = tree;
    let cr = tree.commit(&mut NoopCommit {  });
    match cr {
        Ok(()) => {},
        Err(_) => vstd::pervasive::unreached(),
    }
    let batch_count = node_count / batch_size;
    proof {
        lemma_skeleton_congruence(tree, pre);
        vstd::arithmetic::div_mod::lemma_fundamental_div_mod(
            node_count as int,
            batch_size as int,
        );
        assert(batch_count * batch_size == batch_size * batch_count) by (nonlinear_arith);
        assert(tree.contents().dom() =~= seq_tree_dom(0));
    }
    let mut i: u64 = 0;
    while i < batch_count
        invariant
            i <= batch_count,
            batch_count * batch_size == node_count,
            1 <= batch_size <= usize::MAX,
            batch_size <= node_count <= 0x7fffffffffffffff,
            tree.wf(),
            tree.hash_inv(),
            tree.resident(),
            tree.clean(),
            tree.spec_size() == 1 + i * batch_size,
            tree.contents().dom() == seq_tree_dom((i * batch_size) as nat),
            forall|k: Seq<u8>|
                tree.contents().dom().contains(k) ==> tree.contents()[k] == seq_value(),
        decreases batch_count - i,
    {
        proof {
            lemma_step_bound(i, batch_count, batch_size, node_count);
        }
        let lo = i * batch_size;
        let hi = (i + 1) * batch_size;
        let batch = make_batch_seq(lo..hi);
        let ghost tprev = tree;
        proof {
            lemma_put_batch_ready(tree, batch@);
            lemma_uniform_batch(batch@);
            lemma_seq_batch_puts(batch@, lo, hi);
            assert forall|q: int|
                0 <= q < batch@.len() implies !tprev.contents().dom().contains(
                entry_key(#[trigger] batch@[q]),
            ) by {
                let kk = entry_key(batch@[q]);
                if tprev.contents().dom().contains(kk) {
                    assert(kk.len() == 8);
                    assert(kk != base_key());
                    let j2 = choose|j2: u64| j2 < lo && kk == be_bytes_of(j2);
                    lemma_be_injective(j2, (lo + q) as u64);
                }
            }
        }
        tree = apply_memonly(tree, &batch);
        proof {
            lemma_size_law(tprev, tree, batch@);
            assert(tree.contents().dom() =~= seq_tree_dom(hi as nat)) by {
                assert forall|k: Seq<u8>|
                    tree.contents().dom().contains(k) implies seq_tree_dom(
                    hi as nat,
                ).contains(k) by {
                    if puts_of(batch@).dom().contains(k) {
                        let j = choose|j: u64| lo <= j < hi && k == be_bytes_of(j);
                        assert(j < hi && k == be_bytes_of(j));
                    } else {
                        assert(tprev.contents().dom().contains(k));
                        if k != base_key() {
                            let j = choose|j: u64| j < lo && k == be_bytes_of(j);
                            assert(j < hi && k == be_bytes_of(j));
                        }
                    }
                }
                assert forall|k: Seq<u8>|
                    seq_tree_dom(hi as nat).contains(k) implies tree.contents().dom().contains(
                    k,
                ) by {
                    if k != base_key() {
                        let j = choose|j: u64| j < hi && k == be_bytes_of(j);
                        if j < lo {
                            assert(tprev.contents().dom().contains(k));
                        } else {
                            assert(puts_of(batch@).dom().contains(k));
                        }
                    } else {
                        assert(tprev.contents().dom().contains(k));
                    }
                }
            }
            assert forall|k: Seq<u8>|
                tree.contents().dom().contains(k) implies tree.contents()[k]
                == seq_value() by {
                if !puts_of(batch@).dom().contains(k) {
                    assert(tree.contents()[k] == tprev.contents()[k]);
                }
            }
        }
        i = i + 1;
    }
    tree
}

} // verus!
