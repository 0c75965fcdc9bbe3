//! Batch application: the mutation executor. A sorted batch is partitioned
//! around each node's key, applied recursively, and the tree is rebalanced
//! with AVL rotations as the recursion returns.

use vstd::prelude::*;
use super::node::{
    Op, BatchEntry, Batch, Link, Tree, link_height, link_size, link_contents, link_resident,
    link_wf, link_hash_inv, link_height_exec, lemma_link_height_le_size, lemma_contents_size,
    PrunedRef, has_pruned_ref, link_has_pruned, lemma_resident_no_pruned,
};
use super::source::{ApplyError, Source};
use super::batch::{
    entry_key, sorted_batch, uniq_batch, all_puts, puts_of, dels_of, apply_map, lemma_batch_keys,
    lemma_batch_concat, lemma_apply_partition,
};
use crate::bytes::{
    lex_lt, lex_le, compare_bytes, copy_bytes, KeyOrder, lemma_lex_asym, lemma_lex_trans,
    lemma_lex_connected,
};

verus! {

/// The larger of two heights.
pub open spec fn hmax(a: nat, b: nat) -> nat {
    if a >= b {
        a
    } else {
        b
    }
}

/// Height of the balanced tree built from `n` sorted entries.
pub open spec fn bheight(n: nat) -> nat
    decreases n,
{
    if n == 0 {
        0
    } else {
        1 + bheight(n / 2)
    }
}

proof fn lemma_bheight_mono(a: nat, b: nat)
    requires
        a <= b,
    ensures
        bheight(a) <= bheight(b),
    decreases a,
{
    if a > 0 {
        lemma_bheight_mono(a / 2, b / 2);
    }
}

proof fn lemma_bheight_step(n: nat)
    ensures
        bheight(n) <= bheight((n + 1) as nat) <= bheight(n) + 1,
    decreases n,
{
    lemma_bheight_mono(n, (n + 1) as nat);
    if n > 0 {
        if n % 2 == 1 {
            assert((n + 1) / 2 == n / 2 + 1);
            lemma_bheight_step(n / 2);
        } else {
            assert((n + 1) / 2 == n / 2);
        }
    }
}

/// Find the first entry in `[a, b)` whose key is not below `key`.
fn lower_bound(batch: &Batch, a: usize, b: usize, key: &Vec<u8>) -> (lo: usize)
    requires
        a <= b <= batch@.len(),
        sorted_batch(batch@),
    ensures
        a <= lo <= b,
        forall|q: int| a <= q < lo ==> lex_lt(entry_key(#[trigger] batch@[q]), key@),
        forall|q: int| lo <= q < b ==> lex_le(key@, entry_key(#[trigger] batch@[q])),
{
    let mut lo = a;
    let mut hi = b;
    while lo < hi
        invariant
            a <= lo <= hi <= b <= batch@.len(),
            sorted_batch(batch@),
            forall|q: int| a <= q < lo ==> lex_lt(entry_key(#[trigger] batch@[q]), key@),
            forall|q: int| hi <= q < b ==> lex_le(key@, entry_key(#[trigger] batch@[q])),
        decreases hi - lo,
    {
        let mid = lo + (hi - lo) / 2;
        let c = compare_bytes(&batch[mid].0, key);
        match c {
            KeyOrder::Less => {
                proof {
                    assert forall|q: int| a <= q < mid + 1 implies lex_lt(
                        entry_key(#[trigger] batch@[q]),
                        key@,
                    ) by {
                        if q < mid {
                            if entry_key(batch@[q]) == entry_key(batch@[mid as int]) {
                            } else {
                                lemma_lex_trans(
                                    entry_key(batch@[q]),
                                    entry_key(batch@[mid as int]),
                                    key@,
                                );
                            }
                        }
                    }
                }
                lo = mid + 1;
            },
            _ => {
                proof {
                    lemma_lex_connected(key@, entry_key(batch@[mid as int]));
                    assert forall|q: int| mid <= q < b implies lex_le(
                        key@,
                        entry_key(#[trigger] batch@[q]),
                    ) by {
                        if q > mid {
                            if entry_key(batch@[mid as int]) == key@ {
                            } else {
                                if entry_key(batch@[mid as int]) == entry_key(batch@[q]) {
                                } else {
                                    lemma_lex_trans(
                                        key@,
                                        entry_key(batch@[mid as int]),
                                        entry_key(batch@[q]),
                                    );
                                }
                            }
                        }
                    }
                }
                hi = mid;
            },
        }
    }
    lo
}

/// Assemble a node from parts whose heights differ by at most one; the
/// result is well-formed if the parts are.
fn mk_node(key: Vec<u8>, value: Vec<u8>, left: Option<Link>, right: Option<Link>) -> (t: Tree)
    requires
        link_wf(left),
        link_wf(right),
        link_hash_inv(left),
        link_hash_inv(right),
        forall|k: Seq<u8>| link_contents(left).dom().contains(k) ==> lex_lt(k, key@),
        forall|k: Seq<u8>| link_contents(right).dom().contains(k) ==> lex_lt(key@, k),
        -1 <= link_height(right) - link_height(left) <= 1,
        link_size(left) + link_size(right) + 1 <= u64::MAX,
    ensures
        t.wf(),
        t.hash_inv(),
        t.modified,
        t.key@ == key@,
        t.value@ == value@,
        t.left == left,
        t.right == right,
        t.height == 1 + hmax(link_height(left), link_height(right)),
        t.spec_size() == link_size(left) + link_size(right) + 1,
        t.contents() == link_contents(left).union_prefer_right(link_contents(right)).insert(
            key@,
            value@,
        ),
        t.resident() == (link_resident(left) && link_resident(right)),
    {
    proof {
        lemma_link_height_le_size(left);
        lemma_link_height_le_size(right);
    }
    let hl = link_height_exec(&left);
    let hr = link_height_exec(&right);
    let h = 1 + if hl >= hr {
        hl
    } else {
        hr
    };
    Tree { key, value, hash: 0, height: h, modified: true, left, right }
}

/// Build an already balanced subtree from a range of Put entries: the base
/// case of batch application against an absent subtree. A Delete in the
/// range targets a key that cannot be present.
#[verifier::rlimit(100)]
fn build_from_batch(batch: &Batch, a: usize, b: usize) -> (res: Result<Option<Link>, ApplyError>)
    requires
        a <= b <= batch@.len(),
        sorted_batch(batch@),
        b - a <= u64::MAX - 1,
    ensures
        ({
            let rg = batch@.subrange(a as int, b as int);
            &&& (res matches Ok(ol) ==> {
                &&& link_wf(ol)
                &&& link_hash_inv(ol)
                &&& link_resident(ol)
                &&& uniq_batch(rg)
                &&& all_puts(rg)
                &&& link_contents(ol) == puts_of(rg)
                &&& link_size(ol) == b - a
                &&& link_height(ol) == bheight((b - a) as nat)
                &&& (forall|p: PrunedRef| !link_has_pruned(ol, p))
                &&& (b - a > 0 ==> (ol matches Some(Link::Resident(n)) && n.modified))
            })
            &&& (res matches Err(e) ==> {
                &&& !(uniq_batch(rg) && all_puts(rg))
                &&& (e is DuplicateKey ==> !uniq_batch(rg))
                &&& (e is DeleteOnEmpty ==> !all_puts(rg))
                &&& !(e is Fetch)
            })
        }),
    decreases b - a,
{
    let ghost rg = batch@.subrange(a as int, b as int);
    if a == b {
        proof {
            assert(link_contents(None::<Link>) =~= puts_of(rg));
        }
        return Ok(None);
    }
    let mid = a + (b - a) / 2;
    let ghost n = (b - a) as nat;
    let ghost lc = (mid - a) as nat;
    let ghost rc = (b - mid - 1) as nat;
    match &batch[mid].1 {
        Op::Delete => {
            proof {
                assert(rg[mid - a] == batch@[mid as int]);
                assert(!all_puts(rg));
            }
            return Err(ApplyError::DeleteOnEmpty);
        },
        Op::Put(v) => {
            if mid > a {
                match compare_bytes(&batch[mid - 1].0, &batch[mid].0) {
                    KeyOrder::Equal => {
                        proof {
                            assert(rg[mid - a - 1] == batch@[mid - 1]);
                            assert(rg[mid - a] == batch@[mid as int]);
                            assert(entry_key(rg[mid - a - 1]) == entry_key(rg[mid - a]));
                            assert(!uniq_batch(rg));
                        }
                        return Err(ApplyError::DuplicateKey);
                    },
                    _ => {},
                }
            }
            if mid + 1 < b {
                match compare_bytes(&batch[mid].0, &batch[mid + 1].0) {
                    KeyOrder::Equal => {
                        proof {
                            assert(rg[mid - a] == batch@[mid as int]);
                            assert(rg[mid + 1 - a] == batch@[mid + 1]);
                            assert(!uniq_batch(rg));
                        }
                        return Err(ApplyError::DuplicateKey);
                    },
                    _ => {},
                }
            }
            let ghost rgl = batch@.subrange(a as int, mid as int);
            let ghost rgr = batch@.subrange(mid + 1, b as int);
            let lres = match build_from_batch(batch, a, mid) {
                Ok(ol) => ol,
                Err(e) => {
                    proof {
                        lemma_sub_of_sub(batch@, a as int, mid as int, b as int);
                    }
                    return Err(e);
                },
            };
            let rres = match build_from_batch(batch, mid + 1, b) {
                Ok(ol) => ol,
                Err(e) => {
                    proof {
                        lemma_sub_of_sub_hi(batch@, a as int, mid + 1, b as int);
                    }
                    return Err(e);
                },
            };
            let key = copy_bytes(&batch[mid].0);
            let value = copy_bytes(v);
            proof {
                let tk = entry_key(batch@[mid as int]);
                lemma_mid_bounds(batch@, a as int, mid as int, b as int);
                assert forall|q: int| 0 <= q < rgl.len() implies lex_lt(
                    entry_key(#[trigger] rgl[q]),
                    tk,
                ) by {
                    assert(rgl[q] == batch@[a + q]);
                }
                assert forall|q: int| 0 <= q < rgr.len() implies lex_lt(
                    tk,
                    entry_key(#[trigger] rgr[q]),
                ) by {
                    assert(rgr[q] == batch@[mid + 1 + q]);
                }
                lemma_keys_below(rgl, tk);
                lemma_keys_above(rgr, tk);
                // the two halves differ in count by at most one, so the
                // built heights differ by at most one
                assert(lc == n / 2 && rc + 1 + lc == n);
                lemma_bheight_mono(rc, lc);
                lemma_bheight_step(rc);
                assert(lc <= rc + 1);
                if lc == rc + 1 {
                    assert(bheight(lc) <= bheight(rc) + 1);
                } else {
                    assert(lc == rc || lc + 1 == rc + 1);
                    lemma_bheight_mono(lc, rc);
                }
            }
            let node = mk_node(key, value, lres, rres);
            proof {
                lemma_bheight_mono(rc, lc);
                assert(bheight(n) == 1 + bheight(n / 2));
                assert(hmax(bheight(lc), bheight(rc)) == bheight(lc));
                lemma_build_combine(batch@, a as int, mid as int, b as int, node);
            }
            proof {
                lemma_resident_no_pruned(Some(Link::Resident(Box::new(node))));
            }
            Ok(Some(Link::Resident(Box::new(node))))
        },
    }
}

/// A subrange of a subrange taken from the left end.
proof fn lemma_sub_of_sub(s: Seq<BatchEntry>, a: int, m: int, b: int)
    requires
        0 <= a <= m <= b <= s.len(),
    ensures
        s.subrange(a, m) == s.subrange(a, b).subrange(0, m - a),
        uniq_batch(s.subrange(a, b)) ==> uniq_batch(s.subrange(a, m)),
        all_puts(s.subrange(a, b)) ==> all_puts(s.subrange(a, m)),
{
    assert(s.subrange(a, m) =~= s.subrange(a, b).subrange(0, m - a));
    let rg = s.subrange(a, b);
    let sub = s.subrange(a, m);
    if uniq_batch(rg) {
        assert forall|i: int, j: int| 0 <= i < j < sub.len() implies entry_key(
            #[trigger] sub[i],
        ) != entry_key(#[trigger] sub[j]) by {
            assert(sub[i] == rg[i]);
            assert(sub[j] == rg[j]);
        }
    }
    if all_puts(rg) {
        assert forall|i: int| 0 <= i < sub.len() implies (#[trigger] sub[i]).1 is Put by {
            assert(sub[i] == rg[i]);
        }
    }
}

/// A subrange of a subrange taken from the right end.
proof fn lemma_sub_of_sub_hi(s: Seq<BatchEntry>, a: int, m: int, b: int)
    requires
        0 <= a <= m <= b <= s.len(),
    ensures
        s.subrange(m, b) == s.subrange(a, b).subrange(m - a, b - a),
        uniq_batch(s.subrange(a, b)) ==> uniq_batch(s.subrange(m, b)),
        all_puts(s.subrange(a, b)) ==> all_puts(s.subrange(m, b)),
{
    assert(s.subrange(m, b) =~= s.subrange(a, b).subrange(m - a, b - a));
    let rg = s.subrange(a, b);
    let sub = s.subrange(m, b);
    if uniq_batch(rg) {
        assert forall|i: int, j: int| 0 <= i < j < sub.len() implies entry_key(
            #[trigger] sub[i],
        ) != entry_key(#[trigger] sub[j]) by {
            assert(sub[i] == rg[m - a + i]);
            assert(sub[j] == rg[m - a + j]);
        }
    }
    if all_puts(rg) {
        assert forall|i: int| 0 <= i < sub.len() implies (#[trigger] sub[i]).1 is Put by {
            assert(sub[i] == rg[m - a + i]);
        }
    }
}

/// Keys written or deleted by entries all below `tk` lie below `tk`.
proof fn lemma_keys_below(bs: Seq<BatchEntry>, tk: Seq<u8>)
    requires
        forall|q: int| 0 <= q < bs.len() ==> lex_lt(entry_key(#[trigger] bs[q]), tk),
    ensures
        forall|k: Seq<u8>| puts_of(bs).dom().contains(k) ==> lex_lt(k, tk),
        forall|k: Seq<u8>| dels_of(bs).contains(k) ==> lex_lt(k, tk),
{
    lemma_batch_keys(bs);
    assert forall|k: Seq<u8>| puts_of(bs).dom().contains(k) implies lex_lt(k, tk) by {
        let q = choose|q: int|
            0 <= q < bs.len() && entry_key(#[trigger] bs[q]) == k && bs[q].1 is Put;
    }
    assert forall|k: Seq<u8>| dels_of(bs).contains(k) implies lex_lt(k, tk) by {
        let q = choose|q: int|
            0 <= q < bs.len() && entry_key(#[trigger] bs[q]) == k && bs[q].1 is Delete;
    }
}

/// Keys written or deleted by entries all above `tk` lie above `tk`.
proof fn lemma_keys_above(bs: Seq<BatchEntry>, tk: Seq<u8>)
    requires
        forall|q: int| 0 <= q < bs.len() ==> lex_lt(tk, entry_key(#[trigger] bs[q])),
    ensures
        forall|k: Seq<u8>| puts_of(bs).dom().contains(k) ==> lex_lt(tk, k),
        forall|k: Seq<u8>| dels_of(bs).contains(k) ==> lex_lt(tk, k),
{
    lemma_batch_keys(bs);
    assert forall|k: Seq<u8>| puts_of(bs).dom().contains(k) implies lex_lt(tk, k) by {
        let q = choose|q: int|
            0 <= q < bs.len() && entry_key(#[trigger] bs[q]) == k && bs[q].1 is Put;
    }
    assert forall|k: Seq<u8>| dels_of(bs).contains(k) implies lex_lt(tk, k) by {
        let q = choose|q: int|
            0 <= q < bs.len() && entry_key(#[trigger] bs[q]) == k && bs[q].1 is Delete;
    }
}

/// In a sorted range, a middle entry distinct from both neighbours splits
/// the range strictly: every earlier key is below it, every later one above.
proof fn lemma_mid_bounds(bs: Seq<BatchEntry>, a: int, mid: int, b: int)
    requires
        0 <= a <= mid < b <= bs.len(),
        sorted_batch(bs),
        mid > a ==> entry_key(bs[mid - 1]) != entry_key(bs[mid]),
        mid + 1 < b ==> entry_key(bs[mid]) != entry_key(bs[mid + 1]),
    ensures
        forall|q: int| a <= q < mid ==> lex_lt(entry_key(#[trigger] bs[q]), entry_key(bs[mid])),
        forall|q: int| mid < q < b ==> lex_lt(entry_key(bs[mid]), entry_key(#[trigger] bs[q])),
{
    let tk = entry_key(bs[mid]);
    assert forall|q: int| a <= q < mid implies lex_lt(entry_key(#[trigger] bs[q]), tk) by {
        lemma_lex_connected(entry_key(bs[q]), entry_key(bs[mid - 1]));
        lemma_lex_connected(entry_key(bs[mid - 1]), tk);
        if entry_key(bs[mid - 1]) != tk {
            if q < mid - 1 {
                if entry_key(bs[q]) != entry_key(bs[mid - 1]) {
                    lemma_lex_trans(entry_key(bs[q]), entry_key(bs[mid - 1]), tk);
                }
            }
        }
    }
    assert forall|q: int| mid < q < b implies lex_lt(tk, entry_key(#[trigger] bs[q])) by {
        lemma_lex_connected(tk, entry_key(bs[mid + 1]));
        if entry_key(bs[mid + 1]) != tk {
            if q > mid + 1 {
                if entry_key(bs[q]) != entry_key(bs[mid + 1]) {
                    lemma_lex_trans(tk, entry_key(bs[mid + 1]), entry_key(bs[q]));
                }
            }
        }
    }
}

/// A node built from two halves of Put entries and the middle Put
/// represents exactly the puts of the whole range, whose keys are unique.
#[verifier::rlimit(100)]
proof fn lemma_build_combine(bs: Seq<BatchEntry>, a: int, mid: int, b: int, node: Tree)
    requires
        0 <= a <= mid < b <= bs.len(),
        bs[mid].1 is Put,
        node.key@ == entry_key(bs[mid]),
        bs[mid].1 matches Op::Put(v) ==> node.value@ == v@,
        forall|q: int| a <= q < mid ==> lex_lt(entry_key(#[trigger] bs[q]), entry_key(bs[mid])),
        forall|q: int| mid < q < b ==> lex_lt(entry_key(bs[mid]), entry_key(#[trigger] bs[q])),
        uniq_batch(bs.subrange(a, mid)),
        all_puts(bs.subrange(a, mid)),
        uniq_batch(bs.subrange(mid + 1, b)),
        all_puts(bs.subrange(mid + 1, b)),
        link_contents(node.left) == puts_of(bs.subrange(a, mid)),
        link_contents(node.right) == puts_of(bs.subrange(mid + 1, b)),
    ensures
        uniq_batch(bs.subrange(a, b)),
        all_puts(bs.subrange(a, b)),
        node.contents() == puts_of(bs.subrange(a, b)),
{
    let rg = bs.subrange(a, b);
    let rgl = bs.subrange(a, mid);
    let rgr = bs.subrange(mid + 1, b);
    let tk = entry_key(bs[mid]);
    let tv = node.value@;
    assert(rg =~= rgl + seq![bs[mid]] + rgr);
    lemma_batch_concat(rgl + seq![bs[mid]], rgr);
    lemma_batch_concat(rgl, seq![bs[mid]]);
    assert(seq![bs[mid]].drop_last() =~= Seq::<BatchEntry>::empty());
    assert(puts_of(Seq::<BatchEntry>::empty()) =~= Map::<Seq<u8>, Seq<u8>>::empty());
    assert(seq![bs[mid]].last() == bs[mid]);
    assert(puts_of(seq![bs[mid]].drop_last()) == puts_of(Seq::<BatchEntry>::empty()));
    assert(puts_of(seq![bs[mid]]) =~= Map::<Seq<u8>, Seq<u8>>::empty().insert(tk, tv));
    assert forall|q: int| 0 <= q < rgl.len() implies lex_lt(entry_key(#[trigger] rgl[q]), tk) by {
        assert(rgl[q] == bs[a + q]);
    }
    assert forall|q: int| 0 <= q < rgr.len() implies lex_lt(tk, entry_key(#[trigger] rgr[q])) by {
        assert(rgr[q] == bs[mid + 1 + q]);
    }
    lemma_keys_below(rgl, tk);
    lemma_keys_above(rgr, tk);
    assert forall|i: int, j: int| 0 <= i < j < rg.len() implies entry_key(
        #[trigger] rg[i],
    ) != entry_key(#[trigger] rg[j]) by {
        assert(rg[i] == bs[a + i]);
        assert(rg[j] == bs[a + j]);
        if i < mid - a && j < mid - a {
            assert(rgl[i] == bs[a + i]);
            assert(rgl[j] == bs[a + j]);
        } else if i > mid - a && j > mid - a {
            assert(rgr[i - (mid - a) - 1] == bs[a + i]);
            assert(rgr[j - (mid - a) - 1] == bs[a + j]);
        } else {
            if a + i < mid {
                lemma_lex_asym(entry_key(bs[a + i]), tk);
                if a + j > mid {
                    lemma_lex_trans(entry_key(bs[a + i]), tk, entry_key(bs[a + j]));
                    lemma_lex_asym(entry_key(bs[a + i]), entry_key(bs[a + j]));
                }
            } else {
                lemma_lex_asym(tk, entry_key(bs[a + j]));
            }
        }
    }
    assert forall|i: int| 0 <= i < rg.len() implies (#[trigger] rg[i]).1 is Put by {
        assert(rg[i] == bs[a + i]);
        if i < mid - a {
            assert(rgl[i] == bs[a + i]);
        } else if i > mid - a {
            assert(rgr[i - (mid - a) - 1] == bs[a + i]);
        }
    }
    assert forall|k: Seq<u8>|
        #[trigger] node.contents().dom().contains(k) == puts_of(rg).dom().contains(k) && (
        node.contents().dom().contains(k) ==> node.contents()[k] == puts_of(rg)[k]) by {
        lemma_lex_connected(k, tk);
        lemma_lex_asym(k, tk);
        lemma_lex_asym(tk, k);
    }
    assert(node.contents() =~= puts_of(rg));
}

/// Totality and asymmetry of the key order, bundled for pointwise proofs.
proof fn lemma_key_facts(k: Seq<u8>, p: Seq<u8>)
    ensures
        lex_lt(k, p) || lex_lt(p, k) || k == p,
        !(lex_lt(k, p) && lex_lt(p, k)),
        k == p ==> !lex_lt(k, p) && !lex_lt(p, k),
{
    lemma_lex_connected(k, p);
    lemma_lex_asym(k, p);
    lemma_lex_asym(p, p);
}

/// Applying entries whose keys are all below `tk` to a map whose keys are
/// all below `tk` gives a map whose keys are all below `tk`; same above.
proof fn lemma_apply_keys_below(c: Map<Seq<u8>, Seq<u8>>, bs: Seq<BatchEntry>, tk: Seq<u8>)
    requires
        forall|k: Seq<u8>| c.dom().contains(k) ==> lex_lt(k, tk),
        forall|q: int| 0 <= q < bs.len() ==> lex_lt(entry_key(#[trigger] bs[q]), tk),
    ensures
        forall|k: Seq<u8>| apply_map(c, bs).dom().contains(k) ==> lex_lt(k, tk),
{
    lemma_keys_below(bs, tk);
    assert forall|k: Seq<u8>| apply_map(c, bs).dom().contains(k) implies lex_lt(k, tk) by {
        if !puts_of(bs).dom().contains(k) {
            assert(c.dom().contains(k));
        }
    }
}

proof fn lemma_apply_keys_above(c: Map<Seq<u8>, Seq<u8>>, bs: Seq<BatchEntry>, tk: Seq<u8>)
    requires
        forall|k: Seq<u8>| c.dom().contains(k) ==> lex_lt(tk, k),
        forall|q: int| 0 <= q < bs.len() ==> lex_lt(tk, entry_key(#[trigger] bs[q])),
    ensures
        forall|k: Seq<u8>| apply_map(c, bs).dom().contains(k) ==> lex_lt(tk, k),
{
    lemma_keys_above(bs, tk);
    assert forall|k: Seq<u8>| apply_map(c, bs).dom().contains(k) implies lex_lt(tk, k) by {
        if !puts_of(bs).dom().contains(k) {
            assert(c.dom().contains(k));
        }
    }
}

/// Two ranges, one strictly below `tk` and one strictly above, with at most
/// the entry at `i` in between, have no repeated keys as a whole if neither
/// half has.
proof fn lemma_uniq_combine(bs: Seq<BatchEntry>, a: int, i: int, j: int, b: int, tk: Seq<u8>)
    requires
        0 <= a <= i <= j <= b <= bs.len(),
        j <= i + 1,
        i < j ==> entry_key(bs[i]) == tk,
        forall|q: int| a <= q < i ==> lex_lt(entry_key(#[trigger] bs[q]), tk),
        forall|q: int| j <= q < b ==> lex_lt(tk, entry_key(#[trigger] bs[q])),
        uniq_batch(bs.subrange(a, i)),
        uniq_batch(bs.subrange(j, b)),
    ensures
        uniq_batch(bs.subrange(a, b)),
{
    let rg = bs.subrange(a, b);
    assert forall|p: int, q: int| 0 <= p < q < rg.len() implies entry_key(
        #[trigger] rg[p],
    ) != entry_key(#[trigger] rg[q]) by {
        assert(rg[p] == bs[a + p]);
        assert(rg[q] == bs[a + q]);
        let pp = a + p;
        let qq = a + q;
        if pp < i && qq < i {
            assert(bs.subrange(a, i)[p] == bs[pp]);
            assert(bs.subrange(a, i)[q] == bs[qq]);
        } else if pp >= j && qq >= j {
            assert(bs.subrange(j, b)[pp - j] == bs[pp]);
            assert(bs.subrange(j, b)[qq - j] == bs[qq]);
        } else if pp < i && qq >= j {
            lemma_lex_trans(entry_key(bs[pp]), tk, entry_key(bs[qq]));
            lemma_lex_asym(entry_key(bs[pp]), entry_key(bs[qq]));
        } else if pp < i {
            lemma_lex_asym(entry_key(bs[pp]), tk);
        } else {
            lemma_lex_asym(tk, entry_key(bs[qq]));
        }
    }
}

/// Resolve a link into an owned subtree: a resident link is unwrapped, a
/// pruned one is fetched through the source.
#[verifier::spinoff_prover]
fn resolve_link<S: Source>(ol: Option<Link>, source: &mut S) -> (res: Result<Tree, ApplyError>)
    requires
        ol is Some,
        link_wf(ol),
        link_hash_inv(ol),
    ensures
        res matches Ok(t) ==> t.wf() && t.hash_inv() && t.height == link_height(ol)
            && t.spec_size() == link_size(ol) && t.contents() == link_contents(ol) && (
        link_resident(ol) ==> t.resident()) && (forall|p: PrunedRef|
            has_pruned_ref(t, p) ==> link_has_pruned(ol, p)),
        res matches Err(e) ==> !link_resident(ol) && e is Fetch,
{
    match ol {
        Some(Link::Resident(t)) => Ok(*t),
        Some(Link::Pruned(p)) => {
            match source.fetch(&p) {
                Ok(t) => {
                    proof {
                        lemma_resident_no_pruned(t.left);
                        lemma_resident_no_pruned(t.right);
                        assert forall|q: PrunedRef| !has_pruned_ref(t, q) by {
                            assert(!link_has_pruned(t.left, q));
                            assert(!link_has_pruned(t.right, q));
                        }
                    }
                    Ok(t)
                },
                Err(e) => Err(ApplyError::Fetch(e)),
            }
        },
        None => vstd::pervasive::unreached(),
    }
}

/// Re-establish the balance bound at a node whose children's heights have
/// come to differ by two, with the standard single or double rotation.
#[verifier::rlimit(100)]
fn fix_right_heavy<S: Source>(
    key: Vec<u8>,
    value: Vec<u8>,
    left: Option<Link>,
    right: Option<Link>,
    source: &mut S,
) -> (res: Result<Tree, ApplyError>)
    requires
        link_wf(left),
        link_wf(right),
        link_hash_inv(left),
        link_hash_inv(right),
        forall|k: Seq<u8>| link_contents(left).dom().contains(k) ==> lex_lt(k, key@),
        forall|k: Seq<u8>| link_contents(right).dom().contains(k) ==> lex_lt(key@, k),
        link_height(right) == link_height(left) + 2,
        link_size(left) + link_size(right) + 1 <= u64::MAX,
    ensures
        res matches Ok(u) ==> u.wf() && u.hash_inv() && u.modified && u.contents()
            == link_contents(left).union_prefer_right(link_contents(right)).insert(key@, value@)
            && u.spec_size() == link_size(left) + link_size(right) + 1 && link_height(right)
            <= u.height <= link_height(right) + 1 && (link_resident(left) && link_resident(
            right,
        ) ==> u.resident()) && (forall|p: PrunedRef|
            has_pruned_ref(u, p) ==> link_has_pruned(left, p) || link_has_pruned(right, p)),
        res matches Err(e) ==> !(link_resident(left) && link_resident(right)) && e is Fetch,
{
    let ghost hl = link_height(left);
    let ghost target = link_contents(left).union_prefer_right(link_contents(right)).insert(
        key@,
        value@,
    );
    let r = match resolve_link(right, source) {
        Ok(t) => t,
        Err(e) => {
            return Err(e);
        },
    };
    let ghost r0 = r;
    proof {
        lemma_contents_size(r0);
    }
    let Tree { key: rk, value: rv, hash: _, height: _, modified: _, left: rl, right: rr } = r;
    let rhl = link_height_exec(&rl);
    let rhr = link_height_exec(&rr);
    proof {
        assert(link_contents(rl) == link_contents(r0.left));
        assert forall|k: Seq<u8>| link_contents(rl).dom().contains(k) implies lex_lt(
            key@,
            k,
        ) by {
            assert(r0.contents().dom().contains(k));
        }
        assert forall|k: Seq<u8>| link_contents(rr).dom().contains(k) implies lex_lt(
            key@,
            k,
        ) by {
            assert(r0.contents().dom().contains(k));
        }
        assert(lex_lt(key@, rk@)) by {
            assert(r0.contents().dom().contains(rk@));
        }
    }
    if rhl <= rhr {
        // single left rotation
        let nl = mk_node(key, value, left, rl);
        proof {
            assert forall|k: Seq<u8>| nl.contents().dom().contains(k) implies lex_lt(
                k,
                rk@,
            ) by {
                lemma_key_facts(k, key@);
                if lex_lt(k, key@) {
                    lemma_lex_trans(k, key@, rk@);
                }
            }
        }
        let u = mk_node(rk, rv, Some(Link::Resident(Box::new(nl))), rr);
        proof {
            assert forall|k: Seq<u8>|
                #[trigger] u.contents().dom().contains(k) == target.dom().contains(k) && (
            u.contents().dom().contains(k) ==> u.contents()[k] == target[k]) by {
                lemma_key_facts(k, key@);
                lemma_key_facts(k, rk@);
            }
            assert(u.contents() =~= target);
            assert forall|p: PrunedRef| has_pruned_ref(u, p) implies link_has_pruned(left, p)
                || link_has_pruned(right, p) by {
                if link_has_pruned(u.left, p) {
                    assert(link_has_pruned(nl.left, p) || link_has_pruned(nl.right, p));
                }
                if link_has_pruned(rl, p) || link_has_pruned(rr, p) {
                    assert(has_pruned_ref(r0, p));
                }
            }
        }
        Ok(u)
    } else {
        // the inner child is taller: double rotation
        let m = match resolve_link(rl, source) {
            Ok(t) => t,
            Err(e) => {
                return Err(e);
            },
        };
        let ghost m0 = m;
        proof {
            lemma_contents_size(m0);
        }
        let Tree { key: mk_, value: mv, hash: _, height: _, modified: _, left: ml, right: mr } =
            m;
        proof {
            assert(lex_lt(key@, mk_@)) by {
                assert(m0.contents().dom().contains(mk_@));
            }
            assert(lex_lt(mk_@, rk@)) by {
                assert(link_contents(r0.left).dom().contains(mk_@));
            }
            assert forall|k: Seq<u8>| link_contents(ml).dom().contains(k) implies lex_lt(
                key@,
                k,
            ) && lex_lt(k, mk_@) by {
                assert(m0.contents().dom().contains(k));
            }
            assert forall|k: Seq<u8>| link_contents(mr).dom().contains(k) implies lex_lt(
                mk_@,
                k,
            ) && lex_lt(k, rk@) by {
                assert(m0.contents().dom().contains(k));
                assert(link_contents(r0.left).dom().contains(k));
            }
            assert forall|k: Seq<u8>| link_contents(rr).dom().contains(k) implies lex_lt(
                mk_@,
                k,
            ) by {
                lemma_lex_trans(mk_@, rk@, k);
            }
        }
        let nl = mk_node(key, value, left, ml);
        proof {
            assert forall|k: Seq<u8>| nl.contents().dom().contains(k) implies lex_lt(
                k,
                mk_@,
            ) by {
                lemma_key_facts(k, key@);
                if lex_lt(k, key@) {
                    lemma_lex_trans(k, key@, mk_@);
                }
            }
        }
        let nr = mk_node(rk, rv, mr, rr);
        proof {
            assert forall|k: Seq<u8>| nr.contents().dom().contains(k) implies lex_lt(
                mk_@,
                k,
            ) by {}
        }
        let u = mk_node(mk_, mv, Some(Link::Resident(Box::new(nl))), Some(
            Link::Resident(Box::new(nr)),
        ));
        proof {
            assert forall|k: Seq<u8>|
                #[trigger] u.contents().dom().contains(k) == target.dom().contains(k) && (
            u.contents().dom().contains(k) ==> u.contents()[k] == target[k]) by {
                lemma_key_facts(k, key@);
                lemma_key_facts(k, rk@);
                lemma_key_facts(k, mk_@);
            }
            assert(u.contents() =~= target);
            assert forall|p: PrunedRef| has_pruned_ref(u, p) implies link_has_pruned(left, p)
                || link_has_pruned(right, p) by {
                if link_has_pruned(u.left, p) {
                    assert(link_has_pruned(nl.left, p) || link_has_pruned(nl.right, p));
                }
                if link_has_pruned(u.right, p) {
                    assert(link_has_pruned(nr.left, p) || link_has_pruned(nr.right, p));
                }
                if link_has_pruned(ml, p) || link_has_pruned(mr, p) {
                    assert(has_pruned_ref(m0, p));
                }
                if link_has_pruned(rl, p) || link_has_pruned(rr, p) {
                    assert(has_pruned_ref(r0, p));
                }
            }
        }
        Ok(u)
    }
}

/// Mirror image of `fix_right_heavy`.
#[verifier::rlimit(100)]
fn fix_left_heavy<S: Source>(
    key: Vec<u8>,
    value: Vec<u8>,
    left: Option<Link>,
    right: Option<Link>,
    source: &mut S,
) -> (res: Result<Tree, ApplyError>)
    requires
        link_wf(left),
        link_wf(right),
        link_hash_inv(left),
        link_hash_inv(right),
        forall|k: Seq<u8>| link_contents(left).dom().contains(k) ==> lex_lt(k, key@),
        forall|k: Seq<u8>| link_contents(right).dom().contains(k) ==> lex_lt(key@, k),
        link_height(left) == link_height(right) + 2,
        link_size(left) + link_size(right) + 1 <= u64::MAX,
    ensures
        res matches Ok(u) ==> u.wf() && u.hash_inv() && u.modified && u.contents()
            == link_contents(left).union_prefer_right(link_contents(right)).insert(key@, value@)
            && u.spec_size() == link_size(left) + link_size(right) + 1 && link_height(left)
            <= u.height <= link_height(left) + 1 && (link_resident(left) && link_resident(
            right,
        ) ==> u.resident()) && (forall|p: PrunedRef|
            has_pruned_ref(u, p) ==> link_has_pruned(left, p) || link_has_pruned(right, p)),
        res matches Err(e) ==> !(link_resident(left) && link_resident(right)) && e is Fetch,
{
    let ghost target = link_contents(left).union_prefer_right(link_contents(right)).insert(
        key@,
        value@,
    );
    let l = match resolve_link(left, source) {
        Ok(t) => t,
        Err(e) => {
            return Err(e);
        },
    };
    let ghost l0 = l;
    proof {
        lemma_contents_size(l0);
    }
    let Tree { key: lk, value: lv, hash: _, height: _, modified: _, left: ll, right: lr } = l;
    let lhl = link_height_exec(&ll);
    let lhr = link_height_exec(&lr);
    proof {
        assert forall|k: Seq<u8>| link_contents(ll).dom().contains(k) implies lex_lt(
            k,
            key@,
        ) by {
            assert(l0.contents().dom().contains(k));
        }
        assert forall|k: Seq<u8>| link_contents(lr).dom().contains(k) implies lex_lt(
            k,
            key@,
        ) by {
            assert(l0.contents().dom().contains(k));
        }
        assert(lex_lt(lk@, key@)) by {
            assert(l0.contents().dom().contains(lk@));
        }
    }
    if lhr <= lhl {
        // single right rotation
        let nr = mk_node(key, value, lr, right);
        proof {
            assert forall|k: Seq<u8>| nr.contents().dom().contains(k) implies lex_lt(
                lk@,
                k,
            ) by {
                lemma_key_facts(k, key@);
                if lex_lt(key@, k) {
                    lemma_lex_trans(lk@, key@, k);
                }
            }
        }
        let u = mk_node(lk, lv, ll, Some(Link::Resident(Box::new(nr))));
        proof {
            assert forall|k: Seq<u8>|
                #[trigger] u.contents().dom().contains(k) == target.dom().contains(k) && (
            u.contents().dom().contains(k) ==> u.contents()[k] == target[k]) by {
                lemma_key_facts(k, key@);
                lemma_key_facts(k, lk@);
            }
            assert(u.contents() =~= target);
            assert forall|p: PrunedRef| has_pruned_ref(u, p) implies link_has_pruned(left, p)
                || link_has_pruned(right, p) by {
                if link_has_pruned(u.right, p) {
                    assert(link_has_pruned(nr.left, p) || link_has_pruned(nr.right, p));
                }
                if link_has_pruned(ll, p) || link_has_pruned(lr, p) {
                    assert(has_pruned_ref(l0, p));
                }
            }
        }
        Ok(u)
    } else {
        let m = match resolve_link(lr, source) {
            Ok(t) => t,
            Err(e) => {
                return Err(e);
            },
        };
        let ghost m0 = m;
        proof {
            lemma_contents_size(m0);
        }
        let Tree { key: mk_, value: mv, hash: _, height: _, modified: _, left: ml, right: mr } =
            m;
        proof {
            assert(lex_lt(mk_@, key@)) by {
                assert(m0.contents().dom().contains(mk_@));
            }
            assert(lex_lt(lk@, mk_@)) by {
                assert(link_contents(l0.right).dom().contains(mk_@));
            }
            assert forall|k: Seq<u8>| link_contents(ml).dom().contains(k) implies lex_lt(
                k,
                mk_@,
            ) && lex_lt(lk@, k) by {
                assert(m0.contents().dom().contains(k));
                assert(link_contents(l0.right).dom().contains(k));
            }
            assert forall|k: Seq<u8>| link_contents(mr).dom().contains(k) implies lex_lt(
                mk_@,
                k,
            ) && lex_lt(k, key@) by {
                assert(m0.contents().dom().contains(k));
            }
            assert forall|k: Seq<u8>| link_contents(ll).dom().contains(k) implies lex_lt(
                k,
                mk_@,
            ) by {
                lemma_lex_trans(k, lk@, mk_@);
            }
        }
        let nl = mk_node(lk, lv, ll, ml);
        proof {
            assert forall|k: Seq<u8>| nl.contents().dom().contains(k) implies lex_lt(
                k,
                mk_@,
            ) by {}
        }
        let nr = mk_node(key, value, mr, right);
        proof {
            assert forall|k: Seq<u8>| nr.contents().dom().contains(k) implies lex_lt(
                mk_@,
                k,
            ) by {
                lemma_key_facts(k, key@);
                if lex_lt(key@, k) {
                    lemma_lex_trans(mk_@, key@, k);
                }
            }
        }
        let u = mk_node(mk_, mv, Some(Link::Resident(Box::new(nl))), Some(
            Link::Resident(Box::new(nr)),
        ));
        proof {
            assert forall|k: Seq<u8>|
                #[trigger] u.contents().dom().contains(k) == target.dom().contains(k) && (
            u.contents().dom().contains(k) ==> u.contents()[k] == target[k]) by {
                lemma_key_facts(k, key@);
                lemma_key_facts(k, lk@);
                lemma_key_facts(k, mk_@);
            }
            assert(u.contents() =~= target);
            assert forall|p: PrunedRef| has_pruned_ref(u, p) implies link_has_pruned(left, p)
                || link_has_pruned(right, p) by {
                if link_has_pruned(u.left, p) {
                    assert(link_has_pruned(nl.left, p) || link_has_pruned(nl.right, p));
                }
                if link_has_pruned(u.right, p) {
                    assert(link_has_pruned(nr.left, p) || link_has_pruned(nr.right, p));
                }
                if link_has_pruned(ml, p) || link_has_pruned(mr, p) {
                    assert(has_pruned_ref(m0, p));
                }
                if link_has_pruned(ll, p) || link_has_pruned(lr, p) {
                    assert(has_pruned_ref(l0, p));
                }
            }
        }
        Ok(u)
    }
}

/// Assemble a node from parts whose heights may differ by up to two,
/// rotating if they differ by exactly two.
#[verifier::rlimit(100)]
fn balance_parts<S: Source>(
    key: Vec<u8>,
    value: Vec<u8>,
    left: Option<Link>,
    right: Option<Link>,
    source: &mut S,
) -> (res: Result<Tree, ApplyError>)
    requires
        link_wf(left),
        link_wf(right),
        link_hash_inv(left),
        link_hash_inv(right),
        forall|k: Seq<u8>| link_contents(left).dom().contains(k) ==> lex_lt(k, key@),
        forall|k: Seq<u8>| link_contents(right).dom().contains(k) ==> lex_lt(key@, k),
        -2 <= link_height(right) - link_height(left) <= 2,
        link_size(left) + link_size(right) + 1 <= u64::MAX,
    ensures
        res matches Ok(u) ==> u.wf() && u.hash_inv() && u.modified && u.contents()
            == link_contents(left).union_prefer_right(link_contents(right)).insert(key@, value@)
            && u.spec_size() == link_size(left) + link_size(right) + 1 && hmax(
            link_height(left),
            link_height(right),
        ) <= u.height <= 1 + hmax(link_height(left), link_height(right)) && (-1 <= link_height(
            right,
        ) - link_height(left) <= 1 ==> u.height == 1 + hmax(link_height(left), link_height(right)))
            && (link_resident(left) && link_resident(right) ==> u.resident()) && (forall|
            p: PrunedRef,
        |
            has_pruned_ref(u, p) ==> link_has_pruned(left, p) || link_has_pruned(right, p)),
        res matches Err(e) ==> !(link_resident(left) && link_resident(right)) && e is Fetch,
{
    proof {
        lemma_link_height_le_size(left);
        lemma_link_height_le_size(right);
    }
    let hl = link_height_exec(&left);
    let hr = link_height_exec(&right);
    if hr <= hl + 1 && hl <= hr + 1 {
        Ok(mk_node(key, value, left, right))
    } else if hr > hl + 1 {
        fix_right_heavy(key, value, left, right, source)
    } else {
        fix_left_heavy(key, value, left, right, source)
    }
}

/// Join two well-separated subtrees below one middle pair, whatever their
/// height difference, descending the taller side and rebalancing on the way
/// back up.
#[verifier::rlimit(100)]
fn join_link<S: Source>(
    l: Option<Link>,
    key: Vec<u8>,
    value: Vec<u8>,
    r: Option<Link>,
    source: &mut S,
) -> (res: Result<Tree, ApplyError>)
    requires
        link_wf(l),
        link_wf(r),
        link_hash_inv(l),
        link_hash_inv(r),
        forall|k: Seq<u8>| link_contents(l).dom().contains(k) ==> lex_lt(k, key@),
        forall|k: Seq<u8>| link_contents(r).dom().contains(k) ==> lex_lt(key@, k),
        link_size(l) + link_size(r) + 1 <= u64::MAX,
    ensures
        res matches Ok(u) ==> u.wf() && u.hash_inv() && u.modified && u.contents()
            == link_contents(l).union_prefer_right(link_contents(r)).insert(key@, value@)
            && u.spec_size() == link_size(l) + link_size(r) + 1 && hmax(
            link_height(l),
            link_height(r),
        ) <= u.height <= 1 + hmax(link_height(l), link_height(r)) && (link_resident(l)
            && link_resident(r) ==> u.resident()) && (forall|p: PrunedRef|
            has_pruned_ref(u, p) ==> link_has_pruned(l, p) || link_has_pruned(r, p)),
        res matches Err(e) ==> !(link_resident(l) && link_resident(r)) && e is Fetch,
    decreases link_height(l) + link_height(r),
{
    let ghost target = link_contents(l).union_prefer_right(link_contents(r)).insert(
        key@,
        value@,
    );
    proof {
        lemma_link_height_le_size(l);
        lemma_link_height_le_size(r);
    }
    let hl = link_height_exec(&l);
    let hr = link_height_exec(&r);
    if hl <= hr + 1 && hr <= hl + 1 {
        return Ok(mk_node(key, value, l, r));
    }
    if hl > hr + 1 {
        let lt_ = match resolve_link(l, source) {
            Ok(t) => t,
            Err(e) => {
                return Err(e);
            },
        };
        let ghost l0 = lt_;
        proof {
            lemma_contents_size(l0);
        }
        let Tree { key: lk, value: lv, hash: _, height: _, modified: _, left: ll, right: lr } =
            lt_;
        proof {
            assert(lex_lt(lk@, key@)) by {
                assert(l0.contents().dom().contains(lk@));
            }
            assert forall|k: Seq<u8>| link_contents(lr).dom().contains(k) implies lex_lt(
                k,
                key@,
            ) by {
                assert(l0.contents().dom().contains(k));
            }
            assert forall|k: Seq<u8>| link_contents(ll).dom().contains(k) implies lex_lt(
                k,
                key@,
            ) by {
                assert(l0.contents().dom().contains(k));
            }
        }
        let inner = match join_link(lr, key, value, r, source) {
            Ok(t) => t,
            Err(e) => {
                return Err(e);
            },
        };
        proof {
            assert forall|k: Seq<u8>| inner.contents().dom().contains(k) implies lex_lt(
                lk@,
                k,
            ) by {
                lemma_key_facts(k, key@);
                if lex_lt(key@, k) {
                    lemma_lex_trans(lk@, key@, k);
                } else if k != key@ {
                    if link_contents(lr).dom().contains(k) {
                    } else {
                        lemma_lex_trans(lk@, key@, k);
                    }
                }
            }
        }
        let u = match balance_parts(
            lk,
            lv,
            ll,
            Some(Link::Resident(Box::new(inner))),
            source,
        ) {
            Ok(t) => t,
            Err(e) => {
                return Err(e);
            },
        };
        proof {
            assert forall|k: Seq<u8>|
                #[trigger] u.contents().dom().contains(k) == target.dom().contains(k) && (
            u.contents().dom().contains(k) ==> u.contents()[k] == target[k]) by {
                lemma_key_facts(k, key@);
                lemma_key_facts(k, l0.key@);
            }
            assert(u.contents() =~= target);
        }
        Ok(u)
    } else {
        let rt = match resolve_link(r, source) {
            Ok(t) => t,
            Err(e) => {
                return Err(e);
            },
        };
        let ghost r0 = rt;
        proof {
            lemma_contents_size(r0);
        }
        let Tree { key: rk, value: rv, hash: _, height: _, modified: _, left: rl, right: rr } =
            rt;
        proof {
            assert(lex_lt(key@, rk@)) by {
                assert(r0.contents().dom().contains(rk@));
            }
            assert forall|k: Seq<u8>| link_contents(rl).dom().contains(k) implies lex_lt(
                key@,
                k,
            ) by {
                assert(r0.contents().dom().contains(k));
            }
            assert forall|k: Seq<u8>| link_contents(rr).dom().contains(k) implies lex_lt(
                key@,
                k,
            ) by {
                assert(r0.contents().dom().contains(k));
            }
        }
        let inner = match join_link(l, key, value, rl, source) {
            Ok(t) => t,
            Err(e) => {
                return Err(e);
            },
        };
        proof {
            assert forall|k: Seq<u8>| inner.contents().dom().contains(k) implies lex_lt(
                k,
                rk@,
            ) by {
                lemma_key_facts(k, key@);
                if lex_lt(k, key@) {
                    lemma_lex_trans(k, key@, rk@);
                } else if k != key@ {
                    if link_contents(rl).dom().contains(k) {
                    } else {
                        lemma_lex_trans(k, key@, rk@);
                    }
                }
            }
        }
        let u = match balance_parts(
            rk,
            rv,
            Some(Link::Resident(Box::new(inner))),
            rr,
            source,
        ) {
            Ok(t) => t,
            Err(e) => {
                return Err(e);
            },
        };
        proof {
            assert forall|k: Seq<u8>|
                #[trigger] u.contents().dom().contains(k) == target.dom().contains(k) && (
            u.contents().dom().contains(k) ==> u.contents()[k] == target[k]) by {
                lemma_key_facts(k, key@);
                lemma_key_facts(k, r0.key@);
            }
            assert(u.contents() =~= target);
        }
        Ok(u)
    }
}

/// Detach the rightmost pair of a subtree, rebalancing on the way up; the
/// subtree's height drops by at most one.
#[verifier::rlimit(100)]
fn remove_rightmost<S: Source>(t: Tree, source: &mut S) -> (res: Result<
    (Option<Link>, Vec<u8>, Vec<u8>),
    ApplyError,
>)
    requires
        t.wf(),
        t.hash_inv(),
        t.spec_size() <= u64::MAX,
    ensures
        res matches Ok(r) ==> link_wf(r.0) && link_hash_inv(r.0) && t.contents().dom().contains(
            r.1@,
        ) && t.contents()[r.1@] == r.2@ && link_contents(r.0) == t.contents().remove(r.1@) && (
        forall|k: Seq<u8>| link_contents(r.0).dom().contains(k) ==> lex_lt(k, r.1@))
            && link_size(r.0) == t.spec_size() - 1 && t.height - 1 <= link_height(r.0)
            <= t.height && (t.resident() ==> link_resident(r.0)) && (forall|p: PrunedRef|
            link_has_pruned(r.0, p) ==> has_pruned_ref(t, p)),
        res matches Err(e) ==> !t.resident() && e is Fetch,
    decreases t.spec_size(),
{
    let ghost t0 = t;
    let Tree { key, value, hash: _, height: _, modified: _, left, right } = t;
    match right {
        None => {
            proof {
                lemma_key_facts(key@, key@);
                assert(link_contents(t0.right) =~= Map::<Seq<u8>, Seq<u8>>::empty());
                assert forall|k: Seq<u8>|
                    #[trigger] link_contents(left).dom().contains(k) == t0.contents().remove(
                    key@,
                ).dom().contains(k) && (link_contents(left).dom().contains(k) ==> link_contents(
                    left,
                )[k] == t0.contents().remove(key@)[k]) by {
                    lemma_key_facts(k, key@);
                }
                assert(link_contents(left) =~= t0.contents().remove(key@));
                assert forall|p: PrunedRef| link_has_pruned(left, p) implies has_pruned_ref(
                    t0,
                    p,
                ) by {}
            }
            Ok((left, key, value))
        },
        Some(rl) => {
            let rt = match resolve_link(Some(rl), source) {
                Ok(x) => x,
                Err(e) => {
                    return Err(e);
                },
            };
            let rr = match remove_rightmost(rt, source) {
                Ok(x) => x,
                Err(e) => {
                    return Err(e);
                },
            };
            let (rem, pk, pv) = rr;
            proof {
                assert(lex_lt(key@, pk@));
                assert forall|k: Seq<u8>| link_contents(rem).dom().contains(k) implies lex_lt(
                    key@,
                    k,
                ) by {
                    assert(link_contents(t0.right).dom().contains(k));
                }
            }
            let nt = match balance_parts(key, value, left, rem, source) {
                Ok(x) => x,
                Err(e) => {
                    return Err(e);
                },
            };
            proof {
                assert forall|k: Seq<u8>|
                    #[trigger] nt.contents().dom().contains(k) == t0.contents().remove(
                    pk@,
                ).dom().contains(k) && (nt.contents().dom().contains(k) ==> nt.contents()[k]
                    == t0.contents().remove(pk@)[k]) by {
                    lemma_key_facts(k, key@);
                    lemma_key_facts(k, pk@);
                }
                assert(nt.contents() =~= t0.contents().remove(pk@));
                assert forall|k: Seq<u8>| nt.contents().dom().contains(k) implies lex_lt(
                    k,
                    pk@,
                ) by {
                    lemma_key_facts(k, key@);
                    lemma_key_facts(k, pk@);
                    if lex_lt(k, key@) {
                        lemma_lex_trans(k, key@, pk@);
                    }
                }
                assert(t0.contents()[pk@] == pv@) by {
                    lemma_key_facts(pk@, key@);
                }
                assert forall|p: PrunedRef|
                    link_has_pruned(Some(Link::Resident(Box::new(nt))), p) implies
                    has_pruned_ref(t0, p) by {
                    if has_pruned_ref(nt, p) {
                        assert(link_has_pruned(nt.left, p) || link_has_pruned(nt.right, p));
                        if link_has_pruned(rem, p) {
                            assert(has_pruned_ref(rt, p));
                        }
                    }
                }
            }
            Ok((Some(Link::Resident(Box::new(nt))), pk, pv))
        },
    }
}

/// Merge two well-separated subtrees after their parent's pair was deleted:
/// the predecessor (the left side's rightmost pair) is promoted.
fn merge_links<S: Source>(
    l: Option<Link>,
    r: Option<Link>,
    pivot: Ghost<Seq<u8>>,
    source: &mut S,
) -> (res: Result<Option<Link>, ApplyError>)
    requires
        link_wf(l),
        link_wf(r),
        link_hash_inv(l),
        link_hash_inv(r),
        forall|k: Seq<u8>| link_contents(l).dom().contains(k) ==> lex_lt(k, pivot@),
        forall|k: Seq<u8>| link_contents(r).dom().contains(k) ==> lex_lt(pivot@, k),
        link_size(l) + link_size(r) <= u64::MAX,
    ensures
        res matches Ok(nl) ==> link_wf(nl) && link_hash_inv(nl) && link_contents(nl)
            == link_contents(l).union_prefer_right(link_contents(r)) && link_size(nl)
            == link_size(l) + link_size(r) && (link_resident(l) && link_resident(r)
            ==> link_resident(nl)) && (forall|p: PrunedRef|
            link_has_pruned(nl, p) ==> link_has_pruned(l, p) || link_has_pruned(r, p)),
        res matches Err(e) ==> !(link_resident(l) && link_resident(r)) && e is Fetch,
{
    let ghost target = link_contents(l).union_prefer_right(link_contents(r));
    match l {
        None => {
            proof {
                assert(link_contents(r) =~= target);
            }
            Ok(r)
        },
        Some(ll) => {
            match r {
                None => {
                    proof {
                        assert(link_contents(Some(ll)) =~= target);
                    }
                    Ok(Some(ll))
                },
                Some(_) => {
                    let lt_ = match resolve_link(Some(ll), source) {
                        Ok(x) => x,
                        Err(e) => {
                            return Err(e);
                        },
                    };
                    let rr = match remove_rightmost(lt_, source) {
                        Ok(x) => x,
                        Err(e) => {
                            return Err(e);
                        },
                    };
                    let (rem, pk, pv) = rr;
                    proof {
                        assert(lex_lt(pk@, pivot@));
                        assert forall|k: Seq<u8>|
                            link_contents(r).dom().contains(k) implies lex_lt(pk@, k) by {
                            lemma_lex_trans(pk@, pivot@, k);
                        }
                    }
                    let nt = match join_link(rem, pk, pv, r, source) {
                        Ok(x) => x,
                        Err(e) => {
                            return Err(e);
                        },
                    };
                    proof {
                        assert forall|k: Seq<u8>|
                            #[trigger] nt.contents().dom().contains(k) == target.dom().contains(
                            k,
                        ) && (nt.contents().dom().contains(k) ==> nt.contents()[k]
                            == target[k]) by {
                            lemma_key_facts(k, pk@);
                        }
                        assert(nt.contents() =~= target);
                    }
                    Ok(Some(Link::Resident(Box::new(nt))))
                },
            }
        },
    }
}

/// Apply one range of the batch to one node: partition the range around the
/// node's key, consume the at-most-one entry at the key itself, recurse into
/// both sides and rebuild a balanced node (or merge the sides if the entry
/// deleted the node).
#[verifier::rlimit(100)]
fn apply_tree<S: Source>(
    t: Tree,
    batch: &Batch,
    a: usize,
    b: usize,
    source: &mut S,
) -> (res: Result<Option<Link>, ApplyError>)
    requires
        a < b,
        b <= batch@.len(),
        sorted_batch(batch@),
        t.wf(),
        t.hash_inv(),
        t.spec_size() + (b - a) <= u64::MAX,
    ensures
        ({
            let rg = batch@.subrange(a as int, b as int);
            let c0 = t.contents();
            &&& (res matches Ok(nl) ==> link_wf(nl) && link_hash_inv(nl) && link_contents(nl)
                == apply_map(c0, rg) && uniq_batch(rg) && dels_of(rg).subset_of(c0.dom())
                && link_size(nl) <= t.spec_size() + (b - a) && (t.resident() ==> link_resident(
                nl,
            )) && (forall|p: PrunedRef| link_has_pruned(nl, p) ==> has_pruned_ref(t, p)))
            &&& (res matches Err(e) ==> !(t.resident() && uniq_batch(rg) && dels_of(
                rg,
            ).subset_of(c0.dom())) && (e is DuplicateKey ==> !uniq_batch(rg)) && (e
                is DeleteOnEmpty ==> !dels_of(rg).subset_of(c0.dom())) && (e is Fetch
                ==> !t.resident()))
        }),
    decreases t.spec_size(), 0int,
{
    let ghost rg = batch@.subrange(a as int, b as int);
    let ghost c0 = t.contents();
    let ghost t0 = t;
    proof {
        lemma_contents_size(t0);
    }
    let i = lower_bound(batch, a, b, &t.key);
    let mut matched = false;
    if i < b {
        match compare_bytes(&batch[i].0, &t.key) {
            KeyOrder::Equal => {
                matched = true;
            },
            _ => {},
        }
    }
    if matched && i + 1 < b {
        match compare_bytes(&batch[i + 1].0, &t.key) {
            KeyOrder::Equal => {
                proof {
                    assert(rg[i - a] == batch@[i as int]);
                    assert(rg[i + 1 - a] == batch@[i + 1]);
                    assert(entry_key(rg[i - a]) == entry_key(rg[i + 1 - a]));
                    assert(!uniq_batch(rg));
                }
                return Err(ApplyError::DuplicateKey);
            },
            _ => {},
        }
    }
    let j = if matched {
        i + 1
    } else {
        i
    };
    let ghost tk = t0.key@;
    proof {
        assert forall|q: int| j <= q < b implies lex_lt(tk, entry_key(#[trigger] batch@[q])) by {
            let kq = entry_key(batch@[q]);
            lemma_key_facts(kq, tk);
            if matched {
                lemma_key_facts(entry_key(batch@[i + 1]), tk);
                if q > i + 1 {
                    assert(lex_le(entry_key(batch@[i + 1]), kq));
                }
                if kq == tk {
                    lemma_key_facts(entry_key(batch@[i + 1]), kq);
                }
            } else {
                lemma_key_facts(entry_key(batch@[i as int]), tk);
                if q > i {
                    assert(lex_le(entry_key(batch@[i as int]), kq));
                }
                if kq == tk {
                    lemma_key_facts(entry_key(batch@[i as int]), kq);
                }
            }
        }
        assert(rg.subrange(0, i - a) =~= batch@.subrange(a as int, i as int));
        assert(rg.subrange(j - a, rg.len() as int) =~= batch@.subrange(j as int, b as int));
        assert forall|q: int| 0 <= q < i - a implies lex_lt(entry_key(#[trigger] rg[q]), tk) by {
            assert(rg[q] == batch@[a + q]);
        }
        assert forall|q: int| j - a <= q < rg.len() implies lex_lt(
            tk,
            entry_key(#[trigger] rg[q]),
        ) by {
            assert(rg[q] == batch@[a + q]);
        }
        if matched {
            assert(entry_key(rg[i - a]) == tk);
        }
        lemma_apply_partition(
            link_contents(t0.left),
            link_contents(t0.right),
            tk,
            t0.value@,
            rg,
            i - a,
            j - a,
        );
    }
    let ghost lsub = batch@.subrange(a as int, i as int);
    let ghost rsub = batch@.subrange(j as int, b as int);
    let is_del = if matched {
        match &batch[i].1 {
            Op::Delete => true,
            Op::Put(_) => false,
        }
    } else {
        false
    };
    let Tree { key: tkv, value: tvv, hash: _, height: _, modified: _, left, right } = t;
    let lres = match apply_link(left, batch, a, i, source) {
        Ok(x) => x,
        Err(e) => {
            proof {
                lemma_sub_of_sub(batch@, a as int, i as int, b as int);
            }
            return Err(e);
        },
    };
    let rres = match apply_link(right, batch, j, b, source) {
        Ok(x) => x,
        Err(e) => {
            proof {
                lemma_sub_of_sub_hi(batch@, a as int, j as int, b as int);
            }
            return Err(e);
        },
    };
    proof {
        assert forall|q: int| 0 <= q < lsub.len() implies lex_lt(
            entry_key(#[trigger] lsub[q]),
            tk,
        ) by {
            assert(lsub[q] == batch@[a + q]);
        }
        assert forall|q: int| 0 <= q < rsub.len() implies lex_lt(
            tk,
            entry_key(#[trigger] rsub[q]),
        ) by {
            assert(rsub[q] == batch@[j + q]);
        }
        lemma_apply_keys_below(link_contents(t0.left), lsub, tk);
        lemma_apply_keys_above(link_contents(t0.right), rsub, tk);
        lemma_uniq_combine(batch@, a as int, i as int, j as int, b as int, tk);
    }
    if is_del {
        let nl = match merge_links(lres, rres, Ghost(tk), source) {
            Ok(x) => x,
            Err(e) => {
                return Err(e);
            },
        };
        proof {
            assert(rg[i - a] == batch@[i as int]);
            assert(link_contents(nl) == apply_map(c0, rg));
            assert forall|p: PrunedRef| link_has_pruned(nl, p) implies has_pruned_ref(
                t0,
                p,
            ) by {
                assert(link_has_pruned(lres, p) || link_has_pruned(rres, p));
            }
        }
        Ok(nl)
    } else if matched {
        let nv = match &batch[i].1 {
            Op::Put(v) => copy_bytes(v),
            Op::Delete => vstd::pervasive::unreached(),
        };
        let u = match join_link(lres, tkv, nv, rres, source) {
            Ok(x) => x,
            Err(e) => {
                return Err(e);
            },
        };
        proof {
            assert(rg[i - a] == batch@[i as int]);
            assert(u.contents() == apply_map(c0, rg));
            assert forall|p: PrunedRef|
                link_has_pruned(Some(Link::Resident(Box::new(u))), p) implies has_pruned_ref(
                t0,
                p,
            ) by {
                if has_pruned_ref(u, p) {
                    assert(link_has_pruned(lres, p) || link_has_pruned(rres, p));
                }
            }
        }
        Ok(Some(Link::Resident(Box::new(u))))
    } else {
        let u = match join_link(lres, tkv, tvv, rres, source) {
            Ok(x) => x,
            Err(e) => {
                return Err(e);
            },
        };
        proof {
            assert(u.contents() == apply_map(c0, rg));
            assert forall|p: PrunedRef|
                link_has_pruned(Some(Link::Resident(Box::new(u))), p) implies has_pruned_ref(
                t0,
                p,
            ) by {
                if has_pruned_ref(u, p) {
                    assert(link_has_pruned(lres, p) || link_has_pruned(rres, p));
                }
            }
        }
        Ok(Some(Link::Resident(Box::new(u))))
    }
}

/// Apply one range of the batch to the subtree behind a link. An empty
/// range leaves the link exactly as it was, pruned or not; a pruned link
/// with a non-empty range is resolved through the source first.
fn apply_link<S: Source>(
    ol: Option<Link>,
    batch: &Batch,
    a: usize,
    b: usize,
    source: &mut S,
) -> (res: Result<Option<Link>, ApplyError>)
    requires
        a <= b,
        b <= batch@.len(),
        sorted_batch(batch@),
        link_wf(ol),
        link_hash_inv(ol),
        link_size(ol) + (b - a) <= u64::MAX - 1,
    ensures
        ({
            let rg = batch@.subrange(a as int, b as int);
            let c0 = link_contents(ol);
            &&& (res matches Ok(nl) ==> link_wf(nl) && link_hash_inv(nl) && link_contents(nl)
                == apply_map(c0, rg) && uniq_batch(rg) && dels_of(rg).subset_of(c0.dom())
                && link_size(nl) <= link_size(ol) + (b - a) && (a == b ==> nl == ol) && (
            link_resident(ol) ==> link_resident(nl)) && (forall|p: PrunedRef|
                link_has_pruned(nl, p) ==> link_has_pruned(ol, p)))
            &&& (res matches Err(e) ==> !(link_resident(ol) && uniq_batch(rg) && dels_of(
                rg,
            ).subset_of(c0.dom())) && (e is DuplicateKey ==> !uniq_batch(rg)) && (e
                is DeleteOnEmpty ==> !dels_of(rg).subset_of(c0.dom())) && (e is Fetch
                ==> !link_resident(ol)))
        }),
    decreases link_size(ol), 1int,
{
    let ghost rg = batch@.subrange(a as int, b as int);
    let ghost c0 = link_contents(ol);
    if a == b {
        proof {
            assert(rg =~= Seq::<BatchEntry>::empty());
            assert(dels_of(rg) =~= Set::<Seq<u8>>::empty());
            assert(puts_of(rg) =~= Map::<Seq<u8>, Seq<u8>>::empty());
            assert(apply_map(c0, rg) =~= c0);
        }
        return Ok(ol);
    }
    match ol {
        None => {
            let r = build_from_batch(batch, a, b);
            match r {
                Ok(nl) => {
                    proof {
                        lemma_batch_keys(rg);
                        assert forall|k: Seq<u8>| !dels_of(rg).contains(k) by {
                            if dels_of(rg).contains(k) {
                                let q = choose|q: int|
                                    0 <= q < rg.len() && entry_key(#[trigger] rg[q]) == k
                                        && rg[q].1 is Delete;
                            }
                        }
                        assert(dels_of(rg) =~= Set::<Seq<u8>>::empty());
                        assert(apply_map(c0, rg) =~= puts_of(rg));
                    }
                    Ok(nl)
                },
                Err(e) => {
                    proof {
                        lemma_batch_keys(rg);
                        if !all_puts(rg) {
                            let q = choose|q: int|
                                0 <= q < rg.len() && !((#[trigger] rg[q]).1 is Put);
                            assert(rg[q].1 is Delete);
                            assert(dels_of(rg).contains(entry_key(rg[q])));
                            assert(!c0.dom().contains(entry_key(rg[q])));
                        }
                    }
                    Err(e)
                },
            }
        },
        Some(_) => {
            let t = match resolve_link(ol, source) {
                Ok(x) => x,
                Err(e) => {
                    return Err(e);
                },
            };
            apply_tree(t, batch, a, b, source)
        },
    }
}

/// The represented map of the tree a walker wraps; the empty map for no tree.
pub open spec fn walker_contents<S: Source>(mw: Option<Walker<S>>) -> Map<Seq<u8>, Seq<u8>> {
    match mw {
        Some(w) => w.tree.contents(),
        None => Map::empty(),
    }
}

/// Number of entries in the tree a walker wraps; zero for no tree.
pub open spec fn walker_size<S: Source>(mw: Option<Walker<S>>) -> nat {
    match mw {
        Some(w) => w.tree.spec_size(),
        None => 0,
    }
}

/// Whether the tree a walker wraps is fully in memory.
pub open spec fn walker_resident<S: Source>(mw: Option<Walker<S>>) -> bool {
    match mw {
        Some(w) => w.tree.resident(),
        None => true,
    }
}

/// The mutation executor: a tree paired with the source that resolves its
/// pruned subtrees while a batch is applied.
pub struct Walker<S: Source> {
    pub tree: Tree,
    pub source: S,
}

impl<S: Source> Walker<S> {
    /// Wrap a tree with its source.
    pub fn new(tree: Tree, source: S) -> (w: Walker<S>)
        ensures
            w.tree == tree,
            w.source == source,
    {
        Walker { tree, source }
    }

    /// Apply a sorted batch to an optional tree, producing the new tree:
    /// `None` when every entry was deleted. The call succeeds exactly when
    /// no key is repeated, every Delete finds its key, and no pruned
    /// subtree that the batch touches fails to resolve; on an error the
    /// caller keeps the batch and may retry against its prior tree.
    pub fn apply_to(maybe_walker: Option<Walker<S>>, batch: &Batch) -> (res: Result<
        Option<Tree>,
        ApplyError,
    >)
        requires
            sorted_batch(batch@),
            maybe_walker matches Some(w) ==> w.tree.wf() && w.tree.hash_inv()
                && w.tree.spec_size() + batch@.len() <= u64::MAX,
            batch@.len() <= u64::MAX - 1,
        ensures
            ({
                let c0 = walker_contents(maybe_walker);
                &&& (res matches Ok(opt) ==> {
                    &&& (opt matches Some(t) ==> t.wf() && t.hash_inv() && t.contents()
                        == apply_map(c0, batch@) && t.spec_size() <= walker_size(maybe_walker)
                        + batch@.len() && (walker_resident(maybe_walker) ==> t.resident()))
                    &&& (opt is None ==> apply_map(c0, batch@) == Map::<Seq<u8>, Seq<u8>>::empty())
                    &&& uniq_batch(batch@)
                    &&& dels_of(batch@).subset_of(c0.dom())
                })
                &&& (res matches Err(e) ==> !(walker_resident(maybe_walker) && uniq_batch(batch@)
                    && dels_of(batch@).subset_of(c0.dom())) && (e is DuplicateKey
                    ==> !uniq_batch(batch@)) && (e is DeleteOnEmpty ==> !dels_of(
                    batch@,
                ).subset_of(c0.dom())) && (e is Fetch ==> !walker_resident(maybe_walker)))
            }),
            res matches Ok(opt) ==> (opt matches Some(t2) ==> (forall|p: PrunedRef|
                has_pruned_ref(t2, p) ==> (match maybe_walker {
                    Some(w) => has_pruned_ref(w.tree, p),
                    None => false,
                }))),
            batch@.len() == 0 ==> (maybe_walker matches Some(w) ==> res == Ok::<Option<Tree>, ApplyError>(Some(w.tree))),
            maybe_walker is None && batch@.len() > 0 ==> (res matches Ok(opt) ==> (opt
                matches Some(t2) ==> t2.modified)),
    {
        proof {
            assert(batch@.subrange(0, batch@.len() as int) =~= batch@);
        }
        match maybe_walker {
            None => {
                let ghost c0 = Map::<Seq<u8>, Seq<u8>>::empty();
                let r = build_from_batch(batch, 0, batch.len());
                match r {
                    Ok(nl) => {
                        proof {
                            lemma_batch_keys(batch@);
                            assert forall|k: Seq<u8>| !dels_of(batch@).contains(k) by {
                                if dels_of(batch@).contains(k) {
                                    let q = choose|q: int|
                                        0 <= q < batch@.len() && entry_key(#[trigger] batch@[q])
                                            == k && batch@[q].1 is Delete;
                                }
                            }
                            assert(dels_of(batch@) =~= Set::<Seq<u8>>::empty());
                            assert(apply_map(c0, batch@) =~= puts_of(batch@));
                        }
                        match nl {
                            None => {
                                proof {
                                    assert(apply_map(c0, batch@) =~= Map::<
                                        Seq<u8>,
                                        Seq<u8>,
                                    >::empty());
                                }
                                Ok(None)
                            },
                            Some(Link::Resident(bt)) => {
                                proof {
                                    assert forall|p: PrunedRef| !has_pruned_ref(*bt, p) by {
                                        assert(!link_has_pruned(nl, p));
                                    }
                                }
                                Ok(Some(*bt))
                            },
                            Some(Link::Pruned(_)) => vstd::pervasive::unreached(),
                        }
                    },
                    Err(e) => {
                        proof {
                            lemma_batch_keys(batch@);
                            if !all_puts(batch@) {
                                let q = choose|q: int|
                                    0 <= q < batch@.len() && !((#[trigger] batch@[q]).1 is Put);
                                assert(batch@[q].1 is Delete);
                                assert(dels_of(batch@).contains(entry_key(batch@[q])));
                                assert(!c0.dom().contains(entry_key(batch@[q])));
                            }
                        }
                        Err(e)
                    },
                }
            },
            Some(w) => {
                let Walker { tree, source: mut src } = w;
                let ghost tree0 = tree;
                if batch.len() == 0 {
                    proof {
                        assert(batch@ =~= Seq::<BatchEntry>::empty());
                        assert(dels_of(batch@) =~= Set::<Seq<u8>>::empty());
                        assert(puts_of(batch@) =~= Map::<Seq<u8>, Seq<u8>>::empty());
                        assert(apply_map(tree0.contents(), batch@) =~= tree0.contents());
                    }
                    return Ok(Some(tree));
                }
                let r = apply_tree(tree, batch, 0, batch.len(), &mut src);
                match r {
                    Ok(None) => {
                        proof {
                            assert(link_contents(None::<Link>) =~= Map::<
                                Seq<u8>,
                                Seq<u8>,
                            >::empty());
                        }
                        Ok(None)
                    },
                    Ok(Some(Link::Resident(bt))) => {
                        proof {
                            assert forall|p: PrunedRef| has_pruned_ref(*bt, p) implies
                                has_pruned_ref(tree0, p) by {
                                assert(link_has_pruned(Some(Link::Resident(bt)), p));
                            }
                        }
                        Ok(Some(*bt))
                    },
                    Ok(Some(Link::Pruned(p))) => {
                        match src.fetch(&p) {
                            Ok(t2) => {
                                proof {
                                    lemma_resident_no_pruned(t2.left);
                                    lemma_resident_no_pruned(t2.right);
                                    assert forall|q: PrunedRef| !has_pruned_ref(t2, q) by {
                                        assert(!link_has_pruned(t2.left, q));
                                        assert(!link_has_pruned(t2.right, q));
                                    }
                                }
                                Ok(Some(t2))
                            },
                            Err(e) => Err(ApplyError::Fetch(e)),
                        }
                    },
                    Err(e) => Err(e),
                }
            },
        }
    }
}

/// The size law: a batch of Puts whose keys are all new grows the tree by
/// exactly the number of entries, and a batch of Deletes whose keys are all
/// present shrinks it by exactly the number of entries, for any trees
/// related as `apply` relates them.
pub proof fn lemma_size_law(t1: Tree, t2: Tree, bs: Seq<BatchEntry>)
    requires
        t1.wf(),
        t2.wf(),
        uniq_batch(bs),
        t2.contents() == apply_map(t1.contents(), bs),
    ensures
        all_puts(bs) && (forall|q: int|
            0 <= q < bs.len() ==> !t1.contents().dom().contains(entry_key(#[trigger] bs[q])))
            ==> t2.spec_size() == t1.spec_size() + bs.len(),
        super::batch::all_dels(bs) && dels_of(bs).subset_of(t1.contents().dom())
            ==> t2.spec_size() + bs.len() == t1.spec_size(),
{
    lemma_contents_size(t1);
    lemma_contents_size(t2);
    lemma_batch_keys(bs);
    super::batch::lemma_batch_card(bs);
    super::batch::lemma_uniform_batch(bs);
    let c1 = t1.contents();
    let c2 = t2.contents();
    if all_puts(bs) && (forall|q: int|
        0 <= q < bs.len() ==> !c1.dom().contains(entry_key(#[trigger] bs[q]))) {
        assert(c2.dom() =~= c1.dom() + puts_of(bs).dom());
        assert(c1.dom().disjoint(puts_of(bs).dom())) by {
            assert forall|k: Seq<u8>| puts_of(bs).dom().contains(k) implies !c1.dom().contains(
                k,
            ) by {
                let q = choose|q: int|
                    0 <= q < bs.len() && entry_key(#[trigger] bs[q]) == k && bs[q].1 is Put;
            }
        }
        vstd::set_lib::lemma_set_disjoint_lens(c1.dom(), puts_of(bs).dom());
    }
    if super::batch::all_dels(bs) && dels_of(bs).subset_of(c1.dom()) {
        assert(c2 =~= c1.remove_keys(dels_of(bs)));
        assert(c1.dom() =~= c2.dom() + dels_of(bs));
        assert(c2.dom().disjoint(dels_of(bs)));
        vstd::set_lib::lemma_set_disjoint_lens(c2.dom(), dels_of(bs));
    }
}

} // verus!
