//! The model of a batch: which keys it writes, which it deletes, and how a
//! batch decomposes around a node's key.

use vstd::prelude::*;
use super::node::{BatchEntry, Op};
use crate::bytes::{lex_lt, lex_le, lemma_lex_asym, lemma_lex_trans, lemma_lex_connected};

verus! {

pub open spec fn entry_key(e: BatchEntry) -> Seq<u8> {
    e.0@
}

/// Keys appear in non-decreasing order.
pub open spec fn sorted_batch(b: Seq<BatchEntry>) -> bool {
    forall|i: int, j: int|
        0 <= i < j < b.len() ==> lex_le(entry_key(#[trigger] b[i]), entry_key(#[trigger] b[j]))
}

/// No key appears twice.
pub open spec fn uniq_batch(b: Seq<BatchEntry>) -> bool {
    forall|i: int, j: int|
        0 <= i < j < b.len() ==> entry_key(#[trigger] b[i]) != entry_key(#[trigger] b[j])
}

/// Every operation is a Put.
pub open spec fn all_puts(b: Seq<BatchEntry>) -> bool {
    forall|i: int| 0 <= i < b.len() ==> (#[trigger] b[i]).1 is Put
}

/// The key-value pairs the batch writes.
pub open spec fn puts_of(b: Seq<BatchEntry>) -> Map<Seq<u8>, Seq<u8>>
    decreases b.len(),
{
    if b.len() == 0 {
        Map::empty()
    } else {
        let m = puts_of(b.drop_last());
        match b.last().1 {
            Op::Put(v) => m.insert(b.last().0@, v@),
            Op::Delete => m,
        }
    }
}

/// The keys the batch deletes.
pub open spec fn dels_of(b: Seq<BatchEntry>) -> Set<Seq<u8>>
    decreases b.len(),
{
    if b.len() == 0 {
        Set::empty()
    } else {
        let s = dels_of(b.drop_last());
        if b.last().1 is Delete {
            s.insert(b.last().0@)
        } else {
            s
        }
    }
}

/// The effect of a batch on a map: deleted keys removed, put pairs written.
pub open spec fn apply_map(m: Map<Seq<u8>, Seq<u8>>, b: Seq<BatchEntry>) -> Map<
    Seq<u8>,
    Seq<u8>,
> {
    m.remove_keys(dels_of(b)).union_prefer_right(puts_of(b))
}

/// Every put or deleted key comes from some entry, and every entry
/// contributes its key.
pub proof fn lemma_batch_keys(b: Seq<BatchEntry>)
    ensures
        forall|k: Seq<u8>|
            puts_of(b).dom().contains(k) ==> exists|i: int|
                0 <= i < b.len() && entry_key(#[trigger] b[i]) == k && b[i].1 is Put,
        forall|k: Seq<u8>|
            dels_of(b).contains(k) ==> exists|i: int|
                0 <= i < b.len() && entry_key(#[trigger] b[i]) == k && b[i].1 is Delete,
        forall|i: int|
            0 <= i < b.len() && (#[trigger] b[i]).1 is Put ==> puts_of(b).dom().contains(
                entry_key(b[i]),
            ),
        forall|i: int|
            0 <= i < b.len() && (#[trigger] b[i]).1 is Delete ==> dels_of(b).contains(
                entry_key(b[i]),
            ),
    decreases b.len(),
{
    if b.len() > 0 {
        lemma_batch_keys(b.drop_last());
        let d = b.drop_last();
        let n = b.len() - 1;
        assert forall|k: Seq<u8>| puts_of(b).dom().contains(k) implies exists|i: int|
            0 <= i < b.len() && entry_key(#[trigger] b[i]) == k && b[i].1 is Put by {
            if b.last().1 is Put && k == b.last().0@ {
                assert(entry_key(b[n]) == k && b[n].1 is Put);
            } else {
                assert(puts_of(d).dom().contains(k));
                let i = choose|i: int|
                    0 <= i < d.len() && entry_key(#[trigger] d[i]) == k && d[i].1 is Put;
                assert(entry_key(b[i]) == k && b[i].1 is Put);
            }
        }
        assert forall|k: Seq<u8>| dels_of(b).contains(k) implies exists|i: int|
            0 <= i < b.len() && entry_key(#[trigger] b[i]) == k && b[i].1 is Delete by {
            if b.last().1 is Delete && k == b.last().0@ {
                assert(entry_key(b[n]) == k && b[n].1 is Delete);
            } else {
                assert(dels_of(d).contains(k));
                let i = choose|i: int|
                    0 <= i < d.len() && entry_key(#[trigger] d[i]) == k && d[i].1 is Delete;
                assert(entry_key(b[i]) == k && b[i].1 is Delete);
            }
        }
        assert forall|i: int|
            0 <= i < b.len() && (#[trigger] b[i]).1 is Put implies puts_of(b).dom().contains(
            entry_key(b[i]),
        ) by {
            if i < n {
                assert(d[i] == b[i]);
                assert(puts_of(d).dom().contains(entry_key(d[i])));
            }
        }
        assert forall|i: int|
            0 <= i < b.len() && (#[trigger] b[i]).1 is Delete implies dels_of(b).contains(
            entry_key(b[i]),
        ) by {
            if i < n {
                assert(d[i] == b[i]);
                assert(dels_of(d).contains(entry_key(d[i])));
            }
        }
    }
}


/// In a batch without repeated keys, the value written for a key is the one
/// in its Put entry.
pub proof fn lemma_put_value(b: Seq<BatchEntry>, i: int)
    requires
        uniq_batch(b),
        0 <= i < b.len(),
        b[i].1 is Put,
    ensures
        puts_of(b).dom().contains(entry_key(b[i])),
        b[i].1 matches Op::Put(v) ==> puts_of(b)[entry_key(b[i])] == v@,
    decreases b.len(),
{
    lemma_batch_keys(b);
    let n = b.len() - 1;
    if i == n {
    } else {
        let d = b.drop_last();
        assert(d[i] == b[i]);
        assert forall|p: int, q: int| 0 <= p < q < d.len() implies entry_key(
            #[trigger] d[p],
        ) != entry_key(#[trigger] d[q]) by {
            assert(d[p] == b[p]);
            assert(d[q] == b[q]);
        }
        lemma_put_value(d, i);
        assert(entry_key(b[n]) != entry_key(b[i]));
    }
}

/// Puts and deletes of a concatenation.
pub proof fn lemma_batch_concat(b1: Seq<BatchEntry>, b2: Seq<BatchEntry>)
    ensures
        puts_of(b1 + b2) == puts_of(b1).union_prefer_right(puts_of(b2)),
        dels_of(b1 + b2) == dels_of(b1) + dels_of(b2),
    decreases b2.len(),
{
    if b2.len() == 0 {
        assert(b1 + b2 =~= b1);
        assert(puts_of(b1 + b2) =~= puts_of(b1).union_prefer_right(puts_of(b2)));
        assert(dels_of(b1 + b2) =~= dels_of(b1) + dels_of(b2));
    } else {
        lemma_batch_concat(b1, b2.drop_last());
        assert((b1 + b2).drop_last() =~= b1 + b2.drop_last());
        assert((b1 + b2).last() == b2.last());
        assert(puts_of(b1 + b2) =~= puts_of(b1).union_prefer_right(puts_of(b2)));
        assert(dels_of(b1 + b2) =~= dels_of(b1) + dels_of(b2));
    }
}

/// How applying a batch to a node's represented map decomposes: entries
/// left of the node's key act on the left subtree's map, entries right of
/// it on the right subtree's map, and the at-most-one entry at the key
/// itself replaces or removes the node's own pair.
pub proof fn lemma_apply_partition(
    cl: Map<Seq<u8>, Seq<u8>>,
    cr: Map<Seq<u8>, Seq<u8>>,
    tk: Seq<u8>,
    tv: Seq<u8>,
    b: Seq<BatchEntry>,
    i: int,
    j: int,
)
    requires
        0 <= i <= j <= b.len(),
        j <= i + 1,
        forall|q: int| 0 <= q < i ==> lex_lt(entry_key(#[trigger] b[q]), tk),
        forall|q: int| j <= q < b.len() ==> lex_lt(tk, entry_key(#[trigger] b[q])),
        j == i + 1 ==> entry_key(b[i]) == tk,
        forall|k: Seq<u8>| cl.dom().contains(k) ==> lex_lt(k, tk),
        forall|k: Seq<u8>| cr.dom().contains(k) ==> lex_lt(tk, k),
    ensures
        ({
            let m = cl.union_prefer_right(cr).insert(tk, tv);
            let ml = apply_map(cl, b.subrange(0, i));
            let mr = apply_map(cr, b.subrange(j, b.len() as int));
            &&& (j == i ==> apply_map(m, b) == ml.union_prefer_right(mr).insert(tk, tv))
            &&& (j == i + 1 ==> (b[i].1 matches Op::Put(v) ==> apply_map(m, b)
                == ml.union_prefer_right(mr).insert(tk, v@)))
            &&& (j == i + 1 && b[i].1 is Delete ==> apply_map(m, b) == ml.union_prefer_right(
                mr,
            ))
            &&& dels_of(b).subset_of(m.dom()) == (dels_of(b.subrange(0, i)).subset_of(cl.dom())
                && dels_of(b.subrange(j, b.len() as int)).subset_of(cr.dom()))
        }),
{
    let len = b.len() as int;
    let bl = b.subrange(0, i);
    let bm = b.subrange(i, j);
    let br = b.subrange(j, len);
    assert(b =~= bl + bm + br);
    lemma_batch_concat(bl + bm, br);
    lemma_batch_concat(bl, bm);
    assert(b == (bl + bm) + br);
    lemma_batch_keys(bl);
    lemma_batch_keys(bm);
    lemma_batch_keys(br);
    let m = cl.union_prefer_right(cr).insert(tk, tv);
    let ml = apply_map(cl, bl);
    let mr = apply_map(cr, br);
    // keys of the left parts are strictly below tk, of the right parts above
    assert forall|k: Seq<u8>| puts_of(bl).dom().contains(k) implies lex_lt(k, tk) by {
        let q = choose|q: int|
            0 <= q < bl.len() && entry_key(#[trigger] bl[q]) == k && bl[q].1 is Put;
        assert(bl[q] == b[q]);
    }
    assert forall|k: Seq<u8>| dels_of(bl).contains(k) implies lex_lt(k, tk) by {
        let q = choose|q: int|
            0 <= q < bl.len() && entry_key(#[trigger] bl[q]) == k && bl[q].1 is Delete;
        assert(bl[q] == b[q]);
    }
    assert forall|k: Seq<u8>| puts_of(br).dom().contains(k) implies lex_lt(tk, k) by {
        let q = choose|q: int|
            0 <= q < br.len() && entry_key(#[trigger] br[q]) == k && br[q].1 is Put;
        assert(br[q] == b[j + q]);
    }
    assert forall|k: Seq<u8>| dels_of(br).contains(k) implies lex_lt(tk, k) by {
        let q = choose|q: int|
            0 <= q < br.len() && entry_key(#[trigger] br[q]) == k && br[q].1 is Delete;
        assert(br[q] == b[j + q]);
    }
    assert forall|k: Seq<u8>| ml.dom().contains(k) implies lex_lt(k, tk) by {}
    assert forall|k: Seq<u8>| mr.dom().contains(k) implies lex_lt(tk, k) by {}
    if j == i {
        assert(bm =~= Seq::<BatchEntry>::empty());
        assert(puts_of(b) =~= puts_of(bl).union_prefer_right(puts_of(br)));
        assert(dels_of(b) =~= dels_of(bl) + dels_of(br));
        assert forall|k: Seq<u8>|
            #[trigger] apply_map(m, b).dom().contains(k) == ml.union_prefer_right(mr).insert(
            tk,
            tv,
        ).dom().contains(k) && (apply_map(m, b).dom().contains(k) ==> apply_map(m, b)[k]
            == ml.union_prefer_right(mr).insert(tk, tv)[k]) by {
            lemma_pointwise(cl, cr, tk, k, bl, br);
        }
        assert(apply_map(m, b) =~= ml.union_prefer_right(mr).insert(tk, tv));
    } else {
        assert(bm =~= seq![b[i]]);
        assert(bm.drop_last() =~= Seq::<BatchEntry>::empty());
        assert(puts_of(b) =~= puts_of(bl).union_prefer_right(puts_of(bm)).union_prefer_right(
            puts_of(br),
        ));
        assert(dels_of(b) =~= dels_of(bl) + dels_of(bm) + dels_of(br));
        match b[i].1 {
            Op::Put(v) => {
                assert(puts_of(bm) =~= Map::<Seq<u8>, Seq<u8>>::empty().insert(tk, v@));
                assert(dels_of(bm) =~= Set::<Seq<u8>>::empty());
                assert forall|k: Seq<u8>|
                    #[trigger] apply_map(m, b).dom().contains(k) == ml.union_prefer_right(
                    mr,
                ).insert(tk, v@).dom().contains(k) && (apply_map(m, b).dom().contains(k)
                    ==> apply_map(m, b)[k] == ml.union_prefer_right(mr).insert(tk, v@)[k]) by {
                    lemma_pointwise(cl, cr, tk, k, bl, br);
                }
                assert(apply_map(m, b) =~= ml.union_prefer_right(mr).insert(tk, v@));
            },
            Op::Delete => {
                assert(puts_of(bm) =~= Map::<Seq<u8>, Seq<u8>>::empty());
                assert(dels_of(bm) =~= Set::<Seq<u8>>::empty().insert(tk));
                assert forall|k: Seq<u8>|
                    #[trigger] apply_map(m, b).dom().contains(k) == ml.union_prefer_right(
                    mr,
                ).dom().contains(k) && (apply_map(m, b).dom().contains(k) ==> apply_map(m, b)[k]
                    == ml.union_prefer_right(mr)[k]) by {
                    lemma_pointwise(cl, cr, tk, k, bl, br);
                }
                assert(apply_map(m, b) =~= ml.union_prefer_right(mr));
            },
        }
    }
    // decomposition of "every deleted key is present"
    assert(dels_of(b).subset_of(m.dom()) == (dels_of(bl).subset_of(cl.dom())
        && dels_of(br).subset_of(cr.dom()))) by {
        if dels_of(bl).subset_of(cl.dom()) && dels_of(br).subset_of(cr.dom()) {
            assert forall|k: Seq<u8>| dels_of(b).contains(k) implies m.dom().contains(k) by {}
        }
        if dels_of(b).subset_of(m.dom()) {
            assert forall|k: Seq<u8>| dels_of(bl).contains(k) implies cl.dom().contains(k) by {
                assert(dels_of(b).contains(k));
                assert(m.dom().contains(k));
                lemma_lex_asym(k, tk);
                if cr.dom().contains(k) {
                    lemma_lex_asym(k, tk);
                }
            }
            assert forall|k: Seq<u8>| dels_of(br).contains(k) implies cr.dom().contains(k) by {
                assert(dels_of(b).contains(k));
                assert(m.dom().contains(k));
                lemma_lex_asym(tk, k);
                if cl.dom().contains(k) {
                    lemma_lex_asym(tk, k);
                }
            }
        }
    }
}

/// One key at a time: how each side of the decomposition treats a key.
proof fn lemma_pointwise(
    cl: Map<Seq<u8>, Seq<u8>>,
    cr: Map<Seq<u8>, Seq<u8>>,
    tk: Seq<u8>,
    k: Seq<u8>,
    bl: Seq<BatchEntry>,
    br: Seq<BatchEntry>,
)
    requires
        forall|k: Seq<u8>| cl.dom().contains(k) ==> lex_lt(k, tk),
        forall|k: Seq<u8>| cr.dom().contains(k) ==> lex_lt(tk, k),
        forall|k: Seq<u8>| puts_of(bl).dom().contains(k) ==> lex_lt(k, tk),
        forall|k: Seq<u8>| dels_of(bl).contains(k) ==> lex_lt(k, tk),
        forall|k: Seq<u8>| puts_of(br).dom().contains(k) ==> lex_lt(tk, k),
        forall|k: Seq<u8>| dels_of(br).contains(k) ==> lex_lt(tk, k),
    ensures
        lex_lt(k, tk) || lex_lt(tk, k) || k == tk,
        !(lex_lt(k, tk) && lex_lt(tk, k)),
        k == tk ==> !lex_lt(k, tk) && !lex_lt(tk, k),
        lex_lt(k, tk) ==> !cr.dom().contains(k) && !puts_of(br).dom().contains(k) && !dels_of(
            br,
        ).contains(k) && k != tk,
        lex_lt(tk, k) ==> !cl.dom().contains(k) && !puts_of(bl).dom().contains(k) && !dels_of(
            bl,
        ).contains(k) && k != tk,
        k == tk ==> !cl.dom().contains(k) && !cr.dom().contains(k) && !puts_of(
            bl,
        ).dom().contains(k) && !puts_of(br).dom().contains(k) && !dels_of(bl).contains(k)
            && !dels_of(br).contains(k),
{
    lemma_lex_connected(k, tk);
    lemma_lex_asym(k, tk);
    lemma_lex_asym(tk, k);
    if k == tk {
        lemma_lex_asym(tk, tk);
    }
}

/// Every operation is a Delete.
pub open spec fn all_dels(b: Seq<BatchEntry>) -> bool {
    forall|i: int| 0 <= i < b.len() ==> (#[trigger] b[i]).1 is Delete
}

/// A batch of Puts deletes nothing, and one of Deletes writes nothing.
pub proof fn lemma_uniform_batch(b: Seq<BatchEntry>)
    ensures
        all_puts(b) ==> dels_of(b) == Set::<Seq<u8>>::empty(),
        all_dels(b) ==> puts_of(b) == Map::<Seq<u8>, Seq<u8>>::empty(),
    decreases b.len(),
{
    if b.len() > 0 {
        let d = b.drop_last();
        assert(forall|i: int| 0 <= i < d.len() ==> d[i] == b[i]);
        lemma_uniform_batch(d);
    }
}

/// In a batch of unique keys, the written map and the deleted set have one
/// entry per Put and Delete entry respectively; for a uniform batch that is
/// the batch's length.
pub proof fn lemma_batch_card(b: Seq<BatchEntry>)
    requires
        uniq_batch(b),
    ensures
        puts_of(b).dom().finite(),
        dels_of(b).finite(),
        all_puts(b) ==> puts_of(b).dom().len() == b.len(),
        all_dels(b) ==> dels_of(b).len() == b.len(),
    decreases b.len(),
{
    broadcast use vstd::set::axiom_set_insert_len;

    if b.len() == 0 {
        assert(puts_of(b).dom() =~= Set::<Seq<u8>>::empty());
        assert(dels_of(b) =~= Set::<Seq<u8>>::empty());
    } else {
        let d = b.drop_last();
        let n = b.len() - 1;
        assert forall|i: int, j: int| 0 <= i < j < d.len() implies entry_key(
            #[trigger] d[i],
        ) != entry_key(#[trigger] d[j]) by {
            assert(d[i] == b[i]);
            assert(d[j] == b[j]);
        }
        lemma_batch_card(d);
        lemma_batch_keys(d);
        if all_puts(b) {
            assert(forall|i: int| 0 <= i < d.len() ==> d[i] == b[i]);
            assert(all_puts(d));
            assert(!puts_of(d).dom().contains(b.last().0@)) by {
                if puts_of(d).dom().contains(b.last().0@) {
                    let i = choose|i: int|
                        0 <= i < d.len() && entry_key(#[trigger] d[i]) == b.last().0@ && d[i].1
                            is Put;
                    assert(entry_key(b[i]) == entry_key(b[n]));
                }
            }
            assert(puts_of(b).dom() =~= puts_of(d).dom().insert(b.last().0@));
        }
        if all_dels(b) {
            assert(forall|i: int| 0 <= i < d.len() ==> d[i] == b[i]);
            assert(all_dels(d));
            assert(!dels_of(d).contains(b.last().0@)) by {
                if dels_of(d).contains(b.last().0@) {
                    let i = choose|i: int|
                        0 <= i < d.len() && entry_key(#[trigger] d[i]) == b.last().0@ && d[i].1
                            is Delete;
                    assert(entry_key(b[i]) == entry_key(b[n]));
                }
            }
        }
        match b.last().1 {
            Op::Put(v) => {
                assert(puts_of(b) == puts_of(d).insert(b.last().0@, v@));
            },
            Op::Delete => {
                assert(dels_of(b) == dels_of(d).insert(b.last().0@));
            },
        }
    }
}

} // verus!
