//! Byte-string keys: lexicographic order, comparison, big-endian encoding.

use vstd::prelude::*;

verus! {

/// Strict byte-lexicographic order: a shorter prefix sorts before its
/// extensions, otherwise the first differing byte decides.
pub open spec fn lex_lt(a: Seq<u8>, b: Seq<u8>) -> bool
    decreases a.len(),
{
    if b.len() == 0 {
        false
    } else if a.len() == 0 {
        true
    } else if a[0] != b[0] {
        a[0] < b[0]
    } else {
        lex_lt(a.drop_first(), b.drop_first())
    }
}

pub open spec fn lex_le(a: Seq<u8>, b: Seq<u8>) -> bool {
    lex_lt(a, b) || a == b
}

/// The order is total: two byte strings compare one way, the other, or are equal.
pub proof fn lemma_lex_connected(a: Seq<u8>, b: Seq<u8>)
    ensures
        lex_lt(a, b) || lex_lt(b, a) || a == b,
    decreases a.len(),
{
    if b.len() == 0 {
        if a.len() == 0 {
            assert(a =~= b);
        }
    } else if a.len() == 0 {
    } else if a[0] != b[0] {
    } else {
        lemma_lex_connected(a.drop_first(), b.drop_first());
        if a.drop_first() == b.drop_first() {
            assert(a.drop_first().len() == b.drop_first().len());
            assert forall|i: int| 0 <= i < a.len() implies a[i] == b[i] by {
                if i > 0 {
                    assert(a[i] == a.drop_first()[i - 1]);
                    assert(b[i] == b.drop_first()[i - 1]);
                }
            }
            assert(a =~= b);
        }
    }
}

/// The order is asymmetric (hence also irreflexive).
pub proof fn lemma_lex_asym(a: Seq<u8>, b: Seq<u8>)
    ensures
        !(lex_lt(a, b) && lex_lt(b, a)),
    decreases a.len(),
{
    if b.len() == 0 || a.len() == 0 {
    } else if a[0] != b[0] {
    } else {
        lemma_lex_asym(a.drop_first(), b.drop_first());
    }
}

/// The order is transitive.
pub proof fn lemma_lex_trans(a: Seq<u8>, b: Seq<u8>, c: Seq<u8>)
    requires
        lex_lt(a, b),
        lex_lt(b, c),
    ensures
        lex_lt(a, c),
    decreases a.len(),
{
    if c.len() == 0 {
    } else if b.len() == 0 {
    } else if a.len() == 0 {
    } else {
        if a[0] == b[0] && b[0] == c[0] {
            lemma_lex_trans(a.drop_first(), b.drop_first(), c.drop_first());
        }
    }
}

/// Result of comparing two keys.
pub enum KeyOrder {
    Less,
    Equal,
    Greater,
}

/// Three-way lexicographic comparison of two byte strings.
pub fn compare_bytes(a: &Vec<u8>, b: &Vec<u8>) -> (r: KeyOrder)
    ensures
        (r is Less) == lex_lt(a@, b@),
        (r is Equal) == (a@ == b@),
        (r is Greater) == lex_lt(b@, a@),
{
    let alen = a.len();
    let blen = b.len();
    let mut i: usize = 0;
    proof {
        assert(a@.skip(0) =~= a@);
        assert(b@.skip(0) =~= b@);
    }
    while i < alen && i < blen
        invariant
            i <= alen,
            i <= blen,
            alen == a@.len(),
            blen == b@.len(),
            lex_lt(a@, b@) == lex_lt(a@.skip(i as int), b@.skip(i as int)),
            lex_lt(b@, a@) == lex_lt(b@.skip(i as int), a@.skip(i as int)),
            (a@ == b@) == (a@.skip(i as int) == b@.skip(i as int)),
        decreases alen - i,
    {
        let x = a[i];
        let y = b[i];
        if x < y {
            proof {
                assert(a@.skip(i as int)[0] == x);
                assert(lex_lt(a@.skip(i as int), b@.skip(i as int)));
                lemma_lex_asym(a@.skip(i as int), b@.skip(i as int));
                assert(a@.skip(i as int) != b@.skip(i as int));
            }
            return KeyOrder::Less;
        } else if y < x {
            proof {
                assert(a@.skip(i as int)[0] == x);
                assert(b@.skip(i as int)[0] == y);
                assert(lex_lt(b@.skip(i as int), a@.skip(i as int)));
                lemma_lex_asym(a@.skip(i as int), b@.skip(i as int));
                assert(a@.skip(i as int) != b@.skip(i as int));
            }
            return KeyOrder::Greater;
        }
        proof {
            assert(a@.skip(i as int).drop_first() =~= a@.skip(i + 1));
            assert(b@.skip(i as int).drop_first() =~= b@.skip(i + 1));
            assert((a@.skip(i as int) == b@.skip(i as int)) == (a@.skip(i + 1) == b@.skip(
                i + 1,
            ))) by {
                if a@.skip(i + 1) == b@.skip(i + 1) {
                    assert(a@.skip(i + 1).len() == b@.skip(i + 1).len());
                    assert forall|j: int|
                        0 <= j < a@.skip(i as int).len() implies a@.skip(i as int)[j] == b@.skip(
                        i as int,
                    )[j] by {
                        if j == 0 {
                            assert(a@.skip(i as int)[0] == a@[i as int]);
                            assert(b@.skip(i as int)[0] == b@[i as int]);
                        } else {
                            assert(a@.skip(i as int)[j] == a@.skip(i + 1)[j - 1]);
                            assert(b@.skip(i as int)[j] == b@.skip(i + 1)[j - 1]);
                        }
                    }
                    assert(a@.skip(i as int) =~= b@.skip(i as int));
                }
            }
        }
        i = i + 1;
    }
    if i == alen && i == blen {
        proof {
            assert(a@.skip(i as int) =~= b@.skip(i as int));
        }
        KeyOrder::Equal
    } else if i == alen {
        proof {
            assert(a@.skip(i as int).len() == 0);
            assert(b@.skip(i as int).len() > 0);
            assert(lex_lt(a@.skip(i as int), b@.skip(i as int)));
            lemma_lex_asym(a@.skip(i as int), b@.skip(i as int));
            assert(a@.skip(i as int) != b@.skip(i as int));
        }
        KeyOrder::Less
    } else {
        proof {
            assert(b@.skip(i as int).len() == 0);
            assert(a@.skip(i as int).len() > 0);
            assert(lex_lt(b@.skip(i as int), a@.skip(i as int)));
            lemma_lex_asym(a@.skip(i as int), b@.skip(i as int));
            assert(a@.skip(i as int) != b@.skip(i as int));
        }
        KeyOrder::Greater
    }
}

/// Copy a byte string.
pub fn copy_bytes(v: &Vec<u8>) -> (r: Vec<u8>)
    ensures
        r@ == v@,
{
    let mut r: Vec<u8> = Vec::new();
    let mut i: usize = 0;
    while i < v.len()
        invariant
            i <= v@.len(),
            r@ == v@.subrange(0, i as int),
        decreases v@.len() - i,
    {
        r.push(v[i]);
        i = i + 1;
        proof {
            assert(r@ =~= v@.subrange(0, i as int));
        }
    }
    proof {
        assert(v@.subrange(0, v@.len() as int) =~= v@);
    }
    r
}

/// The eight bytes of a 64-bit integer, most significant first.
pub open spec fn be_bytes_of(n: u64) -> Seq<u8> {
    seq![
        (n >> 56) as u8,
        (n >> 48) as u8,
        (n >> 40) as u8,
        (n >> 32) as u8,
        (n >> 24) as u8,
        (n >> 16) as u8,
        (n >> 8) as u8,
        n as u8,
    ]
}

/// Encode a 64-bit integer as eight big-endian bytes.
pub fn u64_to_be(n: u64) -> (r: Vec<u8>)
    ensures
        r@ == be_bytes_of(n),
{
    let mut r: Vec<u8> = Vec::new();
    r.push((n >> 56) as u8);
    r.push((n >> 48) as u8);
    r.push((n >> 40) as u8);
    r.push((n >> 32) as u8);
    r.push((n >> 24) as u8);
    r.push((n >> 16) as u8);
    r.push((n >> 8) as u8);
    r.push(n as u8);
    proof {
        assert(r@ =~= be_bytes_of(n));
    }
    r
}

/// If two equally long byte strings agree before position `j` and differ
/// there in favour of the first, the first sorts earlier.
pub proof fn lemma_lex_from_index(a: Seq<u8>, b: Seq<u8>, j: int)
    requires
        a.len() == b.len(),
        0 <= j < a.len(),
        forall|i: int| 0 <= i < j ==> a[i] == b[i],
        a[j] < b[j],
    ensures
        lex_lt(a, b),
    decreases j,
{
    if j == 0 {
        assert(lex_lt(a, b));
    } else {
        assert(forall|i: int|
            0 <= i < j - 1 ==> a.drop_first()[i] == b.drop_first()[i]);
        lemma_lex_from_index(a.drop_first(), b.drop_first(), j - 1);
        assert(lex_lt(a, b));
    }
}

/// Big-endian encoding respects the numeric order.
pub proof fn lemma_be_order(n: u64, m: u64)
    requires
        n < m,
    ensures
        lex_lt(be_bytes_of(n), be_bytes_of(m)),
{
    let a = be_bytes_of(n);
    let b = be_bytes_of(m);
    if (n >> 56) as u8 != (m >> 56) as u8 {
        assert(((n >> 56) as u8) < ((m >> 56) as u8)) by (bit_vector)
            requires
                n < m,
                (n >> 56) as u8 != (m >> 56) as u8,
        ;
        lemma_lex_from_index(a, b, 0);
    } else if (n >> 48) as u8 != (m >> 48) as u8 {
        assert(((n >> 48) as u8) < ((m >> 48) as u8)) by (bit_vector)
            requires
                n < m,
                (n >> 56) as u8 == (m >> 56) as u8,
                (n >> 48) as u8 != (m >> 48) as u8,
        ;
        lemma_lex_from_index(a, b, 1);
    } else if (n >> 40) as u8 != (m >> 40) as u8 {
        assert(((n >> 40) as u8) < ((m >> 40) as u8)) by (bit_vector)
            requires
                n < m,
                (n >> 56) as u8 == (m >> 56) as u8,
                (n >> 48) as u8 == (m >> 48) as u8,
                (n >> 40) as u8 != (m >> 40) as u8,
        ;
        lemma_lex_from_index(a, b, 2);
    } else if (n >> 32) as u8 != (m >> 32) as u8 {
        assert(((n >> 32) as u8) < ((m >> 32) as u8)) by (bit_vector)
            requires
                n < m,
                (n >> 56) as u8 == (m >> 56) as u8,
                (n >> 48) as u8 == (m >> 48) as u8,
                (n >> 40) as u8 == (m >> 40) as u8,
                (n >> 32) as u8 != (m >> 32) as u8,
        ;
        lemma_lex_from_index(a, b, 3);
    } else if (n >> 24) as u8 != (m >> 24) as u8 {
        assert(((n >> 24) as u8) < ((m >> 24) as u8)) by (bit_vector)
            requires
                n < m,
                (n >> 56) as u8 == (m >> 56) as u8,
                (n >> 48) as u8 == (m >> 48) as u8,
                (n >> 40) as u8 == (m >> 40) as u8,
                (n >> 32) as u8 == (m >> 32) as u8,
                (n >> 24) as u8 != (m >> 24) as u8,
        ;
        lemma_lex_from_index(a, b, 4);
    } else if (n >> 16) as u8 != (m >> 16) as u8 {
        assert(((n >> 16) as u8) < ((m >> 16) as u8)) by (bit_vector)
            requires
                n < m,
                (n >> 56) as u8 == (m >> 56) as u8,
                (n >> 48) as u8 == (m >> 48) as u8,
                (n >> 40) as u8 == (m >> 40) as u8,
                (n >> 32) as u8 == (m >> 32) as u8,
                (n >> 24) as u8 == (m >> 24) as u8,
                (n >> 16) as u8 != (m >> 16) as u8,
        ;
        lemma_lex_from_index(a, b, 5);
    } else if (n >> 8) as u8 != (m >> 8) as u8 {
        assert(((n >> 8) as u8) < ((m >> 8) as u8)) by (bit_vector)
            requires
                n < m,
                (n >> 56) as u8 == (m >> 56) as u8,
                (n >> 48) as u8 == (m >> 48) as u8,
                (n >> 40) as u8 == (m >> 40) as u8,
                (n >> 32) as u8 == (m >> 32) as u8,
                (n >> 24) as u8 == (m >> 24) as u8,
                (n >> 16) as u8 == (m >> 16) as u8,
                (n >> 8) as u8 != (m >> 8) as u8,
        ;
        lemma_lex_from_index(a, b, 6);
    } else {
        assert((n as u8) < (m as u8)) by (bit_vector)
            requires
                n < m,
                (n >> 56) as u8 == (m >> 56) as u8,
                (n >> 48) as u8 == (m >> 48) as u8,
                (n >> 40) as u8 == (m >> 40) as u8,
                (n >> 32) as u8 == (m >> 32) as u8,
                (n >> 24) as u8 == (m >> 24) as u8,
                (n >> 16) as u8 == (m >> 16) as u8,
                (n >> 8) as u8 == (m >> 8) as u8,
        ;
        lemma_lex_from_index(a, b, 7);
    }
}

} // verus!
