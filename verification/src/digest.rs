//! The fixed-size digest carried by tree nodes: a 64-bit FNV-style fold over
//! a node's key, value and child digests.

use vstd::prelude::*;
use crate::bytes::be_bytes_of;

verus! {

/// One step of the digest: xor a byte in, then a wrapping multiply.
pub open spec fn mix(h: u64, b: u8) -> u64 {
    vstd::wrapping::u64_specs::wrapping_mul(h ^ (b as u64), 0x100000001b3)
}

/// Fold a byte sequence into the accumulator, front to back.
pub open spec fn mix_bytes(h: u64, s: Seq<u8>) -> u64
    decreases s.len(),
{
    if s.len() == 0 {
        h
    } else {
        mix_bytes(mix(h, s[0]), s.drop_first())
    }
}

/// Fold the eight big-endian bytes of a 64-bit integer in.
pub open spec fn mix_u64(h: u64, x: u64) -> u64 {
    mix_bytes(h, be_bytes_of(x))
}

/// The digest of a node: key length and bytes, value length and bytes, then
/// the two child digests. An absent child contributes the sentinel digest 0.
pub open spec fn node_digest(key: Seq<u8>, value: Seq<u8>, l: u64, r: u64) -> u64 {
    mix_u64(
        mix_u64(
            mix_bytes(mix_u64(mix_bytes(mix_u64(0xcbf29ce484222325, key.len() as u64), key),
                value.len() as u64), value),
            l,
        ),
        r,
    )
}

/// Fold a byte string into the accumulator.
pub fn mix_bytes_exec(h: u64, s: &Vec<u8>) -> (r: u64)
    ensures
        r == mix_bytes(h, s@),
{
    let mut acc = h;
    let mut i: usize = 0;
    proof {
        assert(s@.skip(0) =~= s@);
    }
    while i < s.len()
        invariant
            i <= s@.len(),
            mix_bytes(acc, s@.skip(i as int)) == mix_bytes(h, s@),
        decreases s@.len() - i,
    {
        proof {
            assert(s@.skip(i as int).drop_first() =~= s@.skip(i + 1));
            assert(s@.skip(i as int)[0] == s@[i as int]);
        }
        acc = (acc ^ (s[i] as u64)).wrapping_mul(0x100000001b3);
        i = i + 1;
    }
    proof {
        assert(s@.skip(s@.len() as int) =~= Seq::<u8>::empty());
    }
    acc
}

/// Fold the big-endian bytes of a 64-bit integer into the accumulator.
pub fn mix_u64_exec(h: u64, x: u64) -> (r: u64)
    ensures
        r == mix_u64(h, x),
{
    let bs = crate::bytes::u64_to_be(x);
    mix_bytes_exec(h, &bs)
}

/// Compute the digest of a node from its parts.
pub fn node_digest_exec(key: &Vec<u8>, value: &Vec<u8>, l: u64, r: u64) -> (d: u64)
    ensures
        d == node_digest(key@, value@, l, r),
{
    let mut acc = mix_u64_exec(0xcbf29ce484222325, key.len() as u64);
    acc = mix_bytes_exec(acc, key);
    acc = mix_u64_exec(acc, value.len() as u64);
    acc = mix_bytes_exec(acc, value);
    acc = mix_u64_exec(acc, l);
    acc = mix_u64_exec(acc, r);
    acc
}

} // verus!
