//! Fixed-width byte layouts of integers under either byte order.

use vstd::prelude::*;
use crate::config::Endianness;

verus! {

broadcast use vstd::seq::group_seq_axioms;

/// The two-byte layout of `v` under byte order `e`.
pub open spec fn u16_bytes(v: u16, e: Endianness) -> Seq<u8> {
    match e {
        Endianness::Little => vstd::bytes::spec_u16_to_le_bytes(v),
        Endianness::Big => vstd::bytes::spec_u16_to_le_bytes(v).reverse(),
    }
}

/// The four-byte layout of `v` under byte order `e`.
pub open spec fn u32_bytes(v: u32, e: Endianness) -> Seq<u8> {
    match e {
        Endianness::Little => vstd::bytes::spec_u32_to_le_bytes(v),
        Endianness::Big => vstd::bytes::spec_u32_to_le_bytes(v).reverse(),
    }
}

/// The eight-byte layout of `v` under byte order `e`.
pub open spec fn u64_bytes(v: u64, e: Endianness) -> Seq<u8> {
    match e {
        Endianness::Little => vstd::bytes::spec_u64_to_le_bytes(v),
        Endianness::Big => vstd::bytes::spec_u64_to_le_bytes(v).reverse(),
    }
}

/// Two-byte layouts are two bytes long, and distinct values get distinct
/// layouts.
pub proof fn lemma_u16_bytes(a: u16, b: u16, e: Endianness)
    ensures
        u16_bytes(a, e).len() == 2,
        u16_bytes(a, e) == u16_bytes(b, e) ==> a == b,
{
    vstd::bytes::lemma_auto_spec_u16_to_from_le_bytes();
    let xa = vstd::bytes::spec_u16_to_le_bytes(a);
    let xb = vstd::bytes::spec_u16_to_le_bytes(b);
    assert(xa.reverse().len() == 2);
    if u16_bytes(a, e) == u16_bytes(b, e) {
        assert forall|i: int| 0 <= i < 2 implies xa[i] == xb[i] by {
            assert(xa.reverse()[1 - i] == xa[i]);
            assert(xb.reverse()[1 - i] == xb[i]);
        }
        assert(xa =~= xb);
    }
}

/// Four-byte layouts are four bytes long, and distinct values get distinct
/// layouts.
pub proof fn lemma_u32_bytes(a: u32, b: u32, e: Endianness)
    ensures
        u32_bytes(a, e).len() == 4,
        u32_bytes(a, e) == u32_bytes(b, e) ==> a == b,
{
    vstd::bytes::lemma_auto_spec_u32_to_from_le_bytes();
    let xa = vstd::bytes::spec_u32_to_le_bytes(a);
    let xb = vstd::bytes::spec_u32_to_le_bytes(b);
    assert(xa.reverse().len() == 4);
    if u32_bytes(a, e) == u32_bytes(b, e) {
        assert forall|i: int| 0 <= i < 4 implies xa[i] == xb[i] by {
            assert(xa.reverse()[3 - i] == xa[i]);
            assert(xb.reverse()[3 - i] == xb[i]);
        }
        assert(xa =~= xb);
    }
}

/// Eight-byte layouts are eight bytes long, and distinct values get distinct
/// layouts.
pub proof fn lemma_u64_bytes(a: u64, b: u64, e: Endianness)
    ensures
        u64_bytes(a, e).len() == 8,
        u64_bytes(a, e) == u64_bytes(b, e) ==> a == b,
{
    vstd::bytes::lemma_auto_spec_u64_to_from_le_bytes();
    let xa = vstd::bytes::spec_u64_to_le_bytes(a);
    let xb = vstd::bytes::spec_u64_to_le_bytes(b);
    assert(xa.reverse().len() == 8);
    if u64_bytes(a, e) == u64_bytes(b, e) {
        assert forall|i: int| 0 <= i < 8 implies xa[i] == xb[i] by {
            assert(xa.reverse()[7 - i] == xa[i]);
            assert(xb.reverse()[7 - i] == xb[i]);
        }
        assert(xa =~= xb);
    }
}

/// Reversing twice gives the sequence back.
pub proof fn lemma_reverse_reverse(s: Seq<u8>)
    ensures
        s.reverse().reverse() == s,
{
    let r = s.reverse();
    assert(r.len() == s.len());
    assert forall|i: int| 0 <= i < s.len() implies r.reverse()[i] == s[i] by {
        assert(r.reverse()[i] == r[s.len() - 1 - i]);
        assert(r[s.len() - 1 - i] == s[i]);
    }
    assert(s.reverse().reverse() =~= s);
}

/// The bytes of `v`, in the opposite order.
pub fn reverse_bytes(v: Vec<u8>) -> (r: Vec<u8>)
    ensures
        r@ == v@.reverse(),
{
    let n = v.len();
    let mut r: Vec<u8> = Vec::new();
    let mut i: usize = n;
    while i > 0
        invariant
            i <= n,
            n == v@.len(),
            r@.len() + i == n,
            forall|k: int| 0 <= k < r@.len() ==> r@[k] == v@[n - 1 - k],
        decreases i,
    {
        i = i - 1;
        r.push(v[i]);
    }
    assert(r@ =~= v@.reverse());
    r
}

} // verus!
