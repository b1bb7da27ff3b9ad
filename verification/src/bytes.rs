//! Big-endian 32-bit fields as they appear on the wire.

use vstd::prelude::*;
use vstd::slice::slice_index_get;

verus! {

/// The 32-bit value stored in four big-endian bytes.
pub open spec fn be32(b: Seq<u8>) -> u32
    recommends
        b.len() == 4,
{
    ((b[0] as u32) << 24) | ((b[1] as u32) << 16) | ((b[2] as u32) << 8) | (b[3] as u32)
}

/// The four big-endian bytes that store a 32-bit value.
pub open spec fn u32_be(x: u32) -> Seq<u8> {
    seq![(x >> 24) as u8, (x >> 16) as u8, (x >> 8) as u8, x as u8]
}

/// Writing a value and reading the four bytes back gives the value again.
pub proof fn lemma_u32_be_be32(x: u32)
    ensures
        u32_be(x).len() == 4,
        be32(u32_be(x)) == x,
{
    assert((((x >> 24) as u8 as u32) << 24) | (((x >> 16) as u8 as u32) << 16) | (((x
        >> 8) as u8 as u32) << 8) | (x as u8 as u32) == x) by (bit_vector);
}

/// Reading four bytes and writing the value back gives the bytes again; so
/// two different byte quadruples never store the same 32-bit value.
pub proof fn lemma_be32_u32_be(b: Seq<u8>)
    requires
        b.len() == 4,
    ensures
        u32_be(be32(b)) == b,
{
    let b0 = b[0];
    let b1 = b[1];
    let b2 = b[2];
    let b3 = b[3];
    assert(((((b0 as u32) << 24) | ((b1 as u32) << 16) | ((b2 as u32) << 8) | (b3 as u32)) >> 24)
        as u8 == b0) by (bit_vector);
    assert(((((b0 as u32) << 24) | ((b1 as u32) << 16) | ((b2 as u32) << 8) | (b3 as u32)) >> 16)
        as u8 == b1) by (bit_vector);
    assert(((((b0 as u32) << 24) | ((b1 as u32) << 16) | ((b2 as u32) << 8) | (b3 as u32)) >> 8)
        as u8 == b2) by (bit_vector);
    assert(((((b0 as u32) << 24) | ((b1 as u32) << 16) | ((b2 as u32) << 8) | (b3 as u32)) as u8)
        == b3) by (bit_vector);
    assert(u32_be(be32(b)) =~= b);
}

/// Reads the big-endian 32-bit field that starts at index `at`.
pub fn read_be32(b: &[u8], at: usize) -> (r: u32)
    requires
        at + 4 <= b@.len(),
    ensures
        r == be32(b@.subrange(at as int, at as int + 4)),
{
    let n = b.len();
    assert(at + 4 <= n);
    let x0 = *slice_index_get(b, at) as u32;
    let x1 = *slice_index_get(b, at + 1) as u32;
    let x2 = *slice_index_get(b, at + 2) as u32;
    let x3 = *slice_index_get(b, at + 3) as u32;
    let r = (x0 << 24) | (x1 << 16) | (x2 << 8) | x3;
    proof {
        let s = b@.subrange(at as int, at as int + 4);
        assert(s[0] == b@[at as int] && s[1] == b@[at as int + 1] && s[2] == b@[at as int + 2]
            && s[3] == b@[at as int + 3]);
    }
    r
}

/// Appends the four big-endian bytes of `x` to `out`.
pub fn push_be32(out: &mut Vec<u8>, x: u32)
    ensures
        final(out)@ == old(out)@ + u32_be(x),
{
    out.push((x >> 24) as u8);
    out.push((x >> 16) as u8);
    out.push((x >> 8) as u8);
    out.push(x as u8);
    proof {
        assert(out@ =~= old(out)@ + u32_be(x));
    }
}

} // verus!
