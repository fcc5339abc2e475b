//! Byte-string helpers: network-order integers, prefixes, copies.

use vstd::prelude::*;

verus! {

/// Network-order (big-endian) bytes of a 16-bit value.
pub open spec fn be16(x: u16) -> Seq<u8> {
    seq![(x / 256) as u8, (x % 256) as u8]
}

/// Network-order (big-endian) bytes of a 32-bit value.
pub open spec fn be32(x: u32) -> Seq<u8> {
    seq![
        (x / 16777216) as u8,
        ((x / 65536) % 256) as u8,
        ((x / 256) % 256) as u8,
        (x % 256) as u8,
    ]
}

/// The 16-bit value whose big-endian bytes start at `i`.
pub open spec fn val16(b: Seq<u8>, i: int) -> int {
    b[i] * 256 + b[i + 1]
}

/// The 32-bit value whose big-endian bytes start at `i`.
pub open spec fn val32(b: Seq<u8>, i: int) -> int {
    b[i] * 16777216 + b[i + 1] * 65536 + b[i + 2] * 256 + b[i + 3]
}

/// Whether `b` begins with `p`.
pub open spec fn has_prefix(b: Seq<u8>, p: Seq<u8>) -> bool {
    p.len() <= b.len() && b.subrange(0, p.len() as int) == p
}

/// Appends a copy of `s` to `out`.
pub fn append(out: &mut Vec<u8>, s: &[u8])
    ensures
        final(out)@ == old(out)@ + s@,
{
    out.extend_from_slice(s);
    assert(out@ =~= old(out)@ + s@);
}

/// An owned copy of `b[from..to]`.
pub fn copy_range(b: &[u8], from: usize, to: usize) -> (r: Vec<u8>)
    requires
        from <= to <= b.len(),
    ensures
        r@ == b@.subrange(from as int, to as int),
{
    vstd::slice::slice_to_vec(vstd::slice::slice_subrange(b, from, to))
}

/// Appends `x` in network order.
pub fn push_be16(out: &mut Vec<u8>, x: u16)
    ensures
        final(out)@ == old(out)@ + be16(x),
{
    out.push((x / 256) as u8);
    out.push((x % 256) as u8);
    assert(out@ =~= old(out)@ + be16(x));
}

/// Appends `x` in network order.
pub fn push_be32(out: &mut Vec<u8>, x: u32)
    ensures
        final(out)@ == old(out)@ + be32(x),
{
    out.push((x / 16777216) as u8);
    out.push(((x / 65536) % 256) as u8);
    out.push(((x / 256) % 256) as u8);
    out.push((x % 256) as u8);
    assert(out@ =~= old(out)@ + be32(x));
}

/// Reads the network-order 16-bit value at `i`.
pub fn get_be16(b: &[u8], i: usize) -> (r: u16)
    requires
        i + 2 <= b.len(),
    ensures
        r == val16(b@, i as int),
{
    (b[i] as u16) * 256 + b[i + 1] as u16
}

/// Reads the network-order 32-bit value at `i`.
pub fn get_be32(b: &[u8], i: usize) -> (r: u32)
    requires
        i + 4 <= b.len(),
    ensures
        r == val32(b@, i as int),
{
    (b[i] as u32) * 16777216 + (b[i + 1] as u32) * 65536 + (b[i + 2] as u32) * 256 + b[i + 3] as u32
}

/// The value of the four bytes at `i`, lowest first.
pub open spec fn val32_le(b: Seq<u8>, i: int) -> int {
    b[i] + b[i + 1] * 256 + b[i + 2] * 65536 + b[i + 3] * 16777216
}

/// The value of the four bytes at `i`, lowest first.
pub fn get_le32(b: &[u8], i: usize) -> (r: u32)
    requires
        i + 4 <= b.len(),
    ensures
        r == val32_le(b@, i as int),
{
    b[i] as u32 + b[i + 1] as u32 * 256 + b[i + 2] as u32 * 65536 + b[i + 3] as u32 * 16777216
}

/// Whether two byte strings are equal.
pub fn bytes_eq(a: &[u8], b: &[u8]) -> (r: bool)
    ensures
        r == (a@ == b@),
{
    if a.len() != b.len() {
        return false;
    }
    let mut i: usize = 0;
    while i < a.len()
        invariant
            a.len() == b.len(),
            i <= a.len(),
            forall|j: int| 0 <= j < i ==> a@[j] == b@[j],
        decreases a.len() - i,
    {
        if a[i] != b[i] {
            return false;
        }
        i += 1;
    }
    assert(a@ =~= b@);
    true
}

/// Whether `b` begins with `p`.
pub fn starts_with(b: &[u8], p: &[u8]) -> (r: bool)
    ensures
        r == has_prefix(b@, p@),
{
    if b.len() < p.len() {
        return false;
    }
    bytes_eq(vstd::slice::slice_subrange(b, 0, p.len()), p)
}

/// Two bytes read as a value give themselves back.
pub proof fn lemma_val16_be16(b: Seq<u8>, i: int)
    requires
        0 <= i <= b.len() - 2,
    ensures
        0 <= val16(b, i) <= u16::MAX,
        be16(val16(b, i) as u16) == b.subrange(i, i + 2),
{
    assert(be16(val16(b, i) as u16) =~= b.subrange(i, i + 2));
}

/// Four bytes read as a value give themselves back.
pub proof fn lemma_val32_be32(b: Seq<u8>, i: int)
    requires
        0 <= i <= b.len() - 4,
    ensures
        0 <= val32(b, i) <= u32::MAX,
        be32(val32(b, i) as u32) == b.subrange(i, i + 4),
{
    let v = val32(b, i);
    let (b0, b1, b2, b3) = (b[i] as int, b[i + 1] as int, b[i + 2] as int, b[i + 3] as int);
    assert(v / 256 == b0 * 65536 + b1 * 256 + b2 && v % 256 == b3);
    assert(v / 65536 == b0 * 256 + b1);
    assert(v / 16777216 == b0);
    assert((v / 256) % 256 == b2);
    assert((v / 65536) % 256 == b1);
    assert(be32(v as u32) =~= b.subrange(i, i + 4));
}

/// Law: network order puts the high byte first, for values of two bytes and of
/// four, and reading gives back what was written; the other order is the same
/// bytes from behind.
pub proof fn law_network_order(x: u16, y: u32)
    ensures
        be16(x).len() == 2,
        be16(x)[0] * 256 + be16(x)[1] == x,
        be32(y).len() == 4,
        be32(y)[0] * 16777216 + be32(y)[1] * 65536 + be32(y)[2] * 256 + be32(y)[3] == y,
        val16(be16(x), 0) == x,
        val32(be32(y), 0) == y,
        val32_le(be32(y).reverse(), 0) == y,
{
}

} // verus!
