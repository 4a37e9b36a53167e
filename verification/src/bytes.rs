//! Little-endian integer fields, section tags, zero padding and the format's
//! alignment rules, at both the specification and the executable level.

use vstd::prelude::*;

verus! {

/// The little-endian u32 value of the four bytes starting at index `i`.
pub open spec fn u32_at(b: Seq<u8>, i: int) -> u32
    recommends
        0 <= i,
        i + 4 <= b.len(),
{
    (b[i] + b[i + 1] * 0x100 + b[i + 2] * 0x10000 + b[i + 3] * 0x1000000) as u32
}

/// The four bytes of `x` in little-endian order.
pub open spec fn u32_le(x: u32) -> Seq<u8> {
    seq![
        (x % 0x100) as u8,
        ((x / 0x100) % 0x100) as u8,
        ((x / 0x10000) % 0x100) as u8,
        ((x / 0x1000000) % 0x100) as u8,
    ]
}

/// The eight bytes of `x` in little-endian order.
pub open spec fn u64_le(x: u64) -> Seq<u8> {
    seq![
        (x % 0x100) as u8,
        ((x / 0x100) % 0x100) as u8,
        ((x / 0x10000) % 0x100) as u8,
        ((x / 0x1000000) % 0x100) as u8,
        ((x / 0x100000000) % 0x100) as u8,
        ((x / 0x10000000000) % 0x100) as u8,
        ((x / 0x1000000000000) % 0x100) as u8,
        ((x / 0x100000000000000) % 0x100) as u8,
    ]
}

/// Reading back the four little-endian bytes of `x` yields `x`.
pub proof fn lemma_u32_le_at(x: u32)
    ensures
        u32_le(x).len() == 4,
        u32_at(u32_le(x), 0) == x,
{
    assert(x == (x % 0x100) + ((x / 0x100) % 0x100) * 0x100 + ((x / 0x10000) % 0x100) * 0x10000
        + ((x / 0x1000000) % 0x100) * 0x1000000) by (bit_vector);
}

/// `n` zero bytes.
pub open spec fn zeros(n: int) -> Seq<u8>
    recommends
        n >= 0,
{
    Seq::new(n as nat, |i| 0u8)
}

/// The payload length rounded up to the next 16-byte multiple.
pub open spec fn pad16(len: int) -> int {
    ((len + 15) / 16) * 16
}

pub proof fn lemma_pad16(len: int)
    requires
        len >= 0,
    ensures
        pad16(len) >= len,
        pad16(len) < len + 16,
        pad16(len) % 16 == 0,
{
}

/// Zero bytes inserted so that the position right after them satisfies the
/// format's fixed alignment convention for the start of the pack payload.
pub open spec fn pad_amount(offset: int) -> int
    recommends
        offset >= 0,
{
    (0x18 - (offset % 0x10)) % 0x10
}

/// Padding needed after byte position `offset` so that the pack payload
/// starts on the format's fixed alignment boundary.
pub fn get_padding_amount(offset: usize) -> (r: usize)
    ensures
        r == pad_amount(offset as int),
        r < 0x10,
{
    (0x18 - (offset % 0x10)) % 0x10
}

pub open spec fn nus3_tag() -> Seq<u8> {
    seq![0x4eu8, 0x55u8, 0x53u8, 0x33u8]
}

pub open spec fn audiindx_tag() -> Seq<u8> {
    seq![0x41u8, 0x55u8, 0x44u8, 0x49u8, 0x49u8, 0x4eu8, 0x44u8, 0x58u8]
}

pub open spec fn tnid_tag() -> Seq<u8> {
    seq![0x54u8, 0x4eu8, 0x49u8, 0x44u8]
}

pub open spec fn nmof_tag() -> Seq<u8> {
    seq![0x4eu8, 0x4du8, 0x4fu8, 0x46u8]
}

pub open spec fn adof_tag() -> Seq<u8> {
    seq![0x41u8, 0x44u8, 0x4fu8, 0x46u8]
}

pub open spec fn tnnm_tag() -> Seq<u8> {
    seq![0x54u8, 0x4eu8, 0x4eu8, 0x4du8]
}

pub open spec fn junk_tag() -> Seq<u8> {
    seq![0x4au8, 0x55u8, 0x4eu8, 0x4bu8]
}

pub open spec fn pack_tag() -> Seq<u8> {
    seq![0x50u8, 0x41u8, 0x43u8, 0x4bu8]
}

/// Append the four given bytes.
pub fn push4(f: &mut Vec<u8>, a: u8, b: u8, c: u8, d: u8)
    ensures
        final(f)@ == old(f)@ + seq![a, b, c, d],
{
    f.push(a);
    f.push(b);
    f.push(c);
    f.push(d);
    proof {
        assert(f@ =~= old(f)@ + seq![a, b, c, d]);
    }
}

/// Append the four little-endian bytes of `x`.
pub fn push_u32_le(f: &mut Vec<u8>, x: u32)
    ensures
        final(f)@ == old(f)@ + u32_le(x),
{
    f.push((x % 0x100) as u8);
    f.push(((x / 0x100) % 0x100) as u8);
    f.push(((x / 0x10000) % 0x100) as u8);
    f.push(((x / 0x1000000) % 0x100) as u8);
    proof {
        assert(f@ =~= old(f)@ + u32_le(x));
    }
}

/// Append the eight little-endian bytes of `x`.
pub fn push_u64_le(f: &mut Vec<u8>, x: u64)
    ensures
        final(f)@ == old(f)@ + u64_le(x),
{
    f.push((x % 0x100) as u8);
    f.push(((x / 0x100) % 0x100) as u8);
    f.push(((x / 0x10000) % 0x100) as u8);
    f.push(((x / 0x1000000) % 0x100) as u8);
    f.push(((x / 0x100000000) % 0x100) as u8);
    f.push(((x / 0x10000000000) % 0x100) as u8);
    f.push(((x / 0x1000000000000) % 0x100) as u8);
    f.push(((x / 0x100000000000000) % 0x100) as u8);
    proof {
        assert(f@ =~= old(f)@ + u64_le(x));
    }
}

/// Append `n` zero bytes.
pub fn push_zeros(f: &mut Vec<u8>, n: usize)
    ensures
        final(f)@ == old(f)@ + zeros(n as int),
{
    let mut i: usize = 0;
    while i < n
        invariant
            i <= n,
            f@ == old(f)@ + zeros(i as int),
        decreases n - i,
    {
        f.push(0u8);
        i = i + 1;
        proof {
            assert(f@ =~= old(f)@ + zeros(i as int));
        }
    }
}

/// Append a copy of the given bytes.
pub fn push_slice(f: &mut Vec<u8>, s: &[u8])
    ensures
        final(f)@ == old(f)@ + s@,
{
    let mut i: usize = 0;
    while i < s.len()
        invariant
            i <= s@.len(),
            f@ == old(f)@ + s@.subrange(0, i as int),
        decreases s@.len() - i,
    {
        f.push(s[i]);
        i = i + 1;
        proof {
            assert(f@ =~= old(f)@ + s@.subrange(0, i as int));
        }
    }
    proof {
        assert(s@.subrange(0, s@.len() as int) =~= s@);
    }
}

/// The little-endian u32 value of the four bytes at `i`.
pub fn read_u32_at(b: &[u8], i: usize) -> (r: u32)
    requires
        i + 4 <= b@.len(),
    ensures
        r == u32_at(b@, i as int),
{
    (b[i] as u32) + (b[i + 1] as u32) * 0x100 + (b[i + 2] as u32) * 0x10000 + (b[i + 3] as u32)
        * 0x1000000
}

} // verus!
