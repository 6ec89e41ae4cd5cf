//! Little-endian 32-bit fields, the only integer encoding of the archive format.
use vstd::prelude::*;

verus! {

/// The four bytes of `v`, least significant first.
pub open spec fn u32_le(v: u32) -> Seq<u8> {
    seq![
        (v % 256) as u8,
        ((v / 256) % 256) as u8,
        ((v / 65536) % 256) as u8,
        (v / 16777216) as u8,
    ]
}

/// The value of the four bytes of `s` that start at `off`, least significant first.
pub open spec fn read_u32_le(s: Seq<u8>, off: int) -> u32 {
    (s[off] as int + 256 * s[off + 1] as int + 65536 * s[off + 2] as int + 16777216 * s[off
        + 3] as int) as u32
}

/// Reading back the four bytes of `v` gives `v`.
pub proof fn lemma_u32_le_round_trip(v: u32)
    ensures
        read_u32_le(u32_le(v), 0) == v,
{
    let s = u32_le(v);
    let x = v as int;
    assert(x == x % 256 + 256 * ((x / 256) % 256) + 65536 * ((x / 65536) % 256) + 16777216 * (x
        / 16777216)) by (nonlinear_arith)
        requires
            0 <= x < 0x1_0000_0000,
    ;
}

/// Appends the little-endian bytes of `v`.
pub fn push_u32_le(out: &mut Vec<u8>, v: u32)
    ensures
        final(out)@ == old(out)@ + u32_le(v),
{
    out.push((v % 256) as u8);
    out.push(((v / 256) % 256) as u8);
    out.push(((v / 65536) % 256) as u8);
    out.push((v / 16777216) as u8);
    assert(final(out)@ =~= old(out)@ + u32_le(v));
}

/// Reads a little-endian `u32` at `off`.
pub fn get_u32_le(s: &[u8], off: usize) -> (r: u32)
    requires
        off + 4 <= s@.len(),
    ensures
        r == read_u32_le(s@, off as int),
{
    let b0 = s[off] as u32;
    let b1 = s[off + 1] as u32;
    let b2 = s[off + 2] as u32;
    let b3 = s[off + 3] as u32;
    b0 + 256 * b1 + 65536 * b2 + 16777216 * b3
}

} // verus!
