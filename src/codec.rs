//! The two payload codecs of the format, used through their crates.
use vstd::prelude::*;
use crate::bpe_stream::bpe_decodable;

verus! {

/// What bpe_rs::bpe::encode makes of a byte sequence.
pub uninterp spec fn bpe_encoded(data: Seq<u8>) -> Seq<u8>;

/// What bpe_rs::bpe::decode, at its recommended stack size, makes of a byte sequence.
pub uninterp spec fn bpe_decoded(data: Seq<u8>) -> Seq<u8>;

/// What nintendo_lz::compress, at level LZ10, writes for a byte sequence.
pub uninterp spec fn lz10_framed(data: Seq<u8>) -> Seq<u8>;

/// What nintendo_lz::decompress_arr returns for a framed stream (`None` for its error).
pub uninterp spec fn lz10_decompressed(framed: Seq<u8>) -> Option<Seq<u8>>;

/// Relies on bpe_rs::bpe::encode: the encoding depends on the input bytes alone.
#[verifier::external_body]
pub(crate) fn bpe_encode(data: &[u8]) -> (r: Vec<u8>)
    ensures
        r@ == bpe_encoded(data@),
{
    bpe_rs::bpe::encode(data)
}

/// Relies on bpe_rs::bpe::decode with bpe_rs::bpe::DEFAULT_STACK_SIZE: the output depends on
/// the input bytes alone. It panics on an incomplete block, a pair table that runs past code
/// 255, or pairs nested deeper than its stack, which `bpe_decodable` leaves out.
#[verifier::external_body]
pub(crate) fn bpe_decode(data: &[u8]) -> (r: Vec<u8>)
    requires
        bpe_decodable(data@),
    ensures
        r@ == bpe_decoded(data@),
{
    bpe_rs::bpe::decode(data, bpe_rs::bpe::DEFAULT_STACK_SIZE)
}

/// Relies on nintendo_lz::compress at CompressionLevel::LZ10, writing into a vector. For an
/// input under 16 MiB it writes a 4-byte header first: the tag 0x10 and the input length.
#[verifier::external_body]
pub(crate) fn lz10_compress(data: &[u8]) -> (r: Option<Vec<u8>>)
    requires
        data@.len() < 0x100_0000,
    ensures
        r matches Some(v) ==> v@ == lz10_framed(data@) && v@.len() >= 4 && v@[0] == 0x10,
{
    let mut out: Vec<u8> = Vec::new();
    let res = {
        let mut writer = std::io::Cursor::new(&mut out);
        nintendo_lz::compress(data, &mut writer, nintendo_lz::CompressionLevel::LZ10)
    };
    match res {
        Ok(()) => Some(out),
        Err(_) => None,
    }
}

/// The output length that the 4-byte header of an LZ10 stream declares.
pub open spec fn lz10_declared_len(framed: Seq<u8>) -> int {
    framed[1] + 256 * framed[2] + 65536 * framed[3]
}

/// Whether the LZ10 decoder of nintendo_lz, reading `s` at `pos` with `produced` of `target`
/// bytes written and `bits` flag bits left in `flags` (next bit first), never copies from
/// before the start of its output. Running out of input ends the walk: the decoder then
/// returns an error.
pub open spec fn lz10_refs_in_range(
    s: Seq<u8>,
    pos: int,
    produced: int,
    target: int,
    bits: int,
    flags: int,
) -> bool
    decreases s.len() - pos,
{
    if produced >= target || pos >= s.len() {
        true
    } else if bits <= 0 {
        lz10_refs_in_range(s, pos + 1, produced, target, 8, s[pos] as int)
    } else if flags / 128 % 2 == 0 {
        lz10_refs_in_range(s, pos + 1, produced + 1, target, bits - 1, flags * 2 % 256)
    } else if pos + 1 >= s.len() {
        true
    } else if (s[pos] % 16) as int * 256 + s[pos + 1] as int + 1 > produced {
        false
    } else {
        lz10_refs_in_range(
            s,
            pos + 2,
            produced + s[pos] / 16 + 3,
            target,
            bits - 1,
            flags * 2 % 256,
        )
    }
}

/// A stream that nintendo_lz decodes as LZ10 without panicking.
pub open spec fn lz10_decodable(framed: Seq<u8>) -> bool {
    &&& framed.len() >= 4
    &&& framed[0] == 0x10
    &&& lz10_refs_in_range(framed, 4, 0, lz10_declared_len(framed), 0, 0)
}

/// Whether the LZ10 decoder can read `framed` without panicking.
pub fn lz10_check(framed: &[u8]) -> (r: bool)
    ensures
        r == lz10_decodable(framed@),
{
    let len = framed.len();
    if len < 4 || framed[0] != 0x10 {
        return false;
    }
    let target: u64 = framed[1] as u64 + 256 * (framed[2] as u64) + 65536 * (framed[3] as u64);
    let mut pos: usize = 4;
    let mut produced: u64 = 0;
    let mut bits: u64 = 0;
    let mut flags: u64 = 0;
    while produced < target && pos < len
        invariant
            len == framed@.len(),
            framed@[0] == 0x10,
            4 <= pos <= len,
            target == lz10_declared_len(framed@),
            target < 0x100_0000,
            produced < target + 19,
            bits <= 8,
            flags < 256,
            lz10_refs_in_range(framed@, pos as int, produced as int, target as int, bits as int, flags as int)
                == lz10_refs_in_range(framed@, 4, 0, target as int, 0, 0),
        decreases len - pos,
    {
        if bits == 0 {
            flags = framed[pos] as u64;
            bits = 8;
            pos = pos + 1;
        } else if flags / 128 % 2 == 0 {
            produced = produced + 1;
            bits = bits - 1;
            flags = flags * 2 % 256;
            pos = pos + 1;
        } else if pos + 1 >= len {
            assert(lz10_refs_in_range(
                framed@,
                pos as int,
                produced as int,
                target as int,
                bits as int,
                flags as int,
            ));
            return true;
        } else {
            let disp = (framed[pos] % 16) as u64 * 256 + framed[pos + 1] as u64;
            if disp + 1 > produced {
                return false;
            }
            produced = produced + (framed[pos] / 16) as u64 + 3;
            bits = bits - 1;
            flags = flags * 2 % 256;
            pos = pos + 2;
        }
    }
    true
}

/// Relies on nintendo_lz::decompress_arr: its result depends on the framed stream alone; its
/// error becomes `None`. It panics on a back-reference that reaches before the start of its
/// output, which `lz10_decodable` leaves out.
#[verifier::external_body]
pub(crate) fn lz10_decompress(framed: &[u8]) -> (r: Option<Vec<u8>>)
    requires
        lz10_decodable(framed@),
    ensures
        match r {
            Some(v) => lz10_decompressed(framed@) == Some(v@),
            None => lz10_decompressed(framed@) is None,
        },
{
    match nintendo_lz::decompress_arr(framed) {
        Ok(v) => Some(v),
        Err(_) => None,
    }
}

} // verus!
