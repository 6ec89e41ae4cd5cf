//! The archive's byte layout, as mathematical sequences.
use vstd::prelude::*;
use crate::le::{u32_le, read_u32_le};
use crate::bpe_stream::bpe_decodable;
use crate::codec::{bpe_decoded, bpe_encoded, lz10_decodable, lz10_decompressed, lz10_framed};
use crate::gfarch::{CompressionType, GFCPOffset, GfArchError, Version};

verus! {

/// One entry as the writer sees it: the name's bytes and the contents.
pub type EntryModel = (Seq<u8>, Seq<u8>);

pub const HEADER_SIZE: u64 = 0x30;

pub const GFCP_HEADER_SIZE: u64 = 0x14;

/// Name offsets keep 24 bits; the top byte holds flags.
pub const NAME_OFFSET_LIMIT: u64 = 0x100_0000;

pub const LAST_ENTRY_FLAG: u32 = 0x8000_0000;

pub open spec fn round16(n: int) -> int {
    (n + 15) / 16 * 16
}

pub open spec fn zeros(n: int) -> Seq<u8> {
    Seq::new(n as nat, |i: int| 0u8)
}

pub open spec fn magic_gfac() -> Seq<u8> {
    seq![0x47u8, 0x46u8, 0x41u8, 0x43u8]
}

pub open spec fn magic_gfcp() -> Seq<u8> {
    seq![0x47u8, 0x46u8, 0x43u8, 0x50u8]
}

pub open spec fn version_code(v: Version) -> u32 {
    match v {
        Version::V2 => 0x0200,
        Version::V3 => 0x0300,
        Version::V3_1 => 0x0301,
    }
}

pub open spec fn compression_code(c: CompressionType) -> u32 {
    match c {
        CompressionType::BPE => 1,
        CompressionType::LZ10 => 3,
    }
}

/// A name is stored as its characters, one byte each.
pub open spec fn name_bytes(name: Seq<char>) -> Seq<u8> {
    name.map_values(|c: char| c as u8)
}

/// A name that can be stored: ASCII without NUL.
pub open spec fn storable_name(name: Seq<char>) -> bool {
    forall|j: int| 0 <= j < name.len() ==> '\u{1}' <= #[trigger] name[j] <= '\u{7f}'
}

/// Contents followed by zeros up to the next multiple of 16.
pub open spec fn padded(c: Seq<u8>) -> Seq<u8> {
    c + zeros(round16(c.len() as int) - c.len())
}

/// All contents, each padded to 16 bytes, in entry order.
pub open spec fn payload(es: Seq<EntryModel>) -> Seq<u8>
    decreases es.len(),
{
    if es.len() == 0 {
        seq![]
    } else {
        payload(es.drop_last()) + padded(es.last().1)
    }
}

/// All names, each followed by a NUL, in entry order.
pub open spec fn name_table(es: Seq<EntryModel>) -> Seq<u8>
    decreases es.len(),
{
    if es.len() == 0 {
        seq![]
    } else {
        name_table(es.drop_last()) + es.last().0 + seq![0u8]
    }
}

pub open spec fn names_start(n: int) -> int {
    0x30 + 16 * n
}

/// Where the name table ends.
pub open spec fn tables_end(es: Seq<EntryModel>) -> int {
    names_start(es.len() as int) + name_table(es).len() as int
}

/// Size of the file information: the count field, the entry table and the names.
pub open spec fn info_size(es: Seq<EntryModel>) -> int {
    4 + 16 * es.len() + name_table(es).len() as int
}

pub open spec fn gfcp_offset_of(es: Seq<EntryModel>, offset: GFCPOffset) -> int {
    match offset {
        GFCPOffset::Default => 0x30 + round16(info_size(es)),
        GFCPOffset::Custom(o) => o as int,
    }
}

/// The name offset field of entry `i`, with the is-last flag on the final entry.
pub open spec fn name_offset_field(es: Seq<EntryModel>, i: int) -> int {
    names_start(es.len() as int) + name_table(es.take(i)).len() as int + if i == es.len() - 1 {
        0x8000_0000int
    } else {
        0int
    }
}

/// Where the contents of entry `i` start, counted as if the payload stood at `gfcp`.
pub open spec fn data_offset_field(es: Seq<EntryModel>, i: int, gfcp: int) -> int {
    gfcp + payload(es.take(i)).len() as int
}

pub open spec fn record(es: Seq<EntryModel>, i: int, gfcp: int) -> Seq<u8> {
    u32_le(crate::gfarch::checksum_of(es[i].0)) + u32_le(name_offset_field(es, i) as u32) + u32_le(
        es[i].1.len() as u32,
    ) + u32_le(data_offset_field(es, i, gfcp) as u32)
}

/// The first `k` entry records.
pub open spec fn entry_table(es: Seq<EntryModel>, k: int, gfcp: int) -> Seq<u8>
    decreases k,
{
    if k <= 0 {
        seq![]
    } else {
        entry_table(es, k - 1, gfcp) + record(es, k - 1, gfcp)
    }
}

pub open spec fn archive_header(es: Seq<EntryModel>, version: Version, gfcp: int, clen: int) -> Seq<
    u8,
> {
    magic_gfac() + u32_le(version_code(version)) + u32_le(1) + u32_le(0x2C) + u32_le(
        info_size(es) as u32,
    ) + u32_le(gfcp as u32) + u32_le((0x14 + clen) as u32) + zeros(16) + u32_le(es.len() as u32)
}

pub open spec fn gfcp_header(c: CompressionType, dlen: int, clen: int) -> Seq<u8> {
    magic_gfcp() + u32_le(1) + u32_le(compression_code(c)) + u32_le(dlen as u32) + u32_le(
        clen as u32,
    )
}

/// The whole archive for entries `es`, with the compression header at `gfcp` and the
/// compressed payload `compressed`.
#[verifier::opaque]
pub open spec fn archive_image(
    es: Seq<EntryModel>,
    version: Version,
    c: CompressionType,
    gfcp: int,
    compressed: Seq<u8>,
) -> Seq<u8> {
    archive_header(es, version, gfcp, compressed.len() as int) + entry_table(
        es,
        es.len() as int,
        gfcp,
    ) + name_table(es) + zeros(gfcp - tables_end(es)) + gfcp_header(
        c,
        payload(es).len() as int,
        compressed.len() as int,
    ) + compressed
}

/// Why entries cannot be packed before anything is compressed, if they cannot.
pub open spec fn pack_precheck(es: Seq<EntryModel>, names: Seq<Seq<char>>, c: CompressionType, offset: GFCPOffset) -> Option<GfArchError> {
    let gfcp = gfcp_offset_of(es, offset);
    if !(forall|i: int| 0 <= i < names.len() ==> storable_name(#[trigger] names[i])) {
        Some(GfArchError::InvalidInputError)
    } else if tables_end(es) >= NAME_OFFSET_LIMIT {
        Some(GfArchError::ArchiveTooLargeError)
    } else if gfcp < tables_end(es) {
        Some(GfArchError::InvalidInputError)
    } else if gfcp + payload(es).len() > u32::MAX {
        Some(GfArchError::ArchiveTooLargeError)
    } else if c == CompressionType::LZ10 && payload(es).len() >= 0x100_0000 {
        Some(GfArchError::ArchiveTooLargeError)
    } else {
        None
    }
}

/// The packed archive for entries `es` (named `names`) once the payload is compressed to
/// `compressed`, or why there is none.
pub open spec fn packed(
    es: Seq<EntryModel>,
    names: Seq<Seq<char>>,
    version: Version,
    c: CompressionType,
    offset: GFCPOffset,
    compressed: Seq<u8>,
) -> Result<Seq<u8>, GfArchError> {
    let gfcp = gfcp_offset_of(es, offset);
    match pack_precheck(es, names, c, offset) {
        Some(e) => Err(e),
        None => if gfcp + 0x14 + compressed.len() > u32::MAX {
            Err(GfArchError::ArchiveTooLargeError)
        } else {
            Ok(archive_image(es, version, c, gfcp, compressed))
        },
    }
}

} // verus!

verus! {

pub proof fn lemma_take_step(es: Seq<EntryModel>, i: int)
    requires
        0 <= i < es.len(),
    ensures
        payload(es.take(i + 1)) == payload(es.take(i)) + padded(es[i].1),
        name_table(es.take(i + 1)) == name_table(es.take(i)) + es[i].0 + seq![0u8],
{
    assert(es.take(i + 1).drop_last() =~= es.take(i));
    assert(es.take(i + 1).last() == es[i]);
}

pub proof fn lemma_take_all(es: Seq<EntryModel>)
    ensures
        es.take(es.len() as int) == es,
{
    assert(es.take(es.len() as int) =~= es);
}

pub proof fn lemma_padded_len(c: Seq<u8>)
    ensures
        padded(c).len() == round16(c.len() as int),
        round16(c.len() as int) >= c.len(),
        round16(c.len() as int) < c.len() + 16,
        round16(c.len() as int) % 16 == 0,
{
}

/// A payload is always a whole number of 16-byte blocks.
pub proof fn lemma_payload_aligned(es: Seq<EntryModel>)
    ensures
        payload(es).len() % 16 == 0,
    decreases es.len(),
{
    if es.len() > 0 {
        lemma_payload_aligned(es.drop_last());
        lemma_padded_len(es.last().1);
    }
}

/// Prefixes of the entries give payloads and name tables no longer than longer prefixes.
pub proof fn lemma_prefix_mono(es: Seq<EntryModel>, i: int, j: int)
    requires
        0 <= i <= j <= es.len(),
    ensures
        payload(es.take(i)).len() <= payload(es.take(j)).len(),
        name_table(es.take(i)).len() <= name_table(es.take(j)).len(),
    decreases j - i,
{
    if i < j {
        lemma_prefix_mono(es, i + 1, j);
        lemma_take_step(es, i);
    }
}


pub proof fn lemma_entry_table_len(es: Seq<EntryModel>, k: int, gfcp: int)
    requires
        0 <= k,
    ensures
        entry_table(es, k, gfcp).len() == 16 * k,
    decreases k,
{
    if k > 0 {
        lemma_entry_table_len(es, k - 1, gfcp);
    }
}


/// What a packing call may return for entries `es` named `names`: the archive around the
/// payload as the chosen codec compresses it (LZ10 without its 4-byte frame header). The
/// LZ10 codec may also fail, which reads as `ArchiveTooLargeError`.
pub open spec fn pack_outcome(
    es: Seq<EntryModel>,
    names: Seq<Seq<char>>,
    version: Version,
    c: CompressionType,
    offset: GFCPOffset,
    r: Result<Seq<u8>, GfArchError>,
) -> bool {
    match c {
        CompressionType::BPE => r == packed(es, names, version, c, offset, bpe_encoded(payload(es))),
        CompressionType::LZ10 => r == packed(
            es,
            names,
            version,
            c,
            offset,
            lz10_framed(payload(es)).skip(4),
        ) || (pack_precheck(es, names, c, offset) is None && r == Err::<Seq<u8>, GfArchError>(
            GfArchError::ArchiveTooLargeError,
        )),
    }
}


/// Whether the four bytes of `s` at `off` are `m`.
pub open spec fn has_magic(s: Seq<u8>, off: int, m: Seq<u8>) -> bool {
    0 <= off && off + 4 <= s.len() && s.subrange(off, off + 4) == m
}

pub open spec fn file_count(s: Seq<u8>) -> int {
    read_u32_le(s, 0x2C) as int
}

pub open spec fn stored_gfcp(s: Seq<u8>) -> int {
    read_u32_le(s, 0x14) as int
}

/// Entry `i`'s name offset, without its flag byte.
pub open spec fn entry_name_offset(s: Seq<u8>, i: int) -> int {
    read_u32_le(s, 0x34 + 16 * i) as int % 0x100_0000
}

pub open spec fn entry_size(s: Seq<u8>, i: int) -> int {
    read_u32_le(s, 0x38 + 16 * i) as int
}

pub open spec fn entry_data_offset(s: Seq<u8>, i: int) -> int {
    read_u32_le(s, 0x3C + 16 * i) as int
}

/// Where the NUL-terminated string at `i` ends: at its NUL, or at the end of `s`.
pub open spec fn name_end(s: Seq<u8>, i: int) -> int
    decreases s.len() - i,
{
    if i >= s.len() || s[i] == 0 {
        i
    } else {
        name_end(s, i + 1)
    }
}

/// The bytes of the NUL-terminated string at `off`.
pub open spec fn name_at(s: Seq<u8>, off: int) -> Seq<u8> {
    s.subrange(off, name_end(s, off))
}

/// Bytes read as characters, one each.
pub open spec fn latin1(b: Seq<u8>) -> Seq<char> {
    b.map_values(|x: u8| x as char)
}

pub open spec fn stored_compression_code(s: Seq<u8>) -> u32 {
    read_u32_le(s, stored_gfcp(s) + 8)
}

pub open spec fn stored_decompressed_size(s: Seq<u8>) -> u32 {
    read_u32_le(s, stored_gfcp(s) + 0xC)
}

/// Why the archive's header, tables or compression header cannot be read, if they cannot.
pub open spec fn layout_error(s: Seq<u8>) -> Option<GfArchError> {
    if !has_magic(s, 0, magic_gfac()) {
        Some(GfArchError::ArchiveHeaderError)
    } else if s.len() < 0x30 || 0x30 + 16 * file_count(s) > s.len() || exists|i: int|
        0 <= i < file_count(s) && #[trigger] entry_name_offset(s, i) > s.len() {
        Some(GfArchError::TruncatedArchiveError)
    } else if !has_magic(s, stored_gfcp(s), magic_gfcp()) {
        Some(GfArchError::CompressionHeaderError)
    } else if stored_gfcp(s) + 0x14 > s.len() {
        Some(GfArchError::TruncatedArchiveError)
    } else if stored_compression_code(s) != 1 && stored_compression_code(s) != 3 {
        Some(GfArchError::UnsupportedCompressionTypeError(stored_compression_code(s)))
    } else {
        None
    }
}

/// The compressed payload: everything after the compression header.
pub open spec fn stored_payload(s: Seq<u8>) -> Seq<u8> {
    s.skip(stored_gfcp(s) + 0x14)
}

/// The payload framed as the LZ10 codec reads it: tag 0x10, then the low three bytes of the
/// decompressed size.
pub open spec fn lz10_frame(s: Seq<u8>) -> Seq<u8> {
    seq![0x10u8] + u32_le(stored_decompressed_size(s)).take(3) + stored_payload(s)
}

/// The decompressed payload, or `None` where the stream is rejected: a BPE stream that its
/// decoder cannot read without panicking; an LZ10 stream that the codec rejects, or with a
/// back-reference that reaches before the start of the output.
pub open spec fn decoded_payload(s: Seq<u8>) -> Option<Seq<u8>> {
    if stored_compression_code(s) == 1 {
        if bpe_decodable(stored_payload(s)) {
            Some(bpe_decoded(stored_payload(s)))
        } else {
            None
        }
    } else if !lz10_decodable(lz10_frame(s)) {
        None
    } else {
        lz10_decompressed(lz10_frame(s))
    }
}

/// Whether entry `i`'s contents lie outside the decompressed payload `d`.
pub open spec fn entry_out_of_range(s: Seq<u8>, d: Seq<u8>, i: int) -> bool {
    entry_data_offset(s, i) < stored_gfcp(s) || entry_data_offset(s, i) - stored_gfcp(s)
        + entry_size(s, i) > d.len()
}

/// Entry `i` as a (name, contents) pair, its contents cut out of `d`.
pub open spec fn file_at(s: Seq<u8>, d: Seq<u8>, i: int) -> (Seq<char>, Seq<u8>) {
    (
        latin1(name_at(s, entry_name_offset(s, i))),
        d.subrange(
            entry_data_offset(s, i) - stored_gfcp(s),
            entry_data_offset(s, i) - stored_gfcp(s) + entry_size(s, i),
        ),
    )
}

/// The files of archive `s`, in table order, or why they cannot be read.
pub open spec fn extracted(s: Seq<u8>) -> Result<Seq<(Seq<char>, Seq<u8>)>, GfArchError> {
    match layout_error(s) {
        Some(e) => Err(e),
        None => match decoded_payload(s) {
            None => Err(
                if stored_compression_code(s) == 1 {
                    GfArchError::BPEDecompressError
                } else {
                    GfArchError::LZ10DecompressError
                },
            ),
            Some(d) => if exists|i: int| 0 <= i < file_count(s) && #[trigger] entry_out_of_range(s, d, i) {
                Err(GfArchError::TruncatedArchiveError)
            } else {
                Ok(Seq::new(file_count(s) as nat, |i: int| file_at(s, d, i)))
            },
        },
    }
}

} // verus!
