//! Reading and writing GfArch archives.
use vstd::prelude::*;
use vstd::slice::slice_subrange;
use vstd::string::StringSliceAdditionalSpecFns;
use crate::bpe_stream::bpe_check;
use crate::codec::{bpe_decode, bpe_encode, lz10_check, lz10_compress, lz10_decompress};
use crate::format::{
    archive_header, archive_image, compression_code, decoded_payload, entry_data_offset,
    entry_name_offset, entry_out_of_range, entry_size, entry_table, extracted, file_at, file_count,
    gfcp_header, gfcp_offset_of, has_magic, latin1, layout_error, lemma_entry_table_len,
    lemma_padded_len, lemma_payload_aligned, lemma_prefix_mono, lemma_take_all, lemma_take_step,
    lz10_frame, magic_gfac, magic_gfcp, name_at, name_bytes, name_end, name_offset_field,
    name_table, names_start, pack_outcome, pack_precheck, packed, padded, payload, record, round16,
    storable_name, stored_compression_code, stored_gfcp, stored_payload, tables_end, version_code,
    zeros, EntryModel, NAME_OFFSET_LIMIT,
};
use crate::le::{get_u32_le, push_u32_le, read_u32_le};

verus! {

/// One record of the entry table, with the flag byte taken off the name offset.
pub struct FileEntry {
    pub name_offset: usize,
    pub decompressed_size: usize,
    pub decompressed_offset: usize,
}

/// What can be read of an archive before its payload is decompressed.
pub struct ArchiveLayout {
    pub entries: Vec<FileEntry>,
    pub filenames: Vec<String>,
    pub gfcp_offset: usize,
    pub compression: CompressionType,
}

/// Errors for the ways an archive can fail to be read or written.
#[derive(Debug, PartialEq, Eq, Structural)]
pub enum GfArchError {
    /// The archive does not start with "GFAC".
    ArchiveHeaderError,
    /// No "GFCP" where the header says the compression header is.
    CompressionHeaderError,
    /// The compression header names a type other than 1 (BPE) or 3 (LZ10).
    UnsupportedCompressionTypeError(u32),
    /// The LZ10 codec rejected the payload.
    LZ10DecompressError,
    /// The payload is not a complete BPE stream whose pairs expand within the decoder's stack.
    BPEDecompressError,
    /// An offset or size in the archive points past its end.
    TruncatedArchiveError,
    /// Entries that cannot be packed: names and contents differ in number, a name is not
    /// ASCII or holds a NUL, or a custom compression header offset falls inside the tables.
    InvalidInputError,
    /// The archive would not fit the format's 32-bit offsets (24 bits for names), or the
    /// payload is too large for LZ10.
    ArchiveTooLargeError,
}

/// Where the compression header goes: right after the tables, or at a fixed offset.
#[derive(Clone, Copy)]
pub enum GFCPOffset {
    Default,
    Custom(usize),
}

/// The version of a GfArch archive.
#[derive(Clone, Copy, PartialEq, Eq, Structural)]
pub enum Version {
    V2,
    V3,
    V3_1,
}

/// The compression type of a GfArch archive.
#[derive(Clone, Copy, PartialEq, Eq, Structural)]
pub enum CompressionType {
    BPE,
    LZ10,
}

/// One file of an archive.
pub struct FileContents {
    pub contents: Vec<u8>,
    pub filename: String,
}

/// The entries of `fs` as the format sees them: name bytes and contents.
pub open spec fn entries_model(fs: Seq<FileContents>) -> Seq<EntryModel> {
    fs.map_values(|f: FileContents| (name_bytes(f.filename@), f.contents@))
}

pub open spec fn names_of(fs: Seq<FileContents>) -> Seq<Seq<char>> {
    fs.map_values(|f: FileContents| f.filename@)
}

/// A packing result with the archive as a sequence.
pub open spec fn result_view(r: Result<Vec<u8>, GfArchError>) -> Result<Seq<u8>, GfArchError> {
    match r {
        Ok(o) => Ok(o@),
        Err(e) => Err(e),
    }
}

/// Entries from matching lists of contents and names.
pub open spec fn zip_model(contents: Seq<Vec<u8>>, names: Seq<String>) -> Seq<EntryModel> {
    Seq::new(contents.len(), |i: int| (name_bytes(names[i]@), contents[i]@))
}

pub open spec fn string_views(names: Seq<String>) -> Seq<Seq<char>> {
    names.map_values(|s: String| s@)
}

/// Checksum of a byte string: starting from 0, each byte gives
/// `byte + 137 * previous`, in wrapping 32-bit arithmetic.
pub open spec fn checksum_of(s: Seq<u8>) -> u32
    decreases s.len(),
{
    if s.len() == 0 {
        0
    } else {
        ((s.last() as int + 137 * checksum_of(s.drop_last()) as int) % 0x1_0000_0000) as u32
    }
}

fn checksum_bytes(bytes: &[u8]) -> (r: u32)
    ensures
        r == checksum_of(bytes@),
{
    let mut result: u32 = 0;
    let mut i: usize = 0;
    while i < bytes.len()
        invariant
            i <= bytes@.len(),
            result == checksum_of(bytes@.subrange(0, i as int)),
        decreases bytes@.len() - i,
    {
        assert(bytes@.subrange(0, i + 1).drop_last() =~= bytes@.subrange(0, i as int));
        result = (bytes[i] as u32).wrapping_add(result.wrapping_mul(137));
        i = i + 1;
    }
    assert(bytes@.subrange(0, i as int) =~= bytes@);
    result
}

/// Calculates the checksum of a string, most commonly a filename, over every byte of it.
pub fn calculate_checksum(input: &str) -> (r: u32)
    ensures
        r == checksum_of(input.spec_bytes()),
{
    checksum_bytes(input.as_bytes())
}


/// The stored bytes of a storable name.
fn name_of(f: &FileContents) -> (r: &[u8])
    requires
        storable_name(f.filename@),
    ensures
        r@ == name_bytes(f.filename@),
{
    let s = f.filename.as_str();
    proof {
        assert(vstd::string::is_ascii(s));
        vstd::string::is_ascii_spec_bytes(s);
    }
    let b = s.as_bytes();
    assert(b@ =~= name_bytes(f.filename@));
    b
}

/// Whether every name is ASCII without NUL.
fn names_storable(input: &[FileContents]) -> (r: bool)
    ensures
        r == (forall|i: int| 0 <= i < input@.len() ==> storable_name(#[trigger] names_of(input@)[i])),
{
    let mut i: usize = 0;
    while i < input.len()
        invariant
            i <= input@.len(),
            forall|k: int| 0 <= k < i ==> storable_name(#[trigger] names_of(input@)[k]),
        decreases input@.len() - i,
    {
        let s = input[i].filename.as_str();
        if !s.is_ascii() {
            proof {
                let k = choose|k: int| 0 <= k < s@.len() && !('\0' <= #[trigger] s@[k] <= '\u{7f}');
                assert(!storable_name(names_of(input@)[i as int]) && !('\u{1}' <= s@[k] <= '\u{7f}'));
            }
            return false;
        }
        proof {
            vstd::string::is_ascii_spec_bytes(s);
        }
        let b = s.as_bytes();
        let mut j: usize = 0;
        while j < b.len()
            invariant
                i < input@.len(),
                s@ == input@[i as int].filename@,
                vstd::string::is_ascii(s),
                b@ =~= Seq::new(s@.len(), |m: int| s@[m] as u8),
                j <= b@.len(),
                forall|m: int| 0 <= m < j ==> '\u{1}' <= #[trigger] s@[m] <= '\u{7f}',
            decreases b@.len() - j,
        {
            if b[j] == 0 {
                assert(s@[j as int] == '\0');
                assert(names_of(input@)[i as int] == s@);
                assert(!('\u{1}' <= names_of(input@)[i as int][j as int] <= '\u{7f}'));
                return false;
            }
            j = j + 1;
        }
        assert(storable_name(names_of(input@)[i as int]));
        i = i + 1;
    }
    true
}


/// Where the tables end, or `NAME_OFFSET_LIMIT` where they reach it.
fn tables_end_capped(input: &[FileContents]) -> (r: u64)
    requires
        forall|i: int| 0 <= i < input@.len() ==> storable_name(#[trigger] names_of(input@)[i]),
    ensures
        r == if tables_end(entries_model(input@)) < NAME_OFFSET_LIMIT {
            tables_end(entries_model(input@))
        } else {
            NAME_OFFSET_LIMIT as int
        },
{
    let ghost es = entries_model(input@);
    let n = input.len();
    proof {
        lemma_take_all(es);
        lemma_prefix_mono(es, 0, es.len() as int);
    }
    if n >= 0xF_FFFD {
        return NAME_OFFSET_LIMIT;
    }
    let mut acc: u64 = 0x30 + 16 * (n as u64);
    let mut i: usize = 0;
    assert(es.take(0) =~= Seq::<EntryModel>::empty());
    while i < n
        invariant
            n == input@.len(),
            es == entries_model(input@),
            n < 0xF_FFFD,
            i <= n,
            forall|k: int| 0 <= k < input@.len() ==> storable_name(#[trigger] names_of(input@)[k]),
            acc == names_start(n as int) + name_table(es.take(i as int)).len(),
            acc < NAME_OFFSET_LIMIT,
        decreases n - i,
    {
        proof {
            lemma_take_step(es, i as int);
            lemma_prefix_mono(es, i + 1, n as int);
            lemma_take_all(es);
        }
        assert(names_of(input@)[i as int] == input@[i as int].filename@);
        let len = name_of(&input[i]).len() as u64;
        if len >= NAME_OFFSET_LIMIT {
            return NAME_OFFSET_LIMIT;
        }
        acc = acc + len + 1;
        if acc >= NAME_OFFSET_LIMIT {
            return NAME_OFFSET_LIMIT;
        }
        i = i + 1;
    }
    proof {
        lemma_take_all(es);
    }
    acc
}

pub const PAYLOAD_CAP: u64 = 0x1_0000_0000;

/// The payload's length, or `PAYLOAD_CAP` where it reaches it.
fn payload_len_capped(input: &[FileContents]) -> (r: u64)
    ensures
        r == if payload(entries_model(input@)).len() < PAYLOAD_CAP {
            payload(entries_model(input@)).len() as int
        } else {
            PAYLOAD_CAP as int
        },
{
    let ghost es = entries_model(input@);
    let mut acc: u64 = 0;
    let mut i: usize = 0;
    proof {
        assert(es.take(0) =~= Seq::<EntryModel>::empty());
    }
    while i < input.len()
        invariant
            es == entries_model(input@),
            i <= input@.len(),
            acc == payload(es.take(i as int)).len(),
            acc < PAYLOAD_CAP,
        decreases input@.len() - i,
    {
        proof {
            lemma_take_step(es, i as int);
            lemma_padded_len(es[i as int].1);
            lemma_prefix_mono(es, i + 1, es.len() as int);
            lemma_take_all(es);
        }
        let len = input[i].contents.len() as u64;
        if len >= PAYLOAD_CAP {
            return PAYLOAD_CAP;
        }
        acc = acc + (len + 15) / 16 * 16;
        if acc >= PAYLOAD_CAP {
            return PAYLOAD_CAP;
        }
        i = i + 1;
    }
    proof {
        lemma_take_all(es);
    }
    acc
}

/// Appends `c` and zeros up to the next multiple of 16.
fn append_padded(out: &mut Vec<u8>, c: &Vec<u8>)
    requires
        old(out)@.len() % 16 == 0,
        old(out)@.len() + round16(c@.len() as int) < PAYLOAD_CAP,
    ensures
        final(out)@ == old(out)@ + padded(c@),
{
    let ghost start = out@;
    let mut j: usize = 0;
    while j < c.len()
        invariant
            j <= c@.len(),
            out@ == start + c@.subrange(0, j as int),
        decreases c@.len() - j,
    {
        out.push(c[j]);
        assert(out@ =~= start + c@.subrange(0, j + 1));
        j = j + 1;
    }
    assert(c@.subrange(0, j as int) =~= c@);
    let ghost mut k: int = 0;
    assert(out@ =~= start + c@ + zeros(k));
    while out.len() % 16 != 0
        invariant
            start.len() % 16 == 0,
            start.len() + round16(c@.len() as int) < PAYLOAD_CAP,
            0 <= k,
            k <= round16(c@.len() as int) - c@.len(),
            out@ == start + c@ + zeros(k),
        decreases round16(c@.len() as int) - c@.len() - k,
    {
        out.push(0);
        proof {
            k = k + 1;
            assert(out@ =~= start + c@ + zeros(k));
        }
    }
}

/// All contents, each padded with zeros to a multiple of 16 bytes.
fn build_payload(input: &[FileContents]) -> (r: Vec<u8>)
    requires
        payload(entries_model(input@)).len() < PAYLOAD_CAP,
    ensures
        r@ == payload(entries_model(input@)),
{
    let ghost es = entries_model(input@);
    let mut out: Vec<u8> = Vec::new();
    let mut i: usize = 0;
    proof {
        assert(es.take(0) =~= Seq::<EntryModel>::empty());
        assert(out@ =~= payload(es.take(0)));
    }
    while i < input.len()
        invariant
            es == entries_model(input@),
            payload(es).len() < PAYLOAD_CAP,
            i <= input@.len(),
            out@ == payload(es.take(i as int)),
        decreases input@.len() - i,
    {
        proof {
            lemma_take_step(es, i as int);
            lemma_padded_len(es[i as int].1);
            lemma_prefix_mono(es, i + 1, es.len() as int);
            lemma_take_all(es);
            lemma_payload_aligned(es.take(i as int));
        }
        let c = &input[i].contents;
        append_padded(&mut out, c);
        assert(es[i as int].1 == c@);
        i = i + 1;
    }
    proof {
        lemma_take_all(es);
    }
    out
}


fn version_code_of(v: Version) -> (r: u32)
    ensures
        r == version_code(v),
{
    match v {
        Version::V2 => 0x0200,
        Version::V3 => 0x0300,
        Version::V3_1 => 0x0301,
    }
}

fn compression_code_of(c: CompressionType) -> (r: u32)
    ensures
        r == compression_code(c),
{
    match c {
        CompressionType::BPE => 1,
        CompressionType::LZ10 => 3,
    }
}

/// The compression header offset for these entries, or why they cannot be packed.
fn precheck(input: &[FileContents], compression: CompressionType, offset: GFCPOffset) -> (r: Result<
    u64,
    GfArchError,
>)
    ensures
        match r {
            Ok(g) => pack_precheck(entries_model(input@), names_of(input@), compression, offset) is None
                && g == gfcp_offset_of(entries_model(input@), offset),
            Err(e) => pack_precheck(entries_model(input@), names_of(input@), compression, offset)
                == Some(e),
        },
{
    if !names_storable(input) {
        return Err(GfArchError::InvalidInputError);
    }
    let te = tables_end_capped(input);
    if te >= NAME_OFFSET_LIMIT {
        return Err(GfArchError::ArchiveTooLargeError);
    }
    let gfcp: u64 = match offset {
        GFCPOffset::Default => 0x30 + (te - 0x2C + 15) / 16 * 16,
        GFCPOffset::Custom(o) => o as u64,
    };
    if gfcp < te {
        return Err(GfArchError::InvalidInputError);
    }
    let pl = payload_len_capped(input);
    if gfcp > 0xFFFF_FFFF || pl > 0xFFFF_FFFF - gfcp {
        return Err(GfArchError::ArchiveTooLargeError);
    }
    match compression {
        CompressionType::LZ10 => {
            if pl >= 0x100_0000 {
                return Err(GfArchError::ArchiveTooLargeError);
            }
        },
        CompressionType::BPE => {},
    }
    Ok(gfcp)
}

/// Appends every byte of `src`.
fn append_bytes(out: &mut Vec<u8>, src: &[u8])
    ensures
        final(out)@ == old(out)@ + src@,
{
    let ghost start = out@;
    let mut j: usize = 0;
    while j < src.len()
        invariant
            j <= src@.len(),
            out@ == start + src@.subrange(0, j as int),
        decreases src@.len() - j,
    {
        out.push(src[j]);
        assert(out@ =~= start + src@.subrange(0, j + 1));
        j = j + 1;
    }
    assert(src@.subrange(0, j as int) =~= src@);
}

/// Appends zeros until the length is `target`.
fn pad_to(out: &mut Vec<u8>, target: u64)
    requires
        old(out)@.len() <= target <= 0xFFFF_FFFF,
    ensures
        final(out)@ == old(out)@ + zeros(target - old(out)@.len()),
{
    let ghost start = out@;
    assert(out@ =~= start + zeros(0));
    while (out.len() as u64) < target
        invariant
            start.len() <= out@.len() <= target <= 0xFFFF_FFFF,
            out@ == start + zeros(out@.len() - start.len()),
        decreases target - out@.len(),
    {
        out.push(0);
        assert(out@ =~= start + zeros(out@.len() - start.len()));
    }
}

/// The archive header.
fn header_bytes(input: &[FileContents], version: Version, te: u64, gfcp: u64, clen: u64) -> (r: Vec<
    u8,
>)
    requires
        te == tables_end(entries_model(input@)),
        te < NAME_OFFSET_LIMIT,
        gfcp <= 0xFFFF_FFFF,
        clen + 0x14 <= 0xFFFF_FFFF,
    ensures
        r@ == archive_header(entries_model(input@), version, gfcp as int, clen as int),
{
    let mut out: Vec<u8> = Vec::new();
    out.push(0x47);
    out.push(0x46);
    out.push(0x41);
    out.push(0x43);
    assert(out@ =~= magic_gfac());
    push_u32_le(&mut out, version_code_of(version));
    push_u32_le(&mut out, 1);
    push_u32_le(&mut out, 0x2C);
    push_u32_le(&mut out, (te - 0x2C) as u32);
    push_u32_le(&mut out, gfcp as u32);
    push_u32_le(&mut out, (0x14 + clen) as u32);
    pad_to(&mut out, 0x2C);
    push_u32_le(&mut out, input.len() as u32);
    out
}

/// The compression header.
fn push_gfcp_header(out: &mut Vec<u8>, c: CompressionType, dlen: u64, clen: u64)
    requires
        dlen <= 0xFFFF_FFFF,
        clen <= 0xFFFF_FFFF,
    ensures
        final(out)@ == old(out)@ + gfcp_header(c, dlen as int, clen as int),
{
    let ghost start = out@;
    out.push(0x47);
    out.push(0x46);
    out.push(0x43);
    out.push(0x50);
    assert(out@ =~= start + magic_gfcp());
    push_u32_le(out, 1);
    push_u32_le(out, compression_code_of(c));
    push_u32_le(out, dlen as u32);
    push_u32_le(out, clen as u32);
    assert(out@ =~= start + gfcp_header(c, dlen as int, clen as int));
}

/// The entry records, in input order.
#[verifier::rlimit(40)]
fn push_records(out: &mut Vec<u8>, input: &[FileContents], gfcp: u64)
    requires
        forall|i: int| 0 <= i < input@.len() ==> storable_name(#[trigger] names_of(input@)[i]),
        tables_end(entries_model(input@)) < NAME_OFFSET_LIMIT,
        gfcp + payload(entries_model(input@)).len() <= 0xFFFF_FFFF,
    ensures
        final(out)@ == old(out)@ + entry_table(
            entries_model(input@),
            input@.len() as int,
            gfcp as int,
        ),
{
    let ghost es = entries_model(input@);
    let ghost start = out@;
    let n = input.len();
    let mut name_cur: u64 = 0x30 + 16 * (n as u64);
    let mut data_cur: u64 = gfcp;
    let mut i: usize = 0;
    assert(es.take(0) =~= Seq::<EntryModel>::empty());
    assert(out@ =~= start + entry_table(es, 0, gfcp as int));
    while i < n
        invariant
            n == input@.len(),
            es == entries_model(input@),
            forall|k: int| 0 <= k < input@.len() ==> storable_name(#[trigger] names_of(input@)[k]),
            tables_end(es) < NAME_OFFSET_LIMIT,
            gfcp + payload(es).len() <= 0xFFFF_FFFF,
            i <= n,
            name_cur == names_start(n as int) + name_table(es.take(i as int)).len(),
            data_cur == gfcp + payload(es.take(i as int)).len(),
            out@ == start + entry_table(es, i as int, gfcp as int),
        decreases n - i,
    {
        proof {
            lemma_take_step(es, i as int);
            lemma_padded_len(es[i as int].1);
            lemma_prefix_mono(es, i + 1, n as int);
            lemma_take_all(es);
        }
        assert(names_of(input@)[i as int] == input@[i as int].filename@);
        let name = name_of(&input[i]);
        let sum = checksum_bytes(name);
        let name_field: u64 = if i == n - 1 {
            name_cur + 0x8000_0000
        } else {
            name_cur
        };
        let len = input[i].contents.len();
        let ghost before = out@;
        push_u32_le(out, sum);
        push_u32_le(out, name_field as u32);
        push_u32_le(out, len as u32);
        push_u32_le(out, data_cur as u32);
        assert(name_field == name_offset_field(es, i as int));
        assert(out@ =~= before + record(es, i as int, gfcp as int));
        name_cur = name_cur + name.len() as u64 + 1;
        data_cur = data_cur + (len as u64 + 15) / 16 * 16;
        i = i + 1;
        assert(out@ =~= start + entry_table(es, i as int, gfcp as int));
    }
}

/// The name table, in input order.
fn push_names(out: &mut Vec<u8>, input: &[FileContents])
    requires
        forall|i: int| 0 <= i < input@.len() ==> storable_name(#[trigger] names_of(input@)[i]),
    ensures
        final(out)@ == old(out)@ + name_table(entries_model(input@)),
{
    let ghost es = entries_model(input@);
    let ghost start = out@;
    let mut i: usize = 0;
    assert(es.take(0) =~= Seq::<EntryModel>::empty());
    assert(out@ =~= start + name_table(es.take(0)));
    while i < input.len()
        invariant
            es == entries_model(input@),
            forall|k: int| 0 <= k < input@.len() ==> storable_name(#[trigger] names_of(input@)[k]),
            i <= input@.len(),
            out@ == start + name_table(es.take(i as int)),
        decreases input@.len() - i,
    {
        proof {
            lemma_take_step(es, i as int);
        }
        assert(names_of(input@)[i as int] == input@[i as int].filename@);
        let name = name_of(&input[i]);
        let ghost before = out@;
        append_bytes(out, name);
        out.push(0);
        assert(out@ =~= before + es[i as int].0 + seq![0u8]);
        i = i + 1;
        assert(out@ =~= start + name_table(es.take(i as int)));
    }
    proof {
        lemma_take_all(es);
    }
}

/// Lays out the archive for `input` around its payload already compressed to `compressed`.
#[verifier::rlimit(60)]
pub fn assemble(
    input: &[FileContents],
    version: Version,
    compression_type: CompressionType,
    offset: GFCPOffset,
    compressed: &[u8],
) -> (r: Result<Vec<u8>, GfArchError>)
    ensures
        result_view(r) == packed(
            entries_model(input@),
            names_of(input@),
            version,
            compression_type,
            offset,
            compressed@,
        ),
{
    let ghost es = entries_model(input@);
    let gfcp = match precheck(input, compression_type, offset) {
        Ok(g) => g,
        Err(e) => return Err(e),
    };
    let clen = compressed.len() as u64;
    if clen > 0xFFFF_FFFF || gfcp + 0x14 + clen > 0xFFFF_FFFF {
        return Err(GfArchError::ArchiveTooLargeError);
    }
    let te = tables_end_capped(input);
    let pl = payload_len_capped(input);
    let mut out = header_bytes(input, version, te, gfcp, clen);
    let ghost h = out@;
    push_records(&mut out, input, gfcp);
    let ghost et = entry_table(es, es.len() as int, gfcp as int);
    push_names(&mut out, input);
    proof {
        lemma_entry_table_len(es, es.len() as int, gfcp as int);
    }
    assert(out@.len() == tables_end(es));
    let ghost before_pad = out@;
    pad_to(&mut out, gfcp);
    let ghost z = zeros(gfcp - tables_end(es));
    assert(out@ == h + et + name_table(es) + z);
    push_gfcp_header(&mut out, compression_type, pl, clen);
    append_bytes(&mut out, compressed);
    proof {
        reveal(archive_image);
    }
    assert(out@ == archive_image(es, version, compression_type, gfcp as int, compressed@));
    Ok(out)
}


/// Creates a GfArch archive from given files, compressing their payload with
/// `compression_type` and placing the compression header as `offset` says.
pub fn pack_from_files(
    input: &[FileContents],
    version: Version,
    compression_type: CompressionType,
    offset: GFCPOffset,
) -> (r: Result<Vec<u8>, GfArchError>)
    ensures
        pack_outcome(
            entries_model(input@),
            names_of(input@),
            version,
            compression_type,
            offset,
            result_view(r),
        ),
{
    match precheck(input, compression_type, offset) {
        Ok(_) => {},
        Err(e) => return Err(e),
    }
    let data = build_payload(input);
    let compressed: Vec<u8> = match compression_type {
        CompressionType::BPE => bpe_encode(data.as_slice()),
        CompressionType::LZ10 => match lz10_compress(data.as_slice()) {
            Some(framed) => {
                let mut body: Vec<u8> = Vec::new();
                append_bytes(&mut body, slice_subrange(framed.as_slice(), 4, framed.len()));
                assert(body@ =~= framed@.skip(4));
                body
            },
            None => return Err(GfArchError::ArchiveTooLargeError),
        },
    };
    assemble(input, version, compression_type, offset, compressed.as_slice())
}

/// Creates a GfArch archive from contents and names given as two lists of equal length.
pub fn pack_from_bytes(
    input: &[Vec<u8>],
    filenames: &[String],
    version: Version,
    compression_type: CompressionType,
    offset: GFCPOffset,
) -> (r: Result<Vec<u8>, GfArchError>)
    ensures
        input@.len() != filenames@.len() ==> r == Err::<Vec<u8>, GfArchError>(
            GfArchError::InvalidInputError,
        ),
        input@.len() == filenames@.len() ==> pack_outcome(
            zip_model(input@, filenames@),
            string_views(filenames@),
            version,
            compression_type,
            offset,
            result_view(r),
        ),
{
    if input.len() != filenames.len() {
        return Err(GfArchError::InvalidInputError);
    }
    let mut files: Vec<FileContents> = Vec::new();
    let mut i: usize = 0;
    while i < input.len()
        invariant
            input@.len() == filenames@.len(),
            i <= input@.len(),
            files@.len() == i,
            forall|k: int| 0 <= k < i ==> (#[trigger] files@[k]).contents@ == input@[k]@
                && files@[k].filename@ == filenames@[k]@,
        decreases input@.len() - i,
    {
        let mut contents: Vec<u8> = Vec::new();
        append_bytes(&mut contents, input[i].as_slice());
        files.push(FileContents { contents, filename: filenames[i].clone() });
        i = i + 1;
    }
    assert(entries_model(files@) =~= zip_model(input@, filenames@));
    assert(names_of(files@) =~= string_views(filenames@));
    pack_from_files(files.as_slice(), version, compression_type, offset)
}


impl FileEntry {
    /// Reads one 16-byte entry record.
    pub fn from_bytes(input: &[u8]) -> (r: Self)
        requires
            input@.len() == 16,
        ensures
            r.name_offset == read_u32_le(input@, 4) as int % 0x100_0000,
            r.decompressed_size == read_u32_le(input@, 8),
            r.decompressed_offset == read_u32_le(input@, 0xC),
    {
        let name_offset = (get_u32_le(input, 4) % 0x100_0000) as usize;
        let decompressed_size = get_u32_le(input, 8) as usize;
        let decompressed_offset = get_u32_le(input, 0xC) as usize;
        FileEntry { name_offset, decompressed_size, decompressed_offset }
    }
}

/// Relies on String::push: appends one character.
#[verifier::external_body]
fn push_char(s: &mut String, c: char)
    ensures
        final(s)@ == old(s)@.push(c),
{
    s.push(c)
}

/// Reads the NUL-terminated string at `offset`, one character per byte.
pub fn read_string(input: &[u8], offset: usize) -> (r: String)
    requires
        offset <= input@.len(),
    ensures
        r@ == latin1(name_at(input@, offset as int)),
{
    let mut result = String::new();
    let mut i: usize = offset;
    while i < input.len() && input[i] != 0
        invariant
            offset <= i <= input@.len(),
            name_end(input@, offset as int) == name_end(input@, i as int),
            result@ == latin1(input@.subrange(offset as int, i as int)),
        decreases input@.len() - i,
    {
        push_char(&mut result, input[i] as char);
        assert(latin1(input@.subrange(offset as int, i + 1)) =~= latin1(
            input@.subrange(offset as int, i as int),
        ).push(input@[i as int] as char));
        i = i + 1;
    }
    result
}


/// Whether `l` holds what archive `s` says of its entries, names, compression header offset
/// and compression type.
pub open spec fn layout_of(s: Seq<u8>, l: ArchiveLayout) -> bool {
    &&& l.entries@.len() == file_count(s)
    &&& l.filenames@.len() == file_count(s)
    &&& l.gfcp_offset == stored_gfcp(s)
    &&& compression_code(l.compression) == stored_compression_code(s)
    &&& forall|i: int|
        0 <= i < file_count(s) ==> {
            &&& (#[trigger] l.entries@[i]).name_offset == entry_name_offset(s, i)
            &&& l.entries@[i].decompressed_size == entry_size(s, i)
            &&& l.entries@[i].decompressed_offset == entry_data_offset(s, i)
            &&& l.filenames@[i]@ == latin1(name_at(s, entry_name_offset(s, i)))
        }
}

/// Reads the header, the entry table, the names and the compression header of an archive.
pub fn read_layout(input: &[u8]) -> (r: Result<ArchiveLayout, GfArchError>)
    ensures
        match r {
            Ok(l) => layout_error(input@) is None && layout_of(input@, l),
            Err(e) => layout_error(input@) == Some(e),
        },
{
    let len = input.len();
    if len < 4 || input[0] != 0x47 || input[1] != 0x46 || input[2] != 0x41 || input[3] != 0x43 {
        proof {
            if has_magic(input@, 0, magic_gfac()) {
                assert(input@.subrange(0, 4)[0] == input@[0]);
                assert(input@.subrange(0, 4)[1] == input@[1]);
                assert(input@.subrange(0, 4)[2] == input@[2]);
                assert(input@.subrange(0, 4)[3] == input@[3]);
            }
        }
        return Err(GfArchError::ArchiveHeaderError);
    }
    assert(input@.subrange(0, 4) =~= magic_gfac());
    if len < 0x30 {
        return Err(GfArchError::TruncatedArchiveError);
    }
    let count = get_u32_le(input, 0x2C) as u64;
    if 0x30 + 16 * count > len as u64 {
        return Err(GfArchError::TruncatedArchiveError);
    }
    let mut entries: Vec<FileEntry> = Vec::new();
    let mut filenames: Vec<String> = Vec::new();
    let mut i: usize = 0;
    while (i as u64) < count
        invariant
            len == input@.len(),
            len >= 0x30,
            has_magic(input@, 0, magic_gfac()),
            count == file_count(input@),
            0x30 + 16 * count <= len,
            i <= count,
            entries@.len() == i,
            filenames@.len() == i,
            forall|k: int|
                0 <= k < i ==> {
                    &&& (#[trigger] entries@[k]).name_offset == entry_name_offset(input@, k)
                    &&& entries@[k].decompressed_size == entry_size(input@, k)
                    &&& entries@[k].decompressed_offset == entry_data_offset(input@, k)
                    &&& entries@[k].name_offset <= len
                    &&& filenames@[k]@ == latin1(name_at(input@, entry_name_offset(input@, k)))
                },
        decreases count - i,
    {
        let off: usize = 0x30 + 16 * i;
        let rec = slice_subrange(input, off, off + 16);
        let e = FileEntry::from_bytes(rec);
        assert(read_u32_le(rec@, 4) == read_u32_le(input@, off + 4));
        assert(read_u32_le(rec@, 8) == read_u32_le(input@, off + 8));
        assert(read_u32_le(rec@, 0xC) == read_u32_le(input@, off + 0xC));
        assert(off + 4 == 0x34 + 16 * i);
        assert(e.name_offset == entry_name_offset(input@, i as int));
        assert(e.decompressed_size == entry_size(input@, i as int));
        assert(e.decompressed_offset == entry_data_offset(input@, i as int));
        if e.name_offset > len {
            assert(entry_name_offset(input@, i as int) > input@.len());
            assert(0 <= i < file_count(input@));
            return Err(GfArchError::TruncatedArchiveError);
        }
        filenames.push(read_string(input, e.name_offset));
        entries.push(e);
        i = i + 1;
    }
    assert(!exists|k: int|
        0 <= k < file_count(input@) && #[trigger] entry_name_offset(input@, k) > input@.len()) by {
        assert forall|k: int| 0 <= k < file_count(input@) implies !(#[trigger] entry_name_offset(
            input@,
            k,
        ) > input@.len()) by {
            assert(entries@[k].name_offset <= len);
        }
    }
    let gfcp = get_u32_le(input, 0x14) as usize;
    if gfcp > len - 4 || input[gfcp] != 0x47 || input[gfcp + 1] != 0x46 || input[gfcp + 2] != 0x43
        || input[gfcp + 3] != 0x50 {
        proof {
            if has_magic(input@, gfcp as int, magic_gfcp()) {
                assert(input@.subrange(gfcp as int, gfcp + 4)[0] == input@[gfcp as int]);
                assert(input@.subrange(gfcp as int, gfcp + 4)[1] == input@[gfcp + 1]);
                assert(input@.subrange(gfcp as int, gfcp + 4)[2] == input@[gfcp + 2]);
                assert(input@.subrange(gfcp as int, gfcp + 4)[3] == input@[gfcp + 3]);
            }
        }
        return Err(GfArchError::CompressionHeaderError);
    }
    assert(input@.subrange(gfcp as int, gfcp + 4) =~= magic_gfcp());
    if gfcp > len - 0x14 {
        return Err(GfArchError::TruncatedArchiveError);
    }
    let code = get_u32_le(input, gfcp + 8);
    let compression = if code == 1 {
        CompressionType::BPE
    } else if code == 3 {
        CompressionType::LZ10
    } else {
        return Err(GfArchError::UnsupportedCompressionTypeError(code));
    };
    Ok(ArchiveLayout { entries, filenames, gfcp_offset: gfcp, compression })
}


/// Decompresses the payload of an archive whose layout has been read.
fn decode_payload(input: &[u8], layout: &ArchiveLayout) -> (r: Result<Vec<u8>, GfArchError>)
    requires
        layout_error(input@) is None,
        layout_of(input@, *layout),
    ensures
        match r {
            Ok(d) => decoded_payload(input@) == Some(d@),
            Err(e) => decoded_payload(input@) is None && e == if layout.compression
                == CompressionType::BPE {
                GfArchError::BPEDecompressError
            } else {
                GfArchError::LZ10DecompressError
            },
        },
{
    let gfcp = layout.gfcp_offset;
    assert(has_magic(input@, stored_gfcp(input@), magic_gfcp()));
    assert(stored_gfcp(input@) + 0x14 <= input@.len());
    assert(gfcp == stored_gfcp(input@));
    let len = input.len();
    assert(gfcp + 0x14 <= len);
    let start: usize = gfcp + 0x14;
    let body = slice_subrange(input, start, len);
    assert(body@ =~= stored_payload(input@));
    match layout.compression {
        CompressionType::BPE => {
            if !bpe_check(body) {
                return Err(GfArchError::BPEDecompressError);
            }
            Ok(bpe_decode(body))
        },
        CompressionType::LZ10 => {
            let dsize = get_u32_le(input, gfcp + 0xC);
            let mut frame: Vec<u8> = Vec::new();
            frame.push(0x10);
            frame.push((dsize % 256) as u8);
            frame.push(((dsize / 256) % 256) as u8);
            frame.push(((dsize / 65536) % 256) as u8);
            append_bytes(&mut frame, body);
            assert(frame@ =~= lz10_frame(input@));
            if !lz10_check(frame.as_slice()) {
                return Err(GfArchError::LZ10DecompressError);
            }
            match lz10_decompress(frame.as_slice()) {
                Some(d) => Ok(d),
                None => Err(GfArchError::LZ10DecompressError),
            }
        },
    }
}

/// Whether entry `i` of `l` lies outside the decompressed payload `d`.
pub open spec fn entry_outside(l: ArchiveLayout, d: Seq<u8>, i: int) -> bool {
    l.entries@[i].decompressed_offset < l.gfcp_offset || l.entries@[i].decompressed_offset
        - l.gfcp_offset + l.entries@[i].decompressed_size > d.len()
}

/// Cuts each entry's contents out of the decompressed payload and pairs them with the names,
/// in table order.
pub fn collect_files(layout: &ArchiveLayout, decompressed: &[u8]) -> (r: Result<
    Vec<FileContents>,
    GfArchError,
>)
    requires
        layout.entries@.len() == layout.filenames@.len(),
    ensures
        r is Err <==> exists|i: int|
            0 <= i < layout.entries@.len() && #[trigger] entry_outside(*layout, decompressed@, i),
        match r {
            Ok(v) => v@.len() == layout.entries@.len() && forall|i: int|
                0 <= i < v@.len() ==> {
                    &&& (#[trigger] v@[i]).filename@ == layout.filenames@[i]@
                    &&& v@[i].contents@ == decompressed@.subrange(
                        layout.entries@[i].decompressed_offset - layout.gfcp_offset,
                        layout.entries@[i].decompressed_offset - layout.gfcp_offset
                            + layout.entries@[i].decompressed_size,
                    )
                },
            Err(e) => e == GfArchError::TruncatedArchiveError,
        },
{
    let mut files: Vec<FileContents> = Vec::new();
    let n = layout.entries.len();
    let mut i: usize = 0;
    while i < n
        invariant
            n == layout.entries@.len(),
            n == layout.filenames@.len(),
            i <= n,
            files@.len() == i,
            forall|k: int| 0 <= k < i ==> !(#[trigger] entry_outside(*layout, decompressed@, k)),
            forall|k: int|
                0 <= k < i ==> {
                    &&& (#[trigger] files@[k]).filename@ == layout.filenames@[k]@
                    &&& files@[k].contents@ == decompressed@.subrange(
                        layout.entries@[k].decompressed_offset - layout.gfcp_offset,
                        layout.entries@[k].decompressed_offset - layout.gfcp_offset
                            + layout.entries@[k].decompressed_size,
                    )
                },
        decreases n - i,
    {
        let e = &layout.entries[i];
        if e.decompressed_offset < layout.gfcp_offset {
            assert(entry_outside(*layout, decompressed@, i as int));
            return Err(GfArchError::TruncatedArchiveError);
        }
        let start = e.decompressed_offset - layout.gfcp_offset;
        if start > decompressed.len() || e.decompressed_size > decompressed.len() - start {
            assert(entry_outside(*layout, decompressed@, i as int));
            return Err(GfArchError::TruncatedArchiveError);
        }
        let mut contents: Vec<u8> = Vec::new();
        append_bytes(
            &mut contents,
            slice_subrange(decompressed, start, start + e.decompressed_size),
        );
        files.push(FileContents { contents, filename: layout.filenames[i].clone() });
        i = i + 1;
    }
    Ok(files)
}


/// Files as (name, contents) pairs.
pub open spec fn files_view(v: Seq<FileContents>) -> Seq<(Seq<char>, Seq<u8>)> {
    v.map_values(|f: FileContents| (f.filename@, f.contents@))
}

/// Extracts the files of a GfArch archive, in the order of its entry table.
pub fn extract(input: &[u8]) -> (r: Result<Vec<FileContents>, GfArchError>)
    ensures
        match r {
            Ok(v) => extracted(input@) == Ok::<Seq<(Seq<char>, Seq<u8>)>, GfArchError>(
                files_view(v@),
            ),
            Err(e) => extracted(input@) == Err::<Seq<(Seq<char>, Seq<u8>)>, GfArchError>(e),
        },
{
    let layout = match read_layout(input) {
        Ok(l) => l,
        Err(e) => return Err(e),
    };
    let d = match decode_payload(input, &layout) {
        Ok(d) => d,
        Err(e) => return Err(e),
    };
    let ghost s = input@;
    assert forall|i: int| 0 <= i < file_count(s) implies #[trigger] entry_outside(
        layout,
        d@,
        i,
    ) == entry_out_of_range(s, d@, i) by {
        assert(layout.entries@[i].decompressed_offset == entry_data_offset(s, i));
    }
    let r = collect_files(&layout, d.as_slice());
    match r {
        Ok(v) => {
            assert forall|i: int| 0 <= i < file_count(s) implies !#[trigger] entry_out_of_range(
                s,
                d@,
                i,
            ) by {
                assert(entry_outside(layout, d@, i) == entry_out_of_range(s, d@, i));
            }
            assert(files_view(v@) =~= Seq::new(file_count(s) as nat, |i: int| file_at(s, d@, i)))
                by {
                assert forall|i: int| 0 <= i < file_count(s) implies #[trigger] files_view(v@)[i]
                    == file_at(s, d@, i) by {
                    assert(v@[i].filename@ == layout.filenames@[i]@);
                    assert(layout.entries@[i].decompressed_offset == entry_data_offset(s, i));
                }
            }
            Ok(v)
        },
        Err(e) => {
            let ghost k = choose|k: int|
                0 <= k < layout.entries@.len() && #[trigger] entry_outside(layout, d@, k);
            assert(entry_out_of_range(s, d@, k));
            Err(e)
        },
    }
}

} // verus!
