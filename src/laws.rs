//! What holds of every packed archive, and of packing followed by reading.
use vstd::prelude::*;
use crate::format::{
    archive_header, archive_image, compression_code, data_offset_field, decoded_payload,
    entry_data_offset, entry_name_offset, entry_out_of_range, entry_size, entry_table, extracted,
    file_at, file_count, gfcp_header, gfcp_offset_of, has_magic, latin1, layout_error,
    lemma_entry_table_len, lemma_padded_len, lemma_prefix_mono, lemma_take_all, lemma_take_step,
    magic_gfac, magic_gfcp, name_at, name_bytes, name_end, name_offset_field, name_table,
    names_start, pack_outcome, packed, padded, payload, record, round16, storable_name,
    stored_compression_code, stored_gfcp, stored_payload, tables_end, zeros, EntryModel,
};
use crate::gfarch::{CompressionType, GFCPOffset, GfArchError, Version};
use crate::le::{lemma_u32_le_round_trip, read_u32_le, u32_le};

verus! {

proof fn lemma_read_field(s: Seq<u8>, off: int, v: u32)
    requires
        0 <= off,
        off + 4 <= s.len(),
        s.subrange(off, off + 4) == u32_le(v),
    ensures
        read_u32_le(s, off) == v,
{
    lemma_u32_le_round_trip(v);
    assert(s[off] == s.subrange(off, off + 4)[0]);
    assert(s[off + 1] == s.subrange(off, off + 4)[1]);
    assert(s[off + 2] == s.subrange(off, off + 4)[2]);
    assert(s[off + 3] == s.subrange(off, off + 4)[3]);
}

/// The fields of the archive header.
proof fn lemma_header_fields(es: Seq<EntryModel>, version: Version, gfcp: int, clen: int)
    ensures
        archive_header(es, version, gfcp, clen).len() == 0x30,
        archive_header(es, version, gfcp, clen).subrange(0, 4) == magic_gfac(),
        read_u32_le(archive_header(es, version, gfcp, clen), 0x14) == gfcp as u32,
        read_u32_le(archive_header(es, version, gfcp, clen), 0x2C) == es.len() as u32,
{
    let h = archive_header(es, version, gfcp, clen);
    assert(h.subrange(0, 4) =~= magic_gfac());
    assert(h.subrange(0x14, 0x18) =~= u32_le(gfcp as u32));
    lemma_read_field(h, 0x14, gfcp as u32);
    assert(h.subrange(0x2C, 0x30) =~= u32_le(es.len() as u32));
    lemma_read_field(h, 0x2C, es.len() as u32);
}


proof fn lemma_read_sub(s: Seq<u8>, a: int, b: int, off: int)
    requires
        0 <= a <= off,
        off + 4 <= b <= s.len(),
    ensures
        read_u32_le(s, off) == read_u32_le(s.subrange(a, b), off - a),
{
}

proof fn lemma_record_fields(es: Seq<EntryModel>, i: int, gfcp: int)
    ensures
        record(es, i, gfcp).len() == 16,
        read_u32_le(record(es, i, gfcp), 4) == name_offset_field(es, i) as u32,
        read_u32_le(record(es, i, gfcp), 8) == es[i].1.len() as u32,
        read_u32_le(record(es, i, gfcp), 0xC) == data_offset_field(es, i, gfcp) as u32,
{
    let r = record(es, i, gfcp);
    assert(r.subrange(4, 8) =~= u32_le(name_offset_field(es, i) as u32));
    lemma_read_field(r, 4, name_offset_field(es, i) as u32);
    assert(r.subrange(8, 12) =~= u32_le(es[i].1.len() as u32));
    lemma_read_field(r, 8, es[i].1.len() as u32);
    assert(r.subrange(12, 16) =~= u32_le(data_offset_field(es, i, gfcp) as u32));
    lemma_read_field(r, 12, data_offset_field(es, i, gfcp) as u32);
}

proof fn lemma_entry_table_record(es: Seq<EntryModel>, k: int, i: int, gfcp: int)
    requires
        0 <= i < k,
    ensures
        entry_table(es, k, gfcp).len() == 16 * k,
        entry_table(es, k, gfcp).subrange(16 * i, 16 * i + 16) == record(es, i, gfcp),
    decreases k,
{
    lemma_entry_table_len(es, k, gfcp);
    lemma_entry_table_len(es, k - 1, gfcp);
    lemma_record_fields(es, k - 1, gfcp);
    if i < k - 1 {
        lemma_entry_table_record(es, k - 1, i, gfcp);
        assert(entry_table(es, k, gfcp).subrange(16 * i, 16 * i + 16) =~= entry_table(
            es,
            k - 1,
            gfcp,
        ).subrange(16 * i, 16 * i + 16));
    } else {
        assert(entry_table(es, k, gfcp).subrange(16 * i, 16 * i + 16) =~= record(es, i, gfcp));
    }
}

/// Where each part of a packed archive stands.
#[verifier::rlimit(60)]
proof fn lemma_image_parts(
    es: Seq<EntryModel>,
    version: Version,
    c: CompressionType,
    gfcp: int,
    compressed: Seq<u8>,
)
    requires
        gfcp >= tables_end(es),
    ensures
        ({
            let s = archive_image(es, version, c, gfcp, compressed);
            &&& s.len() == gfcp + 0x14 + compressed.len()
            &&& s.subrange(0, 0x30) == archive_header(es, version, gfcp, compressed.len() as int)
            &&& s.subrange(0x30, names_start(es.len() as int)) == entry_table(es, es.len() as int, gfcp)
            &&& s.subrange(names_start(es.len() as int), tables_end(es)) == name_table(es)
            &&& s.subrange(gfcp, gfcp + 0x14) == gfcp_header(c, payload(es).len() as int, compressed.len() as int)
            &&& s.subrange(gfcp + 0x14, s.len() as int) == compressed
        }),
{
    let n = es.len() as int;
    let h = archive_header(es, version, gfcp, compressed.len() as int);
    let et = entry_table(es, n, gfcp);
    let nt = name_table(es);
    let z = zeros(gfcp - tables_end(es));
    let gh = gfcp_header(c, payload(es).len() as int, compressed.len() as int);
    lemma_header_fields(es, version, gfcp, compressed.len() as int);
    lemma_entry_table_len(es, n, gfcp);
    let s = archive_image(es, version, c, gfcp, compressed);
    reveal(archive_image);
    assert(s == h + et + nt + z + gh + compressed);
    assert(s.subrange(0, 0x30) =~= h);
    assert(s.subrange(0x30, names_start(n)) =~= et);
    assert(s.subrange(names_start(n), tables_end(es)) =~= nt);
    assert(s.subrange(gfcp, gfcp + 0x14) =~= gh);
    assert(s.subrange(gfcp + 0x14, s.len() as int) =~= compressed);
}


/// The fields of entry record `i` read back from a packed archive.
proof fn lemma_image_entry(
    es: Seq<EntryModel>,
    version: Version,
    c: CompressionType,
    gfcp: int,
    compressed: Seq<u8>,
    i: int,
)
    requires
        gfcp >= tables_end(es),
        0 <= i < es.len(),
    ensures
        ({
            let s = archive_image(es, version, c, gfcp, compressed);
            &&& read_u32_le(s, 0x34 + 16 * i) == name_offset_field(es, i) as u32
            &&& read_u32_le(s, 0x38 + 16 * i) == es[i].1.len() as u32
            &&& read_u32_le(s, 0x3C + 16 * i) == data_offset_field(es, i, gfcp) as u32
        }),
{
    let s = archive_image(es, version, c, gfcp, compressed);
    let n = es.len() as int;
    lemma_image_parts(es, version, c, gfcp, compressed);
    lemma_entry_table_record(es, n, i, gfcp);
    lemma_record_fields(es, i, gfcp);
    let et = entry_table(es, n, gfcp);
    let r = record(es, i, gfcp);
    assert(name_table(es).len() >= 0);
    lemma_read_sub(s, 0x30, names_start(n), 0x34 + 16 * i);
    lemma_read_sub(et, 16 * i, 16 * i + 16, 16 * i + 4);
    lemma_read_sub(s, 0x30, names_start(n), 0x38 + 16 * i);
    lemma_read_sub(et, 16 * i, 16 * i + 16, 16 * i + 8);
    lemma_read_sub(s, 0x30, names_start(n), 0x3C + 16 * i);
    lemma_read_sub(et, 16 * i, 16 * i + 16, 16 * i + 12);
}

/// In a packed archive, bit 31 of an entry's name offset field is set exactly on the last
/// entry of the table.
pub proof fn lemma_last_entry_flag(
    es: Seq<EntryModel>,
    names: Seq<Seq<char>>,
    version: Version,
    c: CompressionType,
    offset: GFCPOffset,
    compressed: Seq<u8>,
    i: int,
)
    requires
        packed(es, names, version, c, offset, compressed) is Ok,
        0 <= i < es.len(),
    ensures
        (read_u32_le(packed(es, names, version, c, offset, compressed)->Ok_0, 0x34 + 16 * i)
            & 0x8000_0000 != 0) == (i == es.len() - 1),
{
    let gfcp = gfcp_offset_of(es, offset);
    lemma_image_entry(es, version, c, gfcp, compressed, i);
    lemma_prefix_mono(es, i, es.len() as int);
    lemma_take_all(es);
    let x = read_u32_le(packed(es, names, version, c, offset, compressed)->Ok_0, 0x34 + 16 * i);
    assert(x & 0x8000_0000 != 0 <==> x >= 0x8000_0000) by (bit_vector);
}

/// In a packed archive, each entry's data offset follows the previous one by the previous
/// entry's size rounded up to a multiple of 16.
pub proof fn lemma_alignment(
    es: Seq<EntryModel>,
    names: Seq<Seq<char>>,
    version: Version,
    c: CompressionType,
    offset: GFCPOffset,
    compressed: Seq<u8>,
    i: int,
)
    requires
        packed(es, names, version, c, offset, compressed) is Ok,
        0 < i < es.len(),
    ensures
        ({
            let s = packed(es, names, version, c, offset, compressed)->Ok_0;
            entry_data_offset(s, i) - entry_data_offset(s, i - 1) == round16(entry_size(s, i - 1))
        }),
{
    let gfcp = gfcp_offset_of(es, offset);
    lemma_image_entry(es, version, c, gfcp, compressed, i);
    lemma_image_entry(es, version, c, gfcp, compressed, i - 1);
    lemma_take_step(es, i - 1);
    lemma_padded_len(es[i - 1].1);
    lemma_prefix_mono(es, i, es.len() as int);
    lemma_take_all(es);
}

/// With a custom offset, a packed archive holds "GFCP" exactly at that offset.
pub proof fn lemma_custom_offset(
    es: Seq<EntryModel>,
    names: Seq<Seq<char>>,
    version: Version,
    c: CompressionType,
    at: usize,
    compressed: Seq<u8>,
)
    requires
        packed(es, names, version, c, GFCPOffset::Custom(at), compressed) is Ok,
    ensures
        has_magic(
            packed(es, names, version, c, GFCPOffset::Custom(at), compressed)->Ok_0,
            at as int,
            magic_gfcp(),
        ),
{
    let gh = gfcp_header(c, payload(es).len() as int, compressed.len() as int);
    lemma_image_parts(es, version, c, at as int, compressed);
    let s = packed(es, names, version, c, GFCPOffset::Custom(at), compressed)->Ok_0;
    assert(s.subrange(at as int, at + 4) =~= s.subrange(at as int, at + 0x14).subrange(0, 4));
    assert(gh.subrange(0, 4) =~= magic_gfcp());
}

/// Packing the same entries with the same options twice gives the same archive: always
/// with BPE, and whenever both calls succeed with LZ10.
pub proof fn lemma_pack_deterministic(
    es: Seq<EntryModel>,
    names: Seq<Seq<char>>,
    version: Version,
    c: CompressionType,
    offset: GFCPOffset,
    r1: Result<Seq<u8>, GfArchError>,
    r2: Result<Seq<u8>, GfArchError>,
)
    requires
        pack_outcome(es, names, version, c, offset, r1),
        pack_outcome(es, names, version, c, offset, r2),
        c == CompressionType::BPE || (r1 is Ok && r2 is Ok),
    ensures
        r1 == r2,
{
}


/// Shorter prefixes of the entries give prefixes of the payload and of the name table.
proof fn lemma_prefix_of(es: Seq<EntryModel>, i: int, j: int)
    requires
        0 <= i <= j <= es.len(),
    ensures
        payload(es.take(i)).len() <= payload(es.take(j)).len(),
        name_table(es.take(i)).len() <= name_table(es.take(j)).len(),
        payload(es.take(j)).subrange(0, payload(es.take(i)).len() as int) == payload(es.take(i)),
        name_table(es.take(j)).subrange(0, name_table(es.take(i)).len() as int) == name_table(
            es.take(i),
        ),
    decreases j - i,
{
    lemma_prefix_mono(es, i, j);
    if i == j {
        assert(payload(es.take(j)).subrange(0, payload(es.take(i)).len() as int) =~= payload(
            es.take(i),
        ));
        assert(name_table(es.take(j)).subrange(0, name_table(es.take(i)).len() as int)
            =~= name_table(es.take(i)));
    } else {
        lemma_prefix_of(es, i, j - 1);
        lemma_prefix_mono(es, i, j - 1);
        lemma_take_step(es, j - 1);
        assert(payload(es.take(j)).subrange(0, payload(es.take(i)).len() as int) =~= payload(
            es.take(j - 1),
        ).subrange(0, payload(es.take(i)).len() as int));
        assert(name_table(es.take(j)).subrange(0, name_table(es.take(i)).len() as int)
            =~= name_table(es.take(j - 1)).subrange(0, name_table(es.take(i)).len() as int));
    }
}

/// A string that runs without NUL from `p` to a NUL at `q` ends at `q`.
proof fn lemma_name_end(s: Seq<u8>, p: int, q: int)
    requires
        0 <= p <= q < s.len(),
        s[q] == 0,
        forall|k: int| p <= k < q ==> s[k] != 0,
    ensures
        name_end(s, p) == q,
    decreases q - p,
{
    if p < q {
        lemma_name_end(s, p + 1, q);
    }
}

/// A storable name's bytes hold no NUL and read back as the name.
proof fn lemma_storable_name(name: Seq<char>)
    requires
        storable_name(name),
    ensures
        latin1(name_bytes(name)) == name,
        forall|k: int| 0 <= k < name.len() ==> name_bytes(name)[k] != 0,
{
    assert forall|k: int| 0 <= k < name.len() implies (name_bytes(name)[k] as char) == name[k]
        && name_bytes(name)[k] != 0 by {
        let ch = name[k];
        assert('\u{1}' <= ch <= '\u{7f}');
        assert(((ch as u8) as char) == ch);
    }
    assert(latin1(name_bytes(name)) =~= name);
}

/// Entries from a list of names and a list of contents.
pub open spec fn entries_of(names: Seq<Seq<char>>, contents: Seq<Seq<u8>>) -> Seq<EntryModel> {
    Seq::new(names.len(), |i: int| (name_bytes(names[i]), contents[i]))
}

/// (name, contents) pairs from a list of names and a list of contents.
pub open spec fn pairs_of(names: Seq<Seq<char>>, contents: Seq<Seq<u8>>) -> Seq<
    (Seq<char>, Seq<u8>),
> {
    Seq::new(names.len(), |i: int| (names[i], contents[i]))
}


/// The name of entry `i` reads back from a name table placed at `base`.
proof fn lemma_name_read(s: Seq<u8>, base: int, es: Seq<EntryModel>, names: Seq<Seq<char>>, i: int)
    requires
        0 <= base,
        base + name_table(es).len() <= s.len(),
        s.subrange(base, base + name_table(es).len()) == name_table(es),
        names.len() == es.len(),
        0 <= i < es.len(),
        es[i].0 == name_bytes(names[i]),
        storable_name(names[i]),
    ensures
        latin1(name_at(s, base + name_table(es.take(i)).len())) == names[i],
        base + name_table(es.take(i)).len() <= s.len(),
{
    let n = es.len() as int;
    lemma_take_all(es);
    lemma_prefix_of(es, i + 1, n);
    lemma_prefix_mono(es, i, i + 1);
    lemma_take_step(es, i);
    lemma_storable_name(names[i]);
    let nt = name_table(es);
    let pre = name_table(es.take(i));
    let p = base + pre.len();
    let len = es[i].0.len() as int;
    let part = pre + es[i].0 + seq![0u8];
    assert(nt.subrange(0, name_table(es.take(i + 1)).len() as int) == part);
    assert forall|k: int| 0 <= k <= len implies #[trigger] s[p + k] == part[pre.len() + k] by {
        assert(s.subrange(base, base + nt.len())[pre.len() + k] == s[p + k]);
        assert(nt.subrange(0, name_table(es.take(i + 1)).len() as int)[pre.len() + k] == nt[pre.len()
            + k]);
    }
    assert(s[p + len] == 0);
    assert forall|k: int| p <= k < p + len implies #[trigger] s[k] != 0 by {
        assert(s[p + (k - p)] == es[i].0[k - p]);
    }
    lemma_name_end(s, p, p + len);
    assert forall|k: int| 0 <= k < len implies #[trigger] s[p + k] == es[i].0[k] by {
        assert(part[pre.len() + k] == es[i].0[k]);
    }
    assert(name_end(s, p) == p + len);
    assert(p + len < s.len());
    assert(name_at(s, p).len() == len);
    assert forall|k: int| 0 <= k < len implies #[trigger] name_at(s, p)[k] == es[i].0[k] by {
        assert(name_at(s, p)[k] == s[p + k]);
    }
    assert(name_at(s, p) =~= es[i].0);
}

/// The contents of entry `i` stand in the payload after those of the entries before it.
proof fn lemma_contents_read(es: Seq<EntryModel>, i: int)
    requires
        0 <= i < es.len(),
    ensures
        payload(es.take(i)).len() + es[i].1.len() <= payload(es).len(),
        payload(es).subrange(
            payload(es.take(i)).len() as int,
            payload(es.take(i)).len() + es[i].1.len() as int,
        ) == es[i].1,
{
    let n = es.len() as int;
    lemma_take_all(es);
    lemma_prefix_of(es, i + 1, n);
    lemma_take_step(es, i);
    lemma_padded_len(es[i].1);
    let pl = payload(es);
    let q = payload(es.take(i)).len() as int;
    assert(pl.subrange(0, payload(es.take(i + 1)).len() as int) == payload(es.take(i)) + padded(
        es[i].1,
    ));
    assert(payload(es.take(i + 1)).len() <= payload(es.take(n)).len());
    assert(payload(es.take(i + 1)).len() == q + padded(es[i].1).len());
    assert(padded(es[i].1).len() >= es[i].1.len());
    assert(q + es[i].1.len() <= pl.len());
    let sub = pl.subrange(q, q + es[i].1.len() as int);
    assert forall|k: int| 0 <= k < es[i].1.len() implies #[trigger] sub[k] == es[i].1[k] by {
        assert(sub[k] == pl[q + k]);
        assert(pl.subrange(0, payload(es.take(i + 1)).len() as int)[q + k] == pl[q + k]);
        assert((payload(es.take(i)) + padded(es[i].1))[q + k] == padded(es[i].1)[k]);
        assert(padded(es[i].1)[k] == es[i].1[k]);
    }
    assert(sub =~= es[i].1);
}

proof fn lemma_flag_mod(x: int, flag: int)
    requires
        0 <= x < 0x100_0000,
        flag == 0 || flag == 0x8000_0000,
    ensures
        ((x + flag) as u32) as int % 0x100_0000 == x,
{
    assert((x + flag) % 0x100_0000 == x) by {
        assert(flag % 0x100_0000 == 0);
    }
}

/// Where entry `i`'s name and contents start, read back from a packed archive.
proof fn lemma_entry_offsets(
    es: Seq<EntryModel>,
    version: Version,
    c: CompressionType,
    gfcp: int,
    compressed: Seq<u8>,
    i: int,
)
    requires
        tables_end(es) < 0x100_0000,
        gfcp >= tables_end(es),
        gfcp + payload(es).len() <= 0xFFFF_FFFF,
        0 <= i < es.len(),
    ensures
        ({
            let s = archive_image(es, version, c, gfcp, compressed);
            &&& entry_name_offset(s, i) == names_start(es.len() as int) + name_table(es.take(i)).len()
            &&& entry_data_offset(s, i) == gfcp + payload(es.take(i)).len()
            &&& entry_size(s, i) == es[i].1.len()
        }),
{
    let n = es.len() as int;
    lemma_image_entry(es, version, c, gfcp, compressed, i);
    lemma_take_all(es);
    lemma_prefix_mono(es, i, n);
    lemma_contents_read(es, i);
    let x = names_start(n) + name_table(es.take(i)).len();
    let flag: int = if i == n - 1 {
        0x8000_0000
    } else {
        0
    };
    assert(name_offset_field(es, i) == x + flag);
    lemma_flag_mod(x, flag);
}

/// The header fields of a packed archive read back.
#[verifier::rlimit(60)]
proof fn lemma_image_header(
    es: Seq<EntryModel>,
    version: Version,
    c: CompressionType,
    gfcp: int,
    compressed: Seq<u8>,
)
    requires
        tables_end(es) < 0x100_0000,
        gfcp >= tables_end(es),
        gfcp <= 0xFFFF_FFFF,
    ensures
        ({
            let s = archive_image(es, version, c, gfcp, compressed);
            &&& s.len() == gfcp + 0x14 + compressed.len()
            &&& has_magic(s, 0, magic_gfac())
            &&& file_count(s) == es.len()
            &&& stored_gfcp(s) == gfcp
            &&& has_magic(s, gfcp, magic_gfcp())
            &&& stored_compression_code(s) == compression_code(c)
            &&& stored_payload(s) == compressed
        }),
{
    let s = archive_image(es, version, c, gfcp, compressed);
    let gh = gfcp_header(c, payload(es).len() as int, compressed.len() as int);
    lemma_image_parts(es, version, c, gfcp, compressed);
    lemma_header_fields(es, version, gfcp, compressed.len() as int);
    assert(s.subrange(0, 4) =~= s.subrange(0, 0x30).subrange(0, 4));
    lemma_read_sub(s, 0, 0x30, 0x2C);
    lemma_read_sub(s, 0, 0x30, 0x14);
    assert(s.subrange(gfcp, gfcp + 4) =~= s.subrange(gfcp, gfcp + 0x14).subrange(0, 4));
    assert(gh.subrange(0, 4) =~= magic_gfcp());
    assert(gh.subrange(8, 12) =~= u32_le(compression_code(c)));
    lemma_read_field(gh, 8, compression_code(c));
    lemma_read_sub(s, gfcp, gfcp + 0x14, gfcp + 8);
    assert(stored_payload(s) =~= compressed);
}

/// Entry `i` of a packed archive reads back as its name and contents.
#[verifier::rlimit(60)]
proof fn lemma_round_trip_entry(
    es: Seq<EntryModel>,
    names: Seq<Seq<char>>,
    version: Version,
    c: CompressionType,
    gfcp: int,
    compressed: Seq<u8>,
    i: int,
)
    requires
        names.len() == es.len(),
        forall|k: int| 0 <= k < es.len() ==> #[trigger] es[k].0 == name_bytes(names[k]),
        forall|k: int| 0 <= k < names.len() ==> storable_name(#[trigger] names[k]),
        tables_end(es) < 0x100_0000,
        gfcp >= tables_end(es),
        gfcp + payload(es).len() <= 0xFFFF_FFFF,
        0 <= i < es.len(),
    ensures
        ({
            let s = archive_image(es, version, c, gfcp, compressed);
            &&& entry_name_offset(s, i) <= s.len()
            &&& !entry_out_of_range(s, payload(es), i)
            &&& file_at(s, payload(es), i) == (names[i], es[i].1)
        }),
{
    let n = es.len() as int;
    let s = archive_image(es, version, c, gfcp, compressed);
    lemma_image_parts(es, version, c, gfcp, compressed);
    lemma_image_header(es, version, c, gfcp, compressed);
    lemma_entry_offsets(es, version, c, gfcp, compressed, i);
    assert(es[i].0 == name_bytes(names[i]));
    assert(storable_name(names[i]));
    lemma_name_read(s, names_start(n), es, names, i);
    lemma_contents_read(es, i);
}

/// Reading back a packed archive gives its entries, names and contents in their order,
/// wherever the codec gives back the payload that it compressed.
#[verifier::rlimit(60)]
pub proof fn lemma_round_trip(
    names: Seq<Seq<char>>,
    contents: Seq<Seq<u8>>,
    version: Version,
    c: CompressionType,
    offset: GFCPOffset,
    compressed: Seq<u8>,
)
    requires
        names.len() == contents.len(),
        packed(entries_of(names, contents), names, version, c, offset, compressed) is Ok,
        decoded_payload(
            packed(entries_of(names, contents), names, version, c, offset, compressed)->Ok_0,
        ) == Some(payload(entries_of(names, contents))),
    ensures
        extracted(packed(entries_of(names, contents), names, version, c, offset, compressed)->Ok_0)
            == Ok::<Seq<(Seq<char>, Seq<u8>)>, GfArchError>(pairs_of(names, contents)),
{
    let es = entries_of(names, contents);
    let n = es.len() as int;
    let gfcp = gfcp_offset_of(es, offset);
    let s = archive_image(es, version, c, gfcp, compressed);
    assert(packed(es, names, version, c, offset, compressed)->Ok_0 == s);
    assert forall|k: int| 0 <= k < es.len() implies #[trigger] es[k].0 == name_bytes(names[k]) by {}
    lemma_image_header(es, version, c, gfcp, compressed);
    assert forall|i: int| 0 <= i < file_count(s) implies !(#[trigger] entry_name_offset(s, i)
        > s.len()) by {
        lemma_round_trip_entry(es, names, version, c, gfcp, compressed, i);
    }
    assert(layout_error(s) is None);
    assert forall|i: int| 0 <= i < file_count(s) implies !#[trigger] entry_out_of_range(
        s,
        payload(es),
        i,
    ) by {
        lemma_round_trip_entry(es, names, version, c, gfcp, compressed, i);
    }
    assert(Seq::new(file_count(s) as nat, |i: int| file_at(s, payload(es), i)) =~= pairs_of(
        names,
        contents,
    )) by {
        assert forall|i: int| 0 <= i < n implies file_at(s, payload(es), i) == pairs_of(
            names,
            contents,
        )[i] by {
            lemma_round_trip_entry(es, names, version, c, gfcp, compressed, i);
        }
    }
}

} // verus!
