use gfarch::bpe_stream::bpe_check;
use gfarch::codec::lz10_check;
use gfarch::gfarch::{
    assemble, calculate_checksum, collect_files, extract, pack_from_bytes, pack_from_files,
    read_layout, read_string, ArchiveLayout, CompressionType, FileContents, FileEntry,
    GFCPOffset, GfArchError, Version,
};

fn u32_at(b: &[u8], off: usize) -> u32 {
    u32::from_le_bytes([b[off], b[off + 1], b[off + 2], b[off + 3]])
}

fn sample_contents() -> Vec<Vec<u8>> {
    vec![
        b"hello world, hello world, hello world".to_vec(),
        vec![],
        (0..100u8).collect(),
        vec![7u8; 33],
    ]
}

fn sample_names() -> Vec<String> {
    vec![
        "a.bin".to_string(),
        "empty.dat".to_string(),
        "counting.bin".to_string(),
        "sea_turtle_01.brres".to_string(),
    ]
}

fn pack(version: Version, c: CompressionType, offset: GFCPOffset) -> Vec<u8> {
    pack_from_bytes(&sample_contents(), &sample_names(), version, c, offset).unwrap()
}

fn assert_round_trip(archive: &[u8]) {
    let files = extract(archive).unwrap();
    let names = sample_names();
    let contents = sample_contents();
    assert_eq!(files.len(), names.len());
    for i in 0..files.len() {
        assert_eq!(files[i].filename, names[i]);
        assert_eq!(files[i].contents, contents[i]);
    }
}

#[test]
fn validate_checksum() {
    let sample = "sea_turtle_01.brres";
    let checksum = calculate_checksum(sample);
    assert_eq!(0xCC91B7B8, checksum.swap_bytes());
}

#[test]
fn checksum_small_values() {
    assert_eq!(calculate_checksum(""), 0);
    assert_eq!(calculate_checksum("a"), 97);
    assert_eq!(calculate_checksum("ab"), 97 * 137 + 98);
    assert_eq!(calculate_checksum("\0"), 0);
}

#[test]
fn round_trip_bpe_default() {
    assert_round_trip(&pack(Version::V3_1, CompressionType::BPE, GFCPOffset::Default));
}

#[test]
fn round_trip_lz10_default() {
    assert_round_trip(&pack(Version::V3, CompressionType::LZ10, GFCPOffset::Default));
}

#[test]
fn round_trip_bpe_custom() {
    assert_round_trip(&pack(Version::V2, CompressionType::BPE, GFCPOffset::Custom(0x2000)));
}

#[test]
fn round_trip_lz10_custom() {
    assert_round_trip(&pack(Version::V3_1, CompressionType::LZ10, GFCPOffset::Custom(0x2000)));
}

#[test]
fn round_trip_no_entries() {
    let archive =
        pack_from_bytes(&[], &[], Version::V3_1, CompressionType::BPE, GFCPOffset::Default)
            .unwrap();
    assert_eq!(extract(&archive).unwrap().len(), 0);
}

#[test]
fn header_fields_default_layout() {
    let a = pack(Version::V3_1, CompressionType::BPE, GFCPOffset::Default);
    assert_eq!(&a[0..4], b"GFAC");
    assert_eq!(u32_at(&a, 4), 0x0301);
    assert_eq!(a[8], 1);
    assert_eq!(u32_at(&a, 0xC), 0x2C);
    // 4 + 16 * 4 + (5 + 9 + 12 + 19) + 4 terminators
    let info = 4 + 64 + 45 + 4;
    assert_eq!(u32_at(&a, 0x10), info);
    let gfcp = 0x30 + (info + 15) / 16 * 16;
    assert_eq!(u32_at(&a, 0x14), gfcp);
    assert_eq!(u32_at(&a, 0x2C), 4);
    let gfcp = gfcp as usize;
    assert_eq!(&a[gfcp..gfcp + 4], b"GFCP");
    assert_eq!(u32_at(&a, gfcp + 4), 1);
    assert_eq!(u32_at(&a, gfcp + 8), 1);
    // payload: 37 -> 48, 0, 100 -> 112, 33 -> 48
    assert_eq!(u32_at(&a, gfcp + 0xC), 48 + 112 + 48);
    let clen = u32_at(&a, gfcp + 0x10);
    assert_eq!(u32_at(&a, 0x18), 0x14 + clen);
    assert_eq!(a.len(), gfcp + 0x14 + clen as usize);
}

#[test]
fn version_codes() {
    let v2 = pack(Version::V2, CompressionType::BPE, GFCPOffset::Default);
    let v3 = pack(Version::V3, CompressionType::BPE, GFCPOffset::Default);
    assert_eq!(u32_at(&v2, 4), 0x0200);
    assert_eq!(u32_at(&v3, 4), 0x0300);
}

#[test]
fn compression_type_code_lz10() {
    let a = pack(Version::V3_1, CompressionType::LZ10, GFCPOffset::Default);
    let gfcp = u32_at(&a, 0x14) as usize;
    assert_eq!(u32_at(&a, gfcp + 8), 3);
}

#[test]
fn entry_records_and_names() {
    let a = pack(Version::V3_1, CompressionType::BPE, GFCPOffset::Default);
    let names = sample_names();
    let contents = sample_contents();
    let mut name_off = 0x30 + 16 * 4;
    for i in 0..4 {
        let rec = 0x30 + 16 * i;
        assert_eq!(u32_at(&a, rec), calculate_checksum(&names[i]));
        assert_eq!(u32_at(&a, rec + 4) & 0x00FF_FFFF, name_off as u32);
        assert_eq!(u32_at(&a, rec + 8), contents[i].len() as u32);
        assert_eq!(&a[name_off..name_off + names[i].len()], names[i].as_bytes());
        assert_eq!(a[name_off + names[i].len()], 0);
        name_off += names[i].len() + 1;
    }
}

#[test]
fn last_entry_flag_only_on_last() {
    let a = pack(Version::V3_1, CompressionType::BPE, GFCPOffset::Default);
    for i in 0..4 {
        let flag = u32_at(&a, 0x30 + 16 * i + 4) & 0x8000_0000;
        assert_eq!(flag != 0, i == 3);
    }
}

#[test]
fn last_entry_flag_single_entry() {
    let a = pack_from_bytes(
        &[vec![1, 2, 3]],
        &["one".to_string()],
        Version::V3_1,
        CompressionType::BPE,
        GFCPOffset::Default,
    )
    .unwrap();
    assert_eq!(u32_at(&a, 0x34), 0x8000_0000 | 0x40);
}

#[test]
fn data_offsets_are_aligned() {
    let a = pack(Version::V3_1, CompressionType::BPE, GFCPOffset::Default);
    let gfcp = u32_at(&a, 0x14);
    let offs: Vec<u32> = (0..4).map(|i| u32_at(&a, 0x30 + 16 * i + 0xC)).collect();
    assert_eq!(offs[0], gfcp);
    assert_eq!(offs[1] - offs[0], 48);
    assert_eq!(offs[2] - offs[1], 0);
    assert_eq!(offs[3] - offs[2], 112);
}

#[test]
fn packing_is_deterministic() {
    for c in [CompressionType::BPE, CompressionType::LZ10] {
        let x = pack_from_bytes(&sample_contents(), &sample_names(), Version::V3, c, GFCPOffset::Default);
        let c2 = match c {
            CompressionType::BPE => CompressionType::BPE,
            CompressionType::LZ10 => CompressionType::LZ10,
        };
        let y = pack_from_bytes(&sample_contents(), &sample_names(), Version::V3, c2, GFCPOffset::Default);
        assert_eq!(x.unwrap(), y.unwrap());
    }
}

#[test]
fn custom_offset_places_gfcp() {
    for n in [0usize, 1, 3, 20] {
        let contents: Vec<Vec<u8>> = (0..n).map(|i| vec![i as u8; i * 3]).collect();
        let names: Vec<String> = (0..n).map(|i| format!("file_with_a_long_name_{}.bin", i)).collect();
        let a = pack_from_bytes(&contents, &names, Version::V3_1, CompressionType::BPE, GFCPOffset::Custom(0x2000))
            .unwrap();
        assert_eq!(&a[0x2000..0x2004], b"GFCP");
        assert_eq!(u32_at(&a, 0x14), 0x2000);
    }
}

#[test]
fn bpe_payload_is_encoded() {
    let contents = vec![vec![0xABu8; 4096]];
    let names = vec!["big.bin".to_string()];
    let a = pack_from_bytes(&contents, &names, Version::V3_1, CompressionType::BPE, GFCPOffset::Default).unwrap();
    let gfcp = u32_at(&a, 0x14) as usize;
    assert_eq!(u32_at(&a, gfcp + 0xC), 4096);
    assert!(u32_at(&a, gfcp + 0x10) < 4096);
    assert_eq!(extract(&a).unwrap()[0].contents, contents[0]);
}

#[test]
fn lz10_payload_is_encoded_without_frame() {
    let contents = vec![vec![0x11u8; 4096]];
    let names = vec!["big.bin".to_string()];
    let a = pack_from_bytes(&contents, &names, Version::V3_1, CompressionType::LZ10, GFCPOffset::Default).unwrap();
    let gfcp = u32_at(&a, 0x14) as usize;
    let clen = u32_at(&a, gfcp + 0x10) as usize;
    assert!(clen < 4096);
    assert_eq!(a.len(), gfcp + 0x14 + clen);
    // no 0x10 size frame: the first byte is the first flag byte of the stream
    assert_ne!(&a[gfcp + 0x14..gfcp + 0x18], &[0x10, 0x00, 0x10, 0x00]);
    assert_eq!(extract(&a).unwrap()[0].contents, contents[0]);
}

#[test]
fn pack_from_files_matches_pack_from_bytes() {
    let files: Vec<FileContents> = sample_contents()
        .into_iter()
        .zip(sample_names())
        .map(|(contents, filename)| FileContents { contents, filename })
        .collect();
    let a = pack_from_files(&files, Version::V3_1, CompressionType::BPE, GFCPOffset::Default).unwrap();
    assert_eq!(a, pack(Version::V3_1, CompressionType::BPE, GFCPOffset::Default));
}

#[test]
fn assemble_exact_bytes() {
    let files = vec![FileContents { contents: vec![9, 9], filename: "ab".to_string() }];
    let a = assemble(&files, Version::V2, CompressionType::BPE, GFCPOffset::Default, &[1, 2, 3]).unwrap();
    let mut expected = vec![0u8; 0x30];
    expected[0..4].copy_from_slice(b"GFAC");
    expected[4..8].copy_from_slice(&0x0200u32.to_le_bytes());
    expected[8] = 1;
    expected[0xC..0x10].copy_from_slice(&0x2Cu32.to_le_bytes());
    expected[0x10..0x14].copy_from_slice(&23u32.to_le_bytes());
    expected[0x14..0x18].copy_from_slice(&0x50u32.to_le_bytes());
    expected[0x18..0x1C].copy_from_slice(&0x17u32.to_le_bytes());
    expected[0x2C..0x30].copy_from_slice(&1u32.to_le_bytes());
    expected.extend_from_slice(&calculate_checksum("ab").to_le_bytes());
    expected.extend_from_slice(&(0x8000_0040u32).to_le_bytes());
    expected.extend_from_slice(&2u32.to_le_bytes());
    expected.extend_from_slice(&0x50u32.to_le_bytes());
    expected.extend_from_slice(b"ab\0");
    expected.resize(0x50, 0);
    expected.extend_from_slice(b"GFCP");
    expected.extend_from_slice(&1u32.to_le_bytes());
    expected.extend_from_slice(&1u32.to_le_bytes());
    expected.extend_from_slice(&16u32.to_le_bytes());
    expected.extend_from_slice(&3u32.to_le_bytes());
    expected.extend_from_slice(&[1, 2, 3]);
    assert_eq!(a, expected);
}

#[test]
fn mismatched_counts_rejected() {
    let r = pack_from_bytes(&[vec![1]], &[], Version::V3_1, CompressionType::BPE, GFCPOffset::Default);
    assert_eq!(r, Err(GfArchError::InvalidInputError));
}

#[test]
fn nul_in_name_rejected() {
    let r = pack_from_bytes(&[vec![1]], &["a\0b".to_string()], Version::V3_1, CompressionType::BPE, GFCPOffset::Default);
    assert_eq!(r, Err(GfArchError::InvalidInputError));
}

#[test]
fn non_ascii_name_rejected() {
    let r = pack_from_bytes(&[vec![1]], &["caf\u{e9}".to_string()], Version::V3_1, CompressionType::BPE, GFCPOffset::Default);
    assert_eq!(r, Err(GfArchError::InvalidInputError));
}

#[test]
fn custom_offset_inside_tables_rejected() {
    let r = pack_from_bytes(&[vec![1]], &["a".to_string()], Version::V3_1, CompressionType::BPE, GFCPOffset::Custom(0x20));
    assert_eq!(r, Err(GfArchError::InvalidInputError));
}

#[test]
fn bad_archive_magic() {
    let mut a = pack(Version::V3_1, CompressionType::BPE, GFCPOffset::Default);
    a[0] = b'X';
    assert!(matches!(extract(&a), Err(GfArchError::ArchiveHeaderError)));
    assert!(matches!(extract(b"GF"), Err(GfArchError::ArchiveHeaderError)));
    assert!(matches!(extract(&[]), Err(GfArchError::ArchiveHeaderError)));
}

#[test]
fn bad_compression_magic() {
    let mut a = pack(Version::V3_1, CompressionType::BPE, GFCPOffset::Default);
    let gfcp = u32_at(&a, 0x14) as usize;
    a[gfcp + 3] = b'X';
    assert!(matches!(extract(&a), Err(GfArchError::CompressionHeaderError)));
    let mut b = pack(Version::V3_1, CompressionType::BPE, GFCPOffset::Default);
    b[0x14..0x18].copy_from_slice(&0xFFFF_0000u32.to_le_bytes());
    assert!(matches!(extract(&b), Err(GfArchError::CompressionHeaderError)));
}

#[test]
fn unsupported_compression_type() {
    let mut a = pack(Version::V3_1, CompressionType::BPE, GFCPOffset::Default);
    let gfcp = u32_at(&a, 0x14) as usize;
    a[gfcp + 8..gfcp + 12].copy_from_slice(&2u32.to_le_bytes());
    assert!(matches!(extract(&a), Err(GfArchError::UnsupportedCompressionTypeError(2))));
}

#[test]
fn truncated_archives() {
    let a = pack(Version::V3_1, CompressionType::BPE, GFCPOffset::Default);
    assert!(matches!(extract(&a[..0x20]), Err(GfArchError::TruncatedArchiveError)));
    let mut b = a.clone();
    b[0x2C..0x30].copy_from_slice(&1000u32.to_le_bytes());
    assert!(matches!(extract(&b), Err(GfArchError::TruncatedArchiveError)));
    let mut c = a.clone();
    c[0x34..0x38].copy_from_slice(&0x00FF_0000u32.to_le_bytes());
    assert!(matches!(extract(&c), Err(GfArchError::TruncatedArchiveError)));
    let mut d = a.clone();
    d[0x38..0x3C].copy_from_slice(&100000u32.to_le_bytes());
    assert!(matches!(extract(&d), Err(GfArchError::TruncatedArchiveError)));
    let mut e = a.clone();
    e[0x3C..0x40].copy_from_slice(&0u32.to_le_bytes());
    assert!(matches!(extract(&e), Err(GfArchError::TruncatedArchiveError)));
}

#[test]
fn lz10_stream_rejected() {
    let mut a = pack(Version::V3_1, CompressionType::LZ10, GFCPOffset::Default);
    let gfcp = u32_at(&a, 0x14) as usize;
    // a stream that ends before the declared size
    a.truncate(gfcp + 0x15);
    assert!(matches!(extract(&a), Err(GfArchError::LZ10DecompressError)));
}

#[test]
fn read_string_stops_at_nul() {
    assert_eq!(read_string(b"abc\0def", 0), "abc");
    assert_eq!(read_string(b"abc\0def", 4), "def");
    assert_eq!(read_string(b"abc", 3), "");
    assert_eq!(read_string(&[0x41, 0xE9, 0], 0), "A\u{e9}");
}

#[test]
fn file_entry_from_bytes() {
    let mut rec = vec![0u8; 16];
    rec[4..8].copy_from_slice(&0x8012_3456u32.to_le_bytes());
    rec[8..12].copy_from_slice(&77u32.to_le_bytes());
    rec[12..16].copy_from_slice(&0x1000u32.to_le_bytes());
    let e = FileEntry::from_bytes(&rec);
    assert_eq!(e.name_offset, 0x12_3456);
    assert_eq!(e.decompressed_size, 77);
    assert_eq!(e.decompressed_offset, 0x1000);
}

#[test]
fn layout_then_collect() {
    let a = pack(Version::V3_1, CompressionType::BPE, GFCPOffset::Default);
    let layout: ArchiveLayout = read_layout(&a).unwrap();
    assert_eq!(layout.filenames, sample_names());
    assert!(matches!(layout.compression, CompressionType::BPE));
    let mut payload = Vec::new();
    for c in sample_contents() {
        payload.extend_from_slice(&c);
        payload.resize((payload.len() + 15) / 16 * 16, 0);
    }
    let files = collect_files(&layout, &payload).unwrap();
    assert_eq!(files[2].contents, sample_contents()[2]);
    assert!(matches!(collect_files(&layout, &payload[..10]), Err(GfArchError::TruncatedArchiveError)));
}

#[test]
fn bpe_check_streams() {
    assert!(bpe_check(&[]));
    assert!(!bpe_check(&[0]));
    // codes 0 and 1 are pairs that expand to each other
    let cyclic = [1, 1, 5, 0, 5, 255, 130, 252, 0, 1, 0];
    assert!(!bpe_check(&cyclic));
    // the same table, with a literal as data
    let literal = [1, 1, 5, 0, 5, 255, 130, 252, 0, 1, 2];
    assert!(bpe_check(&literal));
    // size says two data bytes, one is there
    let short = [1, 1, 5, 0, 5, 255, 130, 252, 0, 2, 2];
    assert!(!bpe_check(&short));
}

#[test]
fn bpe_stream_rejected() {
    let mut a = pack(Version::V3_1, CompressionType::BPE, GFCPOffset::Default);
    let gfcp = u32_at(&a, 0x14) as usize;
    a.truncate(gfcp + 0x14);
    a.extend_from_slice(&[1, 1, 5, 0, 5, 255, 130, 252, 0, 1, 0]);
    assert!(matches!(extract(&a), Err(GfArchError::BPEDecompressError)));
}

#[test]
fn lz10_check_streams() {
    assert!(lz10_check(&[0x10, 0, 0, 0]));
    assert!(!lz10_check(&[0x11, 0, 0, 0]));
    assert!(!lz10_check(&[0x10, 4, 0]));
    // a back-reference before any output
    assert!(!lz10_check(&[0x10, 4, 0, 0, 0x80, 0x00, 0x00]));
    // one literal, then a back-reference to it
    assert!(lz10_check(&[0x10, 4, 0, 0, 0x40, 0x41, 0x00, 0x00]));
}

#[test]
fn lz10_back_reference_rejected() {
    let mut a = pack(Version::V3_1, CompressionType::LZ10, GFCPOffset::Default);
    let gfcp = u32_at(&a, 0x14) as usize;
    a.truncate(gfcp + 0x14);
    a.extend_from_slice(&[0x80, 0x00, 0x00]);
    assert!(matches!(extract(&a), Err(GfArchError::LZ10DecompressError)));
}
