use pacarc::errors::{BuildError, CompressionError, EncodingError, FormatError};
use pacarc::pac::{EntryExtract, PacArc, PacArcBuilder, PacFile};

fn le32(v: u32) -> [u8; 4] {
    v.to_le_bytes()
}

fn header_record(offset: u32, size: u32, name: &[u8]) -> Vec<u8> {
    let mut rec = Vec::new();
    rec.extend_from_slice(&le32(offset));
    rec.extend_from_slice(&le32(size));
    let mut slot = [0u8; 56];
    slot[..name.len()].copy_from_slice(name);
    rec.extend_from_slice(&slot);
    rec
}

#[test]
fn pack_parse_extract_round_trip() {
    // One compressed bitmap from 100 bytes, one 10-byte raw entry.
    let bmp_data: Vec<u8> = (0..100u32).map(|i| (i * 7 % 251) as u8).collect();
    let dat_data: Vec<u8> = vec![1, 2, 3, 4, 5, 6, 7, 8, 9, 10];

    let f1 = PacFile::convert_back(bmp_data.clone(), "bmp").unwrap();
    assert!(matches!(f1, PacFile::Bmz { uncompressed_size: 100, .. }));
    let f2 = PacFile::convert_back(dat_data.clone(), "dat").unwrap();
    assert!(matches!(f2, PacFile::Other { .. }));

    let mut builder = PacArcBuilder::new();
    builder.add_entry(f1, "A.bmz").unwrap();
    builder.add_entry(f2, "B.DAT").unwrap();
    let bytes = builder.pack().unwrap();

    let arc = PacArc::parse(&bytes).unwrap();
    assert_eq!(arc.entries_count, 2);
    assert_eq!(arc.entries.len(), 2);
    assert_eq!(arc.entries[0].name().unwrap(), "A.bmz");
    assert_eq!(arc.entries[1].name().unwrap(), "B.DAT");
    assert_eq!(arc.entries[0].file.converted_data().unwrap(), bmp_data);
    assert_eq!(arc.entries[1].file.converted_data().unwrap(), dat_data);
    // The extracted bitmap gets its plain extension back.
    assert_eq!(PacFile::converted_ext("bmz"), "bmp");
}

#[test]
fn pack_empty_archive() {
    let builder = PacArcBuilder::new();
    let bytes = builder.pack().unwrap();
    assert_eq!(bytes, vec![0, 0, 0, 0]);
    let arc = PacArc::parse(&bytes).unwrap();
    assert_eq!(arc.entries_count, 0);
    assert_eq!(arc.entries.len(), 0);
}

#[test]
fn parse_truncated_inputs() {
    assert_eq!(PacArc::parse(&[]).unwrap_err(), FormatError::Truncated);
    assert_eq!(PacArc::parse(&[5, 0]).unwrap_err(), FormatError::Truncated);
    // Count announces two entries but no records follow.
    assert_eq!(PacArc::parse(&le32(2)).unwrap_err(), FormatError::Truncated);
    // One full record whose body offset points past the end.
    let mut bytes = le32(1).to_vec();
    bytes.extend_from_slice(&header_record(1000, 4, b"X"));
    assert_eq!(PacArc::parse(&bytes).unwrap_err(), FormatError::Truncated);
}

#[test]
fn parse_invalid_body() {
    // A body that begins with the compressed marker but whose stored size
    // is smaller than the marker-plus-size overhead.
    let mut bytes = le32(1).to_vec();
    bytes.extend_from_slice(&header_record(68, 4, b"X"));
    bytes.extend_from_slice(b"ZLC3");
    assert_eq!(PacArc::parse(&bytes).unwrap_err(), FormatError::InvalidBody);
}

#[test]
fn bmz_payload_is_size_minus_overhead() {
    let bmp_data: Vec<u8> = vec![0x42; 100];
    let f = PacFile::convert_back(bmp_data, "bmp").unwrap();
    let mut builder = PacArcBuilder::new();
    builder.add_entry(f, "pic.bmz").unwrap();
    let bytes = builder.pack().unwrap();
    let arc = PacArc::parse(&bytes).unwrap();
    let entry = &arc.entries[0];
    match &entry.file {
        PacFile::Bmz { compressed_data, uncompressed_size } => {
            assert_eq!(*uncompressed_size, 100);
            assert_eq!(compressed_data.len(), entry.size as usize - 8);
        }
        PacFile::Other { .. } => panic!("expected the compressed variant"),
    }
}

#[test]
fn corrupt_name_does_not_stop_other_entries() {
    // Two raw entries; the first name is a lone Shift-JIS lead byte.
    let mut bytes = le32(2).to_vec();
    bytes.extend_from_slice(&header_record(132, 4, &[0x81]));
    bytes.extend_from_slice(&header_record(136, 4, b"OK"));
    bytes.extend_from_slice(&[9, 9, 9, 9]);
    bytes.extend_from_slice(&[7, 7, 7, 7]);
    let arc = PacArc::parse(&bytes).unwrap();
    assert_eq!(arc.entries.len(), 2);
    assert!(arc.entries[0].name().is_err());
    assert_eq!(arc.entries[1].name().unwrap(), "OK");
    // Both bodies are still extracted.
    assert_eq!(arc.entries[0].file.converted_data().unwrap(), vec![9, 9, 9, 9]);
    assert_eq!(arc.entries[1].file.converted_data().unwrap(), vec![7, 7, 7, 7]);
}

#[test]
fn extract_plan_fails_bad_entries_alone() {
    // Entry 0: undecodable name. Entry 1: sound body. Entry 2: a marker
    // body whose payload is not a zlib stream.
    let mut bytes = le32(3).to_vec();
    bytes.extend_from_slice(&header_record(196, 4, &[0x81]));
    bytes.extend_from_slice(&header_record(200, 4, b"OK"));
    bytes.extend_from_slice(&header_record(204, 12, b"BAD.bmz"));
    bytes.extend_from_slice(&[9, 9, 9, 9]);
    bytes.extend_from_slice(&[7, 7, 7, 7]);
    bytes.extend_from_slice(b"ZLC3");
    bytes.extend_from_slice(&le32(100));
    bytes.extend_from_slice(&[0xFF, 0xFF, 0xFF, 0xFF]);
    let arc = PacArc::parse(&bytes).unwrap();
    let plan = arc.extract_plan();
    assert_eq!(plan.len(), 3);
    assert!(matches!(
        plan[0],
        EntryExtract::NameFailed { error: EncodingError::Undecodable }
    ));
    match &plan[1] {
        EntryExtract::Extracted { name, data } => {
            assert_eq!(name, "OK");
            assert_eq!(data, &vec![7, 7, 7, 7]);
        }
        other => panic!("expected an extracted entry, got {other:?}"),
    }
    match &plan[2] {
        EntryExtract::DataFailed { name, error } => {
            assert_eq!(name, "BAD.bmz");
            assert_eq!(*error, CompressionError::Malformed);
        }
        other => panic!("expected a decompression failure, got {other:?}"),
    }
}

#[test]
fn body_resolution_is_by_offset() {
    // Bodies stored in the reverse of header order still resolve.
    let mut bytes = le32(2).to_vec();
    bytes.extend_from_slice(&header_record(136, 4, b"first"));
    bytes.extend_from_slice(&header_record(132, 4, b"second"));
    bytes.extend_from_slice(&[1, 1, 1, 1]);
    bytes.extend_from_slice(&[2, 2, 2, 2]);
    let arc = PacArc::parse(&bytes).unwrap();
    assert_eq!(arc.entries[0].file.converted_data().unwrap(), vec![2, 2, 2, 2]);
    assert_eq!(arc.entries[1].file.converted_data().unwrap(), vec![1, 1, 1, 1]);
}

#[test]
fn add_entry_rejects_bad_names() {
    let long_name = "a".repeat(56);
    let mut builder = PacArcBuilder::new();
    let f = PacFile::Other { data: vec![1, 2, 3, 4] };
    assert_eq!(
        builder.add_entry(f, &long_name).unwrap_err(),
        BuildError::NameTooLong
    );
    let f = PacFile::Other { data: vec![1, 2, 3, 4] };
    assert_eq!(
        builder.add_entry(f, "\u{1F3AE}.dat").unwrap_err(),
        BuildError::NameEncoding
    );
    // A 55-byte name still fits: one byte is left for the terminator.
    let f = PacFile::Other { data: vec![1, 2, 3, 4] };
    builder.add_entry(f, &"a".repeat(55)).unwrap();
    let bytes = builder.pack().unwrap();
    let arc = PacArc::parse(&bytes).unwrap();
    assert_eq!(arc.entries[0].name().unwrap(), "a".repeat(55));
}

#[test]
fn extension_mapping() {
    assert_eq!(PacFile::converted_ext("bmz"), "bmp");
    assert_eq!(PacFile::converted_ext("dat"), "dat");
    assert_eq!(PacFile::converted_ext(""), "");
    assert_eq!(PacFile::original_ext("bmp"), "bmz");
    assert_eq!(PacFile::original_ext("txt"), "txt");
}
