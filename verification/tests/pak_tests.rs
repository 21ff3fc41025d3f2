use jx_remake::nrv2b::DecompressError;
use jx_remake::pak::{
    decode_entry_data, jx_file_name_hash, read_u32_le, ArchiveFormatError, EntryPayload,
    PakEntry, PakHeader, PakReader, PACK_SIGNATURE,
};

fn push_u32(out: &mut Vec<u8>, v: u32) {
    out.extend_from_slice(&v.to_le_bytes());
}

/// Builds archive bytes: the five header words and 12 reserved bytes,
/// then the index table, one 16-byte record per entry.
fn build_archive(entries: &[(u32, u32, u32, u32)]) -> Vec<u8> {
    let mut out = Vec::new();
    push_u32(&mut out, PACK_SIGNATURE);
    push_u32(&mut out, entries.len() as u32);
    push_u32(&mut out, 32); // index_offset: right after the 32 on-disk header bytes
    push_u32(&mut out, 32 + 16 * entries.len() as u32); // data_offset (informational)
    push_u32(&mut out, 0); // checksum (unused)
    out.extend_from_slice(&[0u8; 12]); // reserved, not part of the parsed fields
    for &(id, offset, original_size, compress_flag) in entries {
        push_u32(&mut out, id);
        push_u32(&mut out, offset);
        push_u32(&mut out, original_size);
        push_u32(&mut out, compress_flag);
    }
    out
}

fn open_archive(bytes: &[u8]) -> PakReader {
    let header = PakHeader::parse(&bytes[0..24]).expect("header");
    let start = header.index_offset as usize;
    PakReader::new(header, &bytes[start..]).expect("index")
}

#[test]
fn read_u32_le_decodes_little_endian() {
    assert_eq!(read_u32_le(&[0x78, 0x56, 0x34, 0x12]), 0x12345678);
    assert_eq!(read_u32_le(&[0, 0, 0, 0]), 0);
    assert_eq!(read_u32_le(&[0xff, 0xff, 0xff, 0xff]), 0xffffffff);
}

#[test]
fn entry_accessors_split_the_flag_word() {
    let e = PakEntry {
        id: 1,
        offset: 0,
        original_size: 100,
        compress_flag: 0x01_00_00_40,
    };
    assert_eq!(e.get_stored_size(), 0x40);
    assert_eq!(e.get_compression_type(), 1);
    let raw = PakEntry {
        id: 2,
        offset: 0,
        original_size: 8,
        compress_flag: 0x00_FF_FF_FF,
    };
    assert_eq!(raw.get_stored_size(), 0x00FF_FFFF);
    assert_eq!(raw.get_compression_type(), 0);
}

#[test]
fn header_rejects_bad_signature() {
    let mut bytes = build_archive(&[]);
    bytes[0] = b'X';
    assert_eq!(
        PakHeader::parse(&bytes[0..24]),
        Err(ArchiveFormatError::BadSignature)
    );
}

#[test]
fn header_rejects_short_buffer() {
    let bytes = build_archive(&[]);
    assert_eq!(
        PakHeader::parse(&bytes[0..10]),
        Err(ArchiveFormatError::Truncated)
    );
}

#[test]
fn zero_entry_archive_opens_with_empty_index() {
    let bytes = build_archive(&[]);
    let pak = open_archive(&bytes);
    assert_eq!(pak.header.count, 0);
    assert!(pak.find_file("\\settings\\serverlist.ini").is_none());
    assert!(pak.find_file("").is_none());
}

#[test]
fn truncated_index_is_rejected() {
    let mut bytes = build_archive(&[(7, 100, 8, 8)]);
    bytes.truncate(bytes.len() - 1);
    let header = PakHeader::parse(&bytes[0..24]).expect("header");
    let start = header.index_offset as usize;
    assert_eq!(
        PakReader::new(header, &bytes[start..]).err(),
        Some(ArchiveFormatError::Truncated)
    );
}

#[test]
fn find_returns_every_inserted_path() {
    let paths = ["\\settings\\serverlist.ini", "spr/test.spr", "\\ui\\login.spr"];
    let entries: Vec<(u32, u32, u32, u32)> = paths
        .iter()
        .enumerate()
        .map(|(i, p)| (jx_file_name_hash(p), 100 + i as u32, 10 * i as u32, i as u32))
        .collect();
    let bytes = build_archive(&entries);
    let pak = open_archive(&bytes);
    for (i, p) in paths.iter().enumerate() {
        let e = pak.find_file(p).expect("inserted path must be found");
        assert_eq!(e.id, jx_file_name_hash(p));
        assert_eq!(e.offset, 100 + i as u32);
        assert_eq!(e.original_size, 10 * i as u32);
        assert_eq!(e.compress_flag, i as u32);
    }
    assert!(pak.find_file("\\never\\inserted.spr").is_none());
}

#[test]
fn duplicate_ids_resolve_to_last_entry() {
    let id = jx_file_name_hash("\\twice.spr");
    let bytes = build_archive(&[(id, 111, 1, 0), (id, 222, 2, 0)]);
    let pak = open_archive(&bytes);
    let e = pak.find_file("\\twice.spr").expect("found");
    assert_eq!(e.offset, 222);
    let by_id = pak.find_by_id(id).expect("found by id");
    assert_eq!(by_id.offset, 222);
}

#[test]
fn stored_entry_decodes_to_exactly_the_stored_bytes() {
    let e = PakEntry {
        id: 1,
        offset: 0,
        original_size: 4,
        compress_flag: 4, // type 0, stored size 4
    };
    let payload = decode_entry_data(&e, vec![9, 8, 7, 6]).expect("ok");
    assert_eq!(payload, EntryPayload::Stored(vec![9, 8, 7, 6]));
}

#[test]
fn unsupported_compression_returns_raw_tagged_bytes() {
    let e = PakEntry {
        id: 1,
        offset: 0,
        original_size: 4,
        compress_flag: 0x02_00_00_03, // type 2: not decoded
    };
    let payload = decode_entry_data(&e, vec![1, 2, 3]).expect("ok");
    assert_eq!(payload, EntryPayload::Unsupported(vec![1, 2, 3]));
}

#[test]
fn compressed_entry_failure_reports_decoder_error() {
    let e = PakEntry {
        id: 1,
        offset: 0,
        original_size: 100,
        compress_flag: 0x01_00_00_00, // type 1 with no stored bytes
    };
    assert_eq!(
        decode_entry_data(&e, Vec::new()),
        Err(DecompressError::InputOverrun)
    );
}
