use xcx_archive::arh::{Arh, ArhError};
use xcx_archive::archive::{Archive, ExtractOutcome, count_extracted};
use xcx_archive::ard::{Ard, to_hex16, output_filename};
use xxhash_rust::xxh64::xxh64;

fn push_u32(bytes: &mut Vec<u8>, v: u32) {
    bytes.extend_from_slice(&v.to_le_bytes());
}

fn push_u64(bytes: &mut Vec<u8>, v: u64) {
    bytes.extend_from_slice(&v.to_le_bytes());
}

fn header_bytes(alignment: u32, entries: &[(u64, u32, u32)]) -> Vec<u8> {
    let mut bytes = Vec::new();
    bytes.extend_from_slice(b"arh2");
    push_u32(&mut bytes, entries.len() as u32);
    push_u32(&mut bytes, alignment);
    push_u32(&mut bytes, 0);
    for &(hash, disk_size, file_size) in entries {
        push_u64(&mut bytes, hash);
        push_u32(&mut bytes, disk_size);
        push_u32(&mut bytes, file_size);
    }
    bytes
}

#[test]
fn parse_two_entry_header_offsets() {
    // Header declares two members with alignment 16; sizes 10 and 20.
    let bytes = header_bytes(16, &[(0x1111, 10, 0), (0x2222, 20, 5)]);
    let mut arh = Arh::create();
    assert!(arh.read(&bytes).is_ok());
    assert_eq!(arh.magic, 0x32687261);
    assert_eq!(arh.file_count, 2);
    assert_eq!(arh.alignment, 16);
    assert_eq!(arh.file_descriptors.len(), 2);
    assert_eq!(arh.file_descriptors[0].file_pos, 0);
    assert_eq!(arh.file_descriptors[1].file_pos, 16);
    assert_eq!(arh.file_descriptors[0].filename_hash, 0x1111);
    assert_eq!(arh.file_descriptors[0].disk_size, 10);
    assert_eq!(arh.file_descriptors[1].disk_size, 20);
    assert_eq!(arh.file_descriptors[1].file_size, 5);
    assert_eq!(arh.file_descriptors[0].filename, "");
}

#[test]
fn parse_offsets_alignment_one() {
    let bytes = header_bytes(1, &[(1, 7, 0), (2, 3, 0), (3, 5, 0)]);
    let mut arh = Arh::create();
    assert!(arh.read(&bytes).is_ok());
    assert_eq!(arh.file_descriptors[0].file_pos, 0);
    assert_eq!(arh.file_descriptors[1].file_pos, 7);
    assert_eq!(arh.file_descriptors[2].file_pos, 10);
}

#[test]
fn parse_short_header_is_read_error() {
    let bytes = vec![0x61u8, 0x72, 0x68];
    let mut arh = Arh::create();
    assert_eq!(arh.read(&bytes), Err(ArhError::ReadError));
}

#[test]
fn parse_truncated_entries_is_read_error() {
    let mut bytes = header_bytes(16, &[(0x1111, 10, 0), (0x2222, 20, 5)]);
    bytes.truncate(bytes.len() - 1);
    let mut arh = Arh::create();
    assert_eq!(arh.read(&bytes), Err(ArhError::ReadError));
}

#[test]
fn parse_bad_magic_is_format_error() {
    let mut bytes = header_bytes(16, &[(0x1111, 10, 0)]);
    bytes[0] = b'x';
    let mut arh = Arh::create();
    assert_eq!(arh.read(&bytes), Err(ArhError::FormatError));
}

#[test]
fn parse_zero_alignment_is_format_error() {
    let bytes = header_bytes(0, &[(0x1111, 10, 0)]);
    let mut arh = Arh::create();
    assert_eq!(arh.read(&bytes), Err(ArhError::FormatError));
}

#[test]
fn parse_non_power_of_two_alignment_is_format_error() {
    let bytes = header_bytes(24, &[(0x1111, 10, 0)]);
    let mut arh = Arh::create();
    assert_eq!(arh.read(&bytes), Err(ArhError::FormatError));
}

#[test]
fn parse_error_leaves_header_unchanged() {
    let good = header_bytes(8, &[(0x42, 4, 0)]);
    let mut arh = Arh::create();
    assert!(arh.read(&good).is_ok());
    let bad = header_bytes(0, &[(0x99, 9, 0)]);
    assert_eq!(arh.read(&bad), Err(ArhError::FormatError));
    assert_eq!(arh.file_descriptors.len(), 1);
    assert_eq!(arh.file_descriptors[0].filename_hash, 0x42);
    assert_eq!(arh.alignment, 8);
}

#[test]
fn round_trip_header() {
    let bytes = header_bytes(16, &[(0xAABBCCDD11223344, 10, 0), (0x2222, 20, 5), (7, 0, 0)]);
    let mut arh = Arh::create();
    assert!(arh.read(&bytes).is_ok());
    let written = arh.write_header();
    assert_eq!(written, bytes);
}

#[test]
fn find_by_name_resolves_hash_match() {
    let name = "foo/bar.txt";
    let hash = xxh64(name.as_bytes(), 0);
    let bytes = header_bytes(16, &[(0x1234, 10, 0), (hash, 20, 0)]);
    let mut arh = Arh::create();
    assert!(arh.read(&bytes).is_ok());
    assert_eq!(arh.find_file_by_name(name), Some(1));
    assert_eq!(arh.file_descriptors[1].filename, name);
    // Second lookup takes the memoized path and must agree.
    assert_eq!(arh.find_file_by_name(name), Some(1));
    assert_eq!(arh.file_descriptors[1].filename, name);
}

#[test]
fn find_by_name_misses() {
    let bytes = header_bytes(16, &[(0x1234, 10, 0)]);
    let mut arh = Arh::create();
    assert!(arh.read(&bytes).is_ok());
    assert_eq!(arh.find_file_by_name("unknown"), None);
    assert_eq!(arh.file_descriptors[0].filename, "");
}

#[test]
fn supply_filenames_resolves_and_counts() {
    let names: Vec<String> =
        vec!["a.bin".to_string(), "b/c.dat".to_string(), "unused.txt".to_string()];
    let h0 = xxh64(b"a.bin", 0);
    let h1 = xxh64(b"b/c.dat", 0);
    let bytes = header_bytes(16, &[(h0, 1, 0), (0xDEAD, 2, 0), (h1, 3, 0)]);
    let mut arh = Arh::create();
    assert!(arh.read(&bytes).is_ok());
    let count = arh.supply_filenames(&names);
    assert_eq!(count, 2);
    assert_eq!(arh.file_descriptors[0].filename, "a.bin");
    assert_eq!(arh.file_descriptors[1].filename, "");
    assert_eq!(arh.file_descriptors[2].filename, "b/c.dat");
}

#[test]
fn supply_filenames_is_idempotent() {
    let names: Vec<String> = vec!["one".to_string(), "two".to_string()];
    let h0 = xxh64(b"one", 0);
    let h1 = xxh64(b"two", 0);
    let bytes = header_bytes(4, &[(h1, 1, 0), (h0, 2, 0)]);
    let mut arh = Arh::create();
    assert!(arh.read(&bytes).is_ok());
    let first = arh.supply_filenames(&names);
    let snapshot: Vec<String> =
        arh.file_descriptors.iter().map(|fd| fd.filename.clone()).collect();
    let second = arh.supply_filenames(&names);
    let again: Vec<String> = arh.file_descriptors.iter().map(|fd| fd.filename.clone()).collect();
    assert_eq!(first, 2);
    assert_eq!(second, 2);
    assert_eq!(snapshot, again);
    assert_eq!(snapshot, vec!["two".to_string(), "one".to_string()]);
}

#[test]
fn supply_filenames_last_candidate_wins_on_equal_hashes() {
    // Two candidate entries with the same characters hash identically; the
    // later one is the one assigned.
    let names: Vec<String> = vec!["dup".to_string(), "dup".to_string()];
    let h = xxh64(b"dup", 0);
    let bytes = header_bytes(2, &[(h, 1, 0)]);
    let mut arh = Arh::create();
    assert!(arh.read(&bytes).is_ok());
    assert_eq!(arh.supply_filenames(&names), 1);
    assert_eq!(arh.file_descriptors[0].filename, "dup");
}

#[test]
fn to_hex16_exact() {
    assert_eq!(to_hex16(0x0123456789ABCDEF), "0123456789ABCDEF");
    assert_eq!(to_hex16(0), "0000000000000000");
    assert_eq!(to_hex16(u64::MAX), "FFFFFFFFFFFFFFFF");
    assert_eq!(to_hex16(0xAB), "00000000000000AB");
}

#[test]
fn unresolved_descriptor_gets_hex_name() {
    let bytes = header_bytes(16, &[(0xAB, 10, 0)]);
    let mut arh = Arh::create();
    assert!(arh.read(&bytes).is_ok());
    let name = output_filename(&arh.file_descriptors[0]);
    assert_eq!(name, "00000000000000AB");
}

#[test]
fn extract_copies_exact_byte_range() {
    // Data file: member 0 occupies bytes 0..10, member 1 starts at 16.
    let bytes = header_bytes(16, &[(0x1, 10, 0), (0x2, 4, 0)]);
    let mut arh = Arh::create();
    assert!(arh.read(&bytes).is_ok());
    let mut data = Vec::new();
    for i in 0..32u8 {
        data.push(i.wrapping_mul(3));
    }
    let ard = Ard::open_from_file("unused.ard");
    let out = ard.extract_file(&arh.file_descriptors[0], &data).unwrap();
    assert_eq!(out.len(), 10);
    assert_eq!(out, data[0..10].to_vec());
    let out = ard.extract_file(&arh.file_descriptors[1], &data).unwrap();
    assert_eq!(out.len(), 4);
    assert_eq!(out, data[16..20].to_vec());
}

#[test]
fn extract_out_of_range_fails() {
    let bytes = header_bytes(16, &[(0x1, 64, 0)]);
    let mut arh = Arh::create();
    assert!(arh.read(&bytes).is_ok());
    let data = vec![0u8; 32];
    let ard = Ard::create();
    assert!(ard.extract_file(&arh.file_descriptors[0], &data).is_err());
}

#[test]
fn archive_extract_file_by_name() {
    let name = "member.bin";
    let hash = xxh64(name.as_bytes(), 0);
    let header = header_bytes(8, &[(hash, 5, 0)]);
    let data: Vec<u8> = vec![9, 8, 7, 6, 5, 4, 3, 2];
    let mut archive = Archive::open_archive(&header, "data.ard").unwrap();
    match archive.extract_file(name, "out", &data) {
        ExtractOutcome::Extracted { path, contents } => {
            assert_eq!(path, "out/member.bin");
            assert_eq!(contents, vec![9, 8, 7, 6, 5]);
        },
        _ => panic!("expected extraction"),
    }
}

#[test]
fn archive_extract_missing_name_is_not_found() {
    let header = header_bytes(8, &[(0x77, 5, 0)]);
    let data = vec![0u8; 8];
    let mut archive = Archive::open_archive(&header, "data.ard").unwrap();
    match archive.extract_file("absent", "out", &data) {
        ExtractOutcome::NotFound => {},
        _ => panic!("expected a miss"),
    }
}

#[test]
fn batch_continues_past_failing_member() {
    // Three names; the middle member's range runs past the data, so its
    // extraction fails, but the first and third still succeed.
    let n0 = "first";
    let n1 = "second";
    let n2 = "third";
    // The member for the second requested name sits last in the layout,
    // with a declared size running past the end of the data.
    let entries = [
        (xxh64(n0.as_bytes(), 0), 4u32, 0u32),
        (xxh64(n2.as_bytes(), 0), 2, 0),
        (xxh64(n1.as_bytes(), 0), 100, 0),
    ];
    let header = header_bytes(4, &entries);
    // Data holds the first member at 0..4 and the third name's member at
    // 4..6, but ends inside the second name's member range (8..108).
    let mut data = vec![0u8; 10];
    data[0..4].copy_from_slice(&[1, 2, 3, 4]);
    data[4] = 50;
    data[5] = 51;
    let mut archive = Archive::open_archive(&header, "data.ard").unwrap();
    let names: Vec<String> = vec![n0.to_string(), n1.to_string(), n2.to_string()];
    let outcomes = archive.extract_files(&names, "out", &data);
    assert_eq!(outcomes.len(), 3);
    match &outcomes[0] {
        ExtractOutcome::Extracted { path, contents } => {
            assert_eq!(path, "out/first");
            assert_eq!(contents, &vec![1, 2, 3, 4]);
        },
        _ => panic!("first member should extract"),
    }
    match &outcomes[1] {
        ExtractOutcome::Failed => {},
        _ => panic!("second member should fail"),
    }
    match &outcomes[2] {
        ExtractOutcome::Extracted { path, contents } => {
            assert_eq!(path, "out/third");
            assert_eq!(contents, &vec![50, 51]);
        },
        _ => panic!("third member should extract"),
    }
    assert_eq!(count_extracted(&outcomes), 2);
}

#[test]
fn extract_all_uses_hex_names_and_reports_each() {
    let header = header_bytes(4, &[(0xAB, 2, 0), (0xCD, 100, 0)]);
    let data = vec![7u8, 8, 9, 10];
    let archive = Archive::open_archive(&header, "data.ard").unwrap();
    let outcomes = archive.extract_all("dest", &data);
    assert_eq!(outcomes.len(), 2);
    match &outcomes[0] {
        ExtractOutcome::Extracted { path, contents } => {
            assert_eq!(path, "dest/00000000000000AB");
            assert_eq!(contents, &vec![7, 8]);
        },
        _ => panic!("first member should extract"),
    }
    match &outcomes[1] {
        ExtractOutcome::Failed => {},
        _ => panic!("second member should fail"),
    }
    assert_eq!(count_extracted(&outcomes), 1);
}

#[test]
fn open_archive_rejects_bad_header() {
    let header = vec![0u8; 8];
    assert!(Archive::open_archive(&header, "data.ard").is_err());
    let mut bad_magic = header_bytes(4, &[]);
    bad_magic[0] = 0;
    assert!(Archive::open_archive(&bad_magic, "data.ard").is_err());
}

#[test]
fn resolved_name_with_directories_is_kept_in_path() {
    let name = "nested/dir/file.bin";
    let hash = xxh64(name.as_bytes(), 0);
    let header = header_bytes(2, &[(hash, 1, 0)]);
    let data = vec![42u8];
    let mut archive = Archive::open_archive(&header, "data.ard").unwrap();
    match archive.extract_file(name, "out", &data) {
        ExtractOutcome::Extracted { path, contents } => {
            assert_eq!(path, "out/nested/dir/file.bin");
            assert_eq!(contents, vec![42]);
        },
        _ => panic!("expected extraction"),
    }
}
