use libfar::codec::{copy_range, push_all, push_u32_le, read_u32_le};
use libfar::farlib;
use libfar::farlib::{list_files, write_manifest, FarArchive, FarFile};
use libfar::format::FarError;

fn file(name: &str, data: Vec<u8>) -> FarFile {
    FarFile::new_from_file(name.to_string(), data.len() as u32, data)
}

fn three_files() -> Vec<FarFile> {
    vec![
        file("first.bin", vec![1u8; 10]),
        file("second.bin", (0u8..20).collect()),
        file("third.bin", vec![9, 8, 7, 6, 5]),
    ]
}

fn small_archive_bytes() -> Vec<u8> {
    let mut expected: Vec<u8> = b"FAR!byAZ".to_vec();
    expected.extend_from_slice(&[1, 0, 0, 0]);
    expected.extend_from_slice(&[19, 0, 0, 0]);
    expected.extend_from_slice(&[1, 2, 3]);
    expected.extend_from_slice(&[1, 0, 0, 0]);
    expected.extend_from_slice(&[3, 0, 0, 0]);
    expected.extend_from_slice(&[3, 0, 0, 0]);
    expected.extend_from_slice(&[16, 0, 0, 0]);
    expected.extend_from_slice(&[1, 0, 0, 0]);
    expected.push(b'a');
    expected
}

#[test]
fn little_endian_field_is_written_low_byte_first() {
    let mut out = vec![0xffu8];
    push_u32_le(&mut out, 0x0102_0304);
    assert_eq!(out, vec![0xff, 0x04, 0x03, 0x02, 0x01]);
}

#[test]
fn little_endian_field_is_read_low_byte_first() {
    let buf = vec![0u8, 0x04, 0x03, 0x02, 0x01, 0xff, 0xff, 0xff, 0xff];
    assert_eq!(read_u32_le(&buf, 1), 0x0102_0304);
    assert_eq!(read_u32_le(&buf, 5), u32::MAX);
    assert_eq!(read_u32_le(&buf, 0), 0x0203_0400);
}

#[test]
fn written_field_reads_back() {
    for x in [0u32, 1, 255, 256, 65535, 65536, 0x00ff_ffff, 0x0100_0000, u32::MAX] {
        let mut out = Vec::new();
        push_u32_le(&mut out, x);
        assert_eq!(out, x.to_le_bytes().to_vec());
        assert_eq!(read_u32_le(&out, 0), x);
    }
}

#[test]
fn copy_range_takes_the_bytes_between() {
    let buf = vec![10u8, 11, 12, 13, 14];
    assert_eq!(copy_range(&buf, 1, 4), vec![11, 12, 13]);
    assert_eq!(copy_range(&buf, 2, 2), Vec::<u8>::new());
    assert_eq!(copy_range(&buf, 0, 5), buf);
}

#[test]
fn push_all_appends() {
    let mut out = vec![1u8, 2];
    push_all(&mut out, &[3, 4, 5]);
    push_all(&mut out, &[]);
    assert_eq!(out, vec![1, 2, 3, 4, 5]);
}

#[test]
fn new_from_file_keeps_what_it_is_given() {
    let f = FarFile::new_from_file("x".to_string(), 7, vec![1, 2]);
    assert_eq!(f.name, "x");
    assert_eq!(f.size, 7);
    assert_eq!(f.data, vec![1, 2]);
}

#[test]
fn new_from_archive_slices_the_buffer() {
    let buf: Vec<u8> = (0u8..32).collect();
    let f = FarFile::new_from_archive("s".to_string(), 4, 20, &buf).unwrap();
    assert_eq!(f.name, "s");
    assert_eq!(f.size, 4);
    assert_eq!(f.data, vec![20, 21, 22, 23]);
    let whole = FarFile::new_from_archive("w".to_string(), 32, 0, &buf).unwrap();
    assert_eq!(whole.data, buf);
    let none = FarFile::new_from_archive("n".to_string(), 0, 32, &buf).unwrap();
    assert!(none.data.is_empty());
}

#[test]
fn new_from_archive_rejects_a_range_past_the_end() {
    let buf = vec![0u8; 32];
    assert_eq!(
        FarFile::new_from_archive("s".to_string(), 4, 29, &buf).err(),
        Some(FarError::OffsetOutOfRange)
    );
    assert_eq!(
        FarFile::new_from_archive("s".to_string(), u32::MAX, u32::MAX, &buf).err(),
        Some(FarError::OffsetOutOfRange)
    );
}

#[test]
fn build_gives_running_sums_as_offsets() {
    let archive = FarArchive::new_from_files(three_files());
    assert_eq!(archive.version, 1);
    assert_eq!(archive.file_count, 3);
    assert_eq!(archive.file_list.len(), 3);
    assert_eq!(archive.file_data.len(), 3);
    let offsets: Vec<u32> = archive.file_list.iter().map(|e| e.offset()).collect();
    assert_eq!(offsets, vec![10, 30, 35]);
    let sizes: Vec<u32> = archive.file_list.iter().map(|e| e.size).collect();
    assert_eq!(sizes, vec![10, 20, 5]);
    assert_eq!(archive.file_list[1].name, "second.bin");
    assert_eq!(archive.file_data[2].data, vec![9, 8, 7, 6, 5]);
}

#[test]
fn build_does_not_check_sizes() {
    let files = vec![FarFile::new_from_file("odd".to_string(), 4, vec![1])];
    let archive = FarArchive::new_from_files(files);
    assert_eq!(archive.file_list[0].size, 4);
    assert_eq!(archive.file_list[0].offset(), 4);
    assert_eq!(archive.file_data[0].data, vec![1]);
}

#[test]
fn empty_archive_is_twenty_bytes() {
    let bytes = FarArchive::new_from_files(Vec::new()).to_vec();
    assert_eq!(bytes.len(), 20);
    assert_eq!(&bytes[0..8], b"FAR!byAZ");
    assert_eq!(&bytes[8..12], &[1, 0, 0, 0]);
    assert_eq!(&bytes[12..16], &[16, 0, 0, 0]);
    assert_eq!(&bytes[16..20], &[0, 0, 0, 0]);
    let archive = farlib::test(&bytes).unwrap();
    assert_eq!(archive.file_count, 0);
    assert!(archive.file_list.is_empty());
}

#[test]
fn small_archive_is_written_byte_for_byte() {
    let archive = FarArchive::new_from_files(vec![file("a", vec![1, 2, 3])]);
    assert_eq!(archive.to_vec(), small_archive_bytes());
}

#[test]
fn manifest_is_written_byte_for_byte() {
    let bytes = small_archive_bytes();
    let entries = list_files(&bytes).unwrap();
    assert_eq!(write_manifest(&entries), bytes[19..].to_vec());
    assert_eq!(write_manifest(&Vec::new()), vec![0, 0, 0, 0]);
}

#[test]
fn list_files_reads_the_records_in_order() {
    let bytes = FarArchive::new_from_files(three_files()).to_vec();
    let entries = list_files(&bytes).unwrap();
    let names: Vec<&str> = entries.iter().map(|e| e.name.as_str()).collect();
    assert_eq!(names, vec!["first.bin", "second.bin", "third.bin"]);
}

#[test]
fn round_trip_keeps_names_sizes_and_bytes() {
    let files = three_files();
    let bytes = FarArchive::new_from_files(three_files()).to_vec();
    let decoded = farlib::test(&bytes).unwrap();
    assert_eq!(decoded.version, 1);
    assert_eq!(decoded.file_count, 3);
    assert!(decoded.file_data.is_empty());
    let loaded = decoded.load_file_data(&bytes).unwrap();
    assert_eq!(loaded.file_list.len(), files.len());
    assert_eq!(loaded.file_data.len(), files.len());
    for i in 0..files.len() {
        assert_eq!(loaded.file_list[i].name, files[i].name);
        assert_eq!(loaded.file_list[i].size, files[i].size);
        assert_eq!(loaded.file_data[i].name, files[i].name);
        assert_eq!(loaded.file_data[i].size, files[i].size);
        assert_eq!(loaded.file_data[i].data, files[i].data);
    }
}

#[test]
fn writing_again_gives_the_same_bytes() {
    let bytes = FarArchive::new_from_files(three_files()).to_vec();
    let loaded = farlib::test(&bytes).unwrap().load_file_data(&bytes).unwrap();
    assert_eq!(loaded.to_vec(), bytes);
}

#[test]
fn loading_twice_gives_the_same_files() {
    let bytes = FarArchive::new_from_files(three_files()).to_vec();
    let once = farlib::test(&bytes).unwrap().load_file_data(&bytes).unwrap();
    let first: Vec<(String, u32, Vec<u8>)> =
        once.file_data.iter().map(|f| (f.name.clone(), f.size, f.data.clone())).collect();
    let twice = once.load_file_data(&bytes).unwrap();
    let second: Vec<(String, u32, Vec<u8>)> =
        twice.file_data.iter().map(|f| (f.name.clone(), f.size, f.data.clone())).collect();
    assert_eq!(first, second);
    assert_eq!(twice.file_data.len(), 3);
    assert_eq!(twice.file_count, 3);
}

#[test]
fn offsets_are_absolute_after_writing() {
    let files = vec![
        file("a", vec![0u8; 10]),
        file("b", vec![1u8; 20]),
        file("c", vec![2u8; 5]),
    ];
    let bytes = FarArchive::new_from_files(files).to_vec();
    assert_eq!(read_u32_le(&bytes, 12), 51);
    let decoded = farlib::test(&bytes).unwrap();
    let offsets: Vec<u32> = decoded.file_list.iter().map(|e| e.offset()).collect();
    assert_eq!(offsets, vec![16, 26, 46]);
}

#[test]
fn non_ascii_name_round_trips() {
    let name = "résumé.txt";
    let bytes = FarArchive::new_from_files(vec![file(name, vec![7, 7])]).to_vec();
    let manifest_at = read_u32_le(&bytes, 12) as usize;
    assert_eq!(manifest_at, 18);
    assert_eq!(read_u32_le(&bytes, manifest_at + 4 + 12), 12);
    assert_eq!(&bytes[manifest_at + 20..], name.as_bytes());
    let decoded = farlib::test(&bytes).unwrap();
    assert_eq!(decoded.file_list[0].name, name);
    assert_eq!(decoded.file_list[0].name.chars().count(), 10);
    let loaded = decoded.load_file_data(&bytes).unwrap();
    assert_eq!(loaded.file_data[0].name, name);
    assert_eq!(loaded.file_data[0].data, vec![7, 7]);
}

#[test]
fn version_is_passed_through() {
    let mut bytes = small_archive_bytes();
    bytes[8..12].copy_from_slice(&[0xef, 0xbe, 0xad, 0xde]);
    assert_eq!(farlib::test(&bytes).unwrap().version, 0xdead_beef);
}

#[test]
fn second_size_field_is_not_used() {
    let mut bytes = small_archive_bytes();
    bytes[27] = 99;
    let decoded = farlib::test(&bytes).unwrap();
    assert_eq!(decoded.file_list[0].size, 3);
    assert_eq!(decoded.file_list[0].offset(), 16);
}

#[test]
fn wrong_signature_is_invalid_magic() {
    let mut bytes = small_archive_bytes();
    bytes[7] = b'z';
    assert_eq!(farlib::test(&bytes).err(), Some(FarError::InvalidMagic));
    assert_eq!(farlib::test(&b"FAR!byAz".to_vec()).err(), Some(FarError::InvalidMagic));
    assert_eq!(farlib::test(&vec![0u8; 8]).err(), Some(FarError::InvalidMagic));
    assert_eq!(farlib::test(&vec![0u8; 4096]).err(), Some(FarError::InvalidMagic));
}

#[test]
fn short_header_is_truncated_input() {
    assert_eq!(farlib::test(&Vec::new()).err(), Some(FarError::TruncatedInput));
    assert_eq!(farlib::test(&b"FAR!byA".to_vec()).err(), Some(FarError::TruncatedInput));
    assert_eq!(farlib::test(&b"FAR!byAZ".to_vec()).err(), Some(FarError::TruncatedInput));
    assert_eq!(farlib::test(&small_archive_bytes()[..15].to_vec()).err(), Some(FarError::TruncatedInput));
    assert_eq!(list_files(&vec![0u8; 15]).err(), Some(FarError::TruncatedInput));
}

#[test]
fn buffer_that_ends_in_a_record_is_truncated_manifest() {
    let bytes = FarArchive::new_from_files(three_files()).to_vec();
    let manifest_at = read_u32_le(&bytes, 12) as usize;
    assert_eq!(manifest_at, 51);
    for cut in 16..bytes.len() {
        assert_eq!(farlib::test(&bytes[..cut].to_vec()).err(), Some(FarError::TruncatedManifest));
    }
    assert!(farlib::test(&bytes).is_ok());
}

#[test]
fn manifest_offset_past_the_end_is_truncated_manifest() {
    let mut bytes = small_archive_bytes();
    bytes[12..16].copy_from_slice(&[0xff, 0xff, 0xff, 0xff]);
    assert_eq!(farlib::test(&bytes).err(), Some(FarError::TruncatedManifest));
    let len = bytes.len() as u32;
    bytes[12..16].copy_from_slice(&(len - 3).to_le_bytes());
    assert_eq!(farlib::test(&bytes).err(), Some(FarError::TruncatedManifest));
}

#[test]
fn count_beyond_the_records_is_truncated_manifest() {
    let mut bytes = small_archive_bytes();
    bytes[19..23].copy_from_slice(&[0xff, 0xff, 0xff, 0xff]);
    assert_eq!(farlib::test(&bytes).err(), Some(FarError::TruncatedManifest));
}

#[test]
fn name_that_is_not_utf8_is_rejected() {
    let mut bytes = small_archive_bytes();
    let last = bytes.len() - 1;
    bytes[last] = 0xff;
    assert_eq!(farlib::test(&bytes).err(), Some(FarError::InvalidUtf8Name));
    bytes[last] = 0xc3;
    assert_eq!(farlib::test(&bytes).err(), Some(FarError::InvalidUtf8Name));
}

#[test]
fn loading_rejects_a_record_past_the_end() {
    let bytes = FarArchive::new_from_files(three_files()).to_vec();
    let decoded = farlib::test(&bytes).unwrap();
    assert_eq!(decoded.load_file_data(&bytes[..50].to_vec()).err(), Some(FarError::OffsetOutOfRange));
    let decoded = farlib::test(&bytes).unwrap();
    assert!(decoded.load_file_data(&bytes[..51].to_vec()).is_ok());
}

#[test]
fn loading_a_built_archive_uses_its_running_sums() {
    let archive = FarArchive::new_from_files(vec![file("a", vec![5, 6]), file("b", vec![7])]);
    let buf: Vec<u8> = (0u8..8).collect();
    let loaded = archive.load_file_data(&buf).unwrap();
    assert_eq!(loaded.file_data[0].data, vec![2, 3]);
    assert_eq!(loaded.file_data[1].data, vec![3]);
    assert_eq!(loaded.file_data[1].name, "b");
}

#[test]
fn files_that_fit_can_be_written() {
    assert!(farlib::files_fit_format(&three_files()));
    assert!(farlib::files_fit_format(&Vec::new()));
    let archive = FarArchive::new_from_files(three_files());
    assert!(archive.is_writable());
}

#[test]
fn sizes_beyond_the_offset_field_do_not_fit() {
    let largest = u32::MAX - 16;
    let fits = vec![FarFile::new_from_file("big".to_string(), largest, Vec::new())];
    assert!(farlib::files_fit_format(&fits));
    let over = vec![FarFile::new_from_file("big".to_string(), largest + 1, Vec::new())];
    assert!(!farlib::files_fit_format(&over));
    let sum = vec![
        FarFile::new_from_file("a".to_string(), largest, Vec::new()),
        FarFile::new_from_file("b".to_string(), 1, Vec::new()),
    ];
    assert!(!farlib::files_fit_format(&sum));
}

#[test]
fn archive_without_loaded_files_is_not_writable() {
    let bytes = FarArchive::new_from_files(three_files()).to_vec();
    let decoded = farlib::test(&bytes).unwrap();
    assert!(!decoded.is_writable());
    let loaded = decoded.load_file_data(&bytes).unwrap();
    assert!(loaded.is_writable());
    let mut miscounted = farlib::test(&bytes).unwrap().load_file_data(&bytes).unwrap();
    miscounted.file_count = 2;
    assert!(!miscounted.is_writable());
}

#[test]
fn sizes_are_written_as_declared() {
    let files = vec![
        FarFile::new_from_file("odd".to_string(), 4, vec![1]),
        FarFile::new_from_file("next".to_string(), 2, vec![8, 9]),
    ];
    let bytes = FarArchive::new_from_files(files).to_vec();
    assert_eq!(read_u32_le(&bytes, 12), 22);
    assert_eq!(&bytes[16..19], &[1, 8, 9]);
    assert_eq!(read_u32_le(&bytes, 19), 2);
    assert_eq!(read_u32_le(&bytes, 23), 4);
    assert_eq!(read_u32_le(&bytes, 27), 4);
    assert_eq!(read_u32_le(&bytes, 31), 16);
}

#[test]
fn record_accessors_give_the_fields() {
    let bytes = small_archive_bytes();
    let entries = list_files(&bytes).unwrap();
    assert_eq!(entries.len(), 1);
    assert_eq!(entries[0].name(), "a");
    assert_eq!(entries[0].size(), 3);
    assert_eq!(entries[0].offset(), 16);
}
