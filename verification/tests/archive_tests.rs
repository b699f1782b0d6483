use pbo_reader::codec::{MIME_BLANK, MIME_VERS};
use pbo_reader::{PBOHandle, PboError};

fn header_bytes(mime: u32, name: &[u8], packed: u32, original: u32, timestamp: u32, size: u32) -> Vec<u8> {
    let mut v = Vec::new();
    v.extend_from_slice(&mime.to_le_bytes());
    v.extend_from_slice(name);
    v.push(0);
    v.extend_from_slice(&packed.to_le_bytes());
    v.extend_from_slice(&original.to_le_bytes());
    v.extend_from_slice(&timestamp.to_le_bytes());
    v.extend_from_slice(&size.to_le_bytes());
    v
}

fn prop_bytes(key: &[u8], value: &[u8]) -> Vec<u8> {
    let mut v = Vec::new();
    v.extend_from_slice(key);
    v.push(0);
    v.extend_from_slice(value);
    v.push(0);
    v
}

fn trailer() -> Vec<u8> {
    (100u8..120u8).collect()
}

/// Version header, one property `prefix` -> `a\b`, `x.txt` of size 4 holding
/// `[1, 2, 3, 4]`, a zero-size `empty.bin`, the sentinel, the blob, one
/// separator byte and a 20-byte checksum trailer.
fn sample_archive() -> Vec<u8> {
    let mut v = header_bytes(MIME_VERS, b"", 1, 2, 3, 7);
    v.extend_from_slice(&prop_bytes(b"prefix", b"a\\b"));
    v.push(0);
    v.extend_from_slice(&header_bytes(MIME_BLANK, b"x.txt", 0, 0, 0, 4));
    v.extend_from_slice(&header_bytes(MIME_BLANK, b"empty.bin", 0, 0, 0, 0));
    v.extend_from_slice(&header_bytes(MIME_BLANK, b"", 0, 0, 0, 0));
    v.extend_from_slice(&[1, 2, 3, 4]);
    v.push(0);
    v.extend_from_slice(&trailer());
    v
}

#[test]
fn open_succeeds_on_sample() {
    assert!(PBOHandle::open_file(sample_archive()).is_ok());
}

#[test]
fn extract_returns_member_bytes() {
    let mut h = PBOHandle::open_file(sample_archive()).unwrap();
    assert_eq!(h.get_file_content("x.txt").unwrap(), vec![1, 2, 3, 4]);
}

#[test]
fn extract_zero_size_member_is_empty() {
    let mut h = PBOHandle::open_file(sample_archive()).unwrap();
    assert_eq!(h.get_file_content("empty.bin").unwrap(), Vec::<u8>::new());
}

#[test]
fn extract_missing_member_fails() {
    let mut h = PBOHandle::open_file(sample_archive()).unwrap();
    assert_eq!(h.get_file_content("missing"), Err(PboError::MemberNotFound));
}

#[test]
fn property_lookup_finds_pair() {
    let h = PBOHandle::open_file(sample_archive()).unwrap();
    assert_eq!(h.property("prefix").map(|v| v.clone()), Some(b"a\\b".to_vec()));
}

#[test]
fn property_lookup_misses_absent_key() {
    let h = PBOHandle::open_file(sample_archive()).unwrap();
    assert!(h.property("x.txt").is_none());
    assert!(h.property("").is_none());
}

#[test]
fn version_header_fields_decoded_in_order() {
    let h = PBOHandle::open_file(sample_archive()).unwrap();
    let vh = h.version_header();
    assert_eq!(vh.packed_size, 1);
    assert_eq!(vh.original_size, 2);
    assert_eq!(vh.timestamp, 3);
    assert_eq!(vh.size, 7);
}

#[test]
fn directory_excludes_sentinel() {
    let h = PBOHandle::open_file(sample_archive()).unwrap();
    let files = h.files();
    assert_eq!(files.len(), 2);
    assert_eq!(files[0].filename, b"x.txt".to_vec());
    assert_eq!(files[1].filename, b"empty.bin".to_vec());
}

#[test]
fn blob_starts_right_after_sentinel() {
    let mut prefix = header_bytes(MIME_VERS, b"", 1, 2, 3, 7);
    prefix.extend_from_slice(&prop_bytes(b"prefix", b"a\\b"));
    prefix.push(0);
    prefix.extend_from_slice(&header_bytes(MIME_BLANK, b"x.txt", 0, 0, 0, 4));
    prefix.extend_from_slice(&header_bytes(MIME_BLANK, b"empty.bin", 0, 0, 0, 0));
    prefix.extend_from_slice(&header_bytes(MIME_BLANK, b"", 0, 0, 0, 0));
    let h = PBOHandle::open_file(sample_archive()).unwrap();
    assert_eq!(h.blob_start(), prefix.len());
    assert_eq!(h.length(), sample_archive().len());
}

#[test]
fn checksum_is_the_trailer_bytes() {
    let h = PBOHandle::open_file(sample_archive()).unwrap();
    assert_eq!(h.checksum().clone(), trailer());
}

#[test]
fn separator_deleted_is_truncated() {
    let mut v = header_bytes(MIME_VERS, b"", 1, 2, 3, 7);
    v.extend_from_slice(&prop_bytes(b"prefix", b"a\\b"));
    v.push(0);
    v.extend_from_slice(&header_bytes(MIME_BLANK, b"x.txt", 0, 0, 0, 4));
    v.extend_from_slice(&header_bytes(MIME_BLANK, b"empty.bin", 0, 0, 0, 0));
    v.extend_from_slice(&header_bytes(MIME_BLANK, b"", 0, 0, 0, 0));
    v.extend_from_slice(&[1, 2, 3, 4]);
    v.extend_from_slice(&trailer());
    assert_eq!(PBOHandle::open_file(v).err(), Some(PboError::TruncatedArchive));
}

#[test]
fn one_byte_shorter_is_truncated() {
    let mut v = sample_archive();
    v.pop();
    assert_eq!(PBOHandle::open_file(v).err(), Some(PboError::TruncatedArchive));
}

#[test]
fn one_byte_longer_is_trailing_data() {
    let mut v = sample_archive();
    v.push(0x7f);
    assert_eq!(PBOHandle::open_file(v).err(), Some(PboError::TrailingData));
}

#[test]
fn round_trip_concatenation_restores_blob() {
    let blob: Vec<u8> = vec![9, 8, 7, 11, 12, 13, 14, 15];
    let mut v = header_bytes(MIME_VERS, b"", 0, 0, 0, 0);
    v.push(0);
    v.extend_from_slice(&header_bytes(MIME_BLANK, b"a", 0, 0, 0, 3));
    v.extend_from_slice(&header_bytes(MIME_BLANK, b"b", 0, 0, 0, 0));
    v.extend_from_slice(&header_bytes(MIME_BLANK, b"c", 0, 0, 0, 5));
    v.extend_from_slice(&header_bytes(MIME_BLANK, b"", 0, 0, 0, 0));
    v.extend_from_slice(&blob);
    v.push(0);
    v.extend_from_slice(&trailer());
    let mut h = PBOHandle::open_file(v).unwrap();
    let mut joined = Vec::new();
    joined.extend_from_slice(&h.get_file_content("a").unwrap());
    joined.extend_from_slice(&h.get_file_content("b").unwrap());
    joined.extend_from_slice(&h.get_file_content("c").unwrap());
    assert_eq!(joined, blob);
}

#[test]
fn repeated_extraction_yields_identical_bytes() {
    let mut h = PBOHandle::open_file(sample_archive()).unwrap();
    let first = h.get_file_content("x.txt").unwrap();
    let other = h.get_file_content("empty.bin").unwrap();
    let again = h.get_file_content("x.txt").unwrap();
    assert_eq!(first, again);
    assert_eq!(other, h.get_file_content("empty.bin").unwrap());
}

#[test]
fn duplicate_property_key_last_write_wins() {
    let mut v = header_bytes(MIME_VERS, b"", 0, 0, 0, 0);
    v.extend_from_slice(&prop_bytes(b"k", b"first"));
    v.extend_from_slice(&prop_bytes(b"k", b"second"));
    v.push(0);
    v.extend_from_slice(&header_bytes(MIME_BLANK, b"", 0, 0, 0, 0));
    v.push(0);
    v.extend_from_slice(&trailer());
    let h = PBOHandle::open_file(v).unwrap();
    assert_eq!(h.property("k").map(|v| v.clone()), Some(b"second".to_vec()));
}

#[test]
fn duplicate_filename_extracts_first_match() {
    let mut v = header_bytes(MIME_VERS, b"", 0, 0, 0, 0);
    v.push(0);
    v.extend_from_slice(&header_bytes(MIME_BLANK, b"a", 0, 0, 0, 1));
    v.extend_from_slice(&header_bytes(MIME_BLANK, b"a", 0, 0, 0, 1));
    v.extend_from_slice(&header_bytes(MIME_BLANK, b"", 0, 0, 0, 0));
    v.extend_from_slice(&[7, 8]);
    v.push(0);
    v.extend_from_slice(&trailer());
    let mut h = PBOHandle::open_file(v).unwrap();
    assert_eq!(h.get_file_content("a").unwrap(), vec![7]);
}

#[test]
fn first_record_must_be_version_marker() {
    let mut v = header_bytes(MIME_BLANK, b"x", 0, 0, 0, 0);
    v.push(0);
    v.extend_from_slice(&header_bytes(MIME_BLANK, b"", 0, 0, 0, 0));
    v.push(0);
    v.extend_from_slice(&trailer());
    assert_eq!(PBOHandle::open_file(v).err(), Some(PboError::InvalidVersionMarker));
}

#[test]
fn unknown_mime_code_is_malformed_header() {
    let v = header_bytes(0xdead_beef, b"x", 0, 0, 0, 0);
    assert_eq!(PBOHandle::open_file(v).err(), Some(PboError::MalformedHeader));
}

#[test]
fn unknown_mime_in_directory_is_malformed_header() {
    let mut v = header_bytes(MIME_VERS, b"", 0, 0, 0, 0);
    v.push(0);
    v.extend_from_slice(&header_bytes(0xdead_beef, b"x", 0, 0, 0, 0));
    assert_eq!(PBOHandle::open_file(v).err(), Some(PboError::MalformedHeader));
}

#[test]
fn unterminated_version_filename_fails() {
    let mut v = MIME_VERS.to_le_bytes().to_vec();
    v.extend_from_slice(b"abc");
    assert_eq!(PBOHandle::open_file(v).err(), Some(PboError::UnterminatedString));
}

#[test]
fn truncated_version_fields_are_malformed() {
    let mut v = MIME_VERS.to_le_bytes().to_vec();
    v.push(0);
    v.extend_from_slice(&[0, 0, 0, 0, 0]);
    assert_eq!(PBOHandle::open_file(v).err(), Some(PboError::MalformedHeader));
}

#[test]
fn property_table_without_terminator_fails() {
    let mut v = header_bytes(MIME_VERS, b"", 0, 0, 0, 0);
    v.extend_from_slice(b"key");
    assert_eq!(
        PBOHandle::open_file(v).err(),
        Some(PboError::UnterminatedPropertyTable)
    );
}

#[test]
fn property_value_without_terminator_fails() {
    let mut v = header_bytes(MIME_VERS, b"", 0, 0, 0, 0);
    v.extend_from_slice(b"key");
    v.push(0);
    v.extend_from_slice(b"val");
    assert_eq!(
        PBOHandle::open_file(v).err(),
        Some(PboError::UnterminatedPropertyTable)
    );
}

#[test]
fn directory_without_sentinel_fails() {
    let mut v = header_bytes(MIME_VERS, b"", 0, 0, 0, 0);
    v.push(0);
    v.extend_from_slice(&[1, 2]);
    assert_eq!(PBOHandle::open_file(v).err(), Some(PboError::UnterminatedDirectory));
}

#[test]
fn oversized_member_truncates_archive() {
    let mut v = header_bytes(MIME_VERS, b"", 0, 0, 0, 0);
    v.push(0);
    v.extend_from_slice(&header_bytes(MIME_BLANK, b"big", 0, 0, 0, 100));
    v.extend_from_slice(&header_bytes(MIME_BLANK, b"", 0, 0, 0, 0));
    v.push(0);
    v.extend_from_slice(&trailer());
    assert_eq!(PBOHandle::open_file(v).err(), Some(PboError::TruncatedArchive));
}

#[test]
fn empty_key_terminates_table_before_directory_bytes() {
    let mut v = header_bytes(MIME_VERS, b"", 0, 0, 0, 0);
    v.push(0);
    let mut entry = header_bytes(MIME_BLANK, b"note", 0, 0, 0, 2);
    v.append(&mut entry);
    v.extend_from_slice(&header_bytes(MIME_BLANK, b"", 0, 0, 0, 0));
    v.extend_from_slice(&[42, 43]);
    v.push(0);
    v.extend_from_slice(&trailer());
    let h = PBOHandle::open_file(v).unwrap();
    assert!(h.properties().is_empty());
    assert!(h.property("note").is_none());
    assert_eq!(h.files().len(), 1);
}

#[test]
fn minimal_archive_with_no_members_opens() {
    let mut v = header_bytes(MIME_VERS, b"", 0, 0, 0, 0);
    v.push(0);
    v.extend_from_slice(&header_bytes(MIME_BLANK, b"", 0, 0, 0, 0));
    v.push(0);
    v.extend_from_slice(&trailer());
    let mut h = PBOHandle::open_file(v).unwrap();
    assert!(h.files().is_empty());
    assert!(h.properties().is_empty());
    assert_eq!(h.get_file_content("anything"), Err(PboError::MemberNotFound));
}
