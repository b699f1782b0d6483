use pbo_reader::codec::{
    bytes_eq, mime_from_code, read_header, read_null_string, read_u32_le, MIME_BLANK, MIME_CPRS,
    MIME_ENCO, MIME_VERS,
};
use pbo_reader::error::HeaderError;
use pbo_reader::error::PboError;
use pbo_reader::Mime;

#[test]
fn u32_is_read_little_endian() {
    let bytes = vec![0x78, 0x56, 0x34, 0x12];
    assert_eq!(read_u32_le(&bytes, 0), 0x1234_5678);
}

#[test]
fn null_string_reads_until_terminator() {
    let bytes = vec![b'h', b'i', 0, b'x'];
    let (s, end) = read_null_string(&bytes, 0).unwrap();
    assert_eq!(s, b"hi".to_vec());
    assert_eq!(end, 3);
}

#[test]
fn empty_null_string_is_just_the_terminator() {
    let bytes = vec![0, 9, 9];
    let (s, end) = read_null_string(&bytes, 0).unwrap();
    assert!(s.is_empty());
    assert_eq!(end, 1);
}

#[test]
fn null_string_without_terminator_fails() {
    let bytes = vec![b'h', b'i'];
    assert_eq!(read_null_string(&bytes, 0).err(), Some(PboError::UnterminatedString));
}

#[test]
fn mime_codes_map_to_their_tags() {
    assert_eq!(mime_from_code(MIME_VERS), Some(Mime::Vers));
    assert_eq!(mime_from_code(MIME_CPRS), Some(Mime::Cprs));
    assert_eq!(mime_from_code(MIME_ENCO), Some(Mime::Enco));
    assert_eq!(mime_from_code(MIME_BLANK), Some(Mime::Blank));
    assert_eq!(mime_from_code(0xdead_beef), None);
}

#[test]
fn header_decodes_fields_in_fixed_order() {
    let mut bytes = MIME_CPRS.to_le_bytes().to_vec();
    bytes.extend_from_slice(b"f");
    bytes.push(0);
    bytes.extend_from_slice(&10u32.to_le_bytes());
    bytes.extend_from_slice(&20u32.to_le_bytes());
    bytes.extend_from_slice(&30u32.to_le_bytes());
    bytes.extend_from_slice(&40u32.to_le_bytes());
    let (h, end) = read_header(&bytes, 0).unwrap();
    assert_eq!(h.mime, Mime::Cprs);
    assert_eq!(h.filename, b"f".to_vec());
    assert_eq!(h.packed_size, 10);
    assert_eq!(h.original_size, 20);
    assert_eq!(h.timestamp, 30);
    assert_eq!(h.size, 40);
    assert_eq!(end, bytes.len());
}

#[test]
fn header_with_unknown_mime_fails() {
    let mut bytes = 0xdead_beefu32.to_le_bytes().to_vec();
    bytes.push(0);
    bytes.extend_from_slice(&[0; 16]);
    assert_eq!(read_header(&bytes, 0).err(), Some(HeaderError::UnknownMime));
}

#[test]
fn header_cut_inside_mime_tag_fails() {
    let bytes = vec![0x73, 0x72];
    assert_eq!(read_header(&bytes, 0).err(), Some(HeaderError::Truncated));
}

#[test]
fn header_with_unterminated_name_fails() {
    let mut bytes = MIME_VERS.to_le_bytes().to_vec();
    bytes.extend_from_slice(b"name");
    assert_eq!(read_header(&bytes, 0).err(), Some(HeaderError::UnterminatedName));
}

#[test]
fn header_cut_inside_integer_fields_fails() {
    let mut bytes = MIME_VERS.to_le_bytes().to_vec();
    bytes.push(0);
    bytes.extend_from_slice(&[0; 15]);
    assert_eq!(read_header(&bytes, 0).err(), Some(HeaderError::Truncated));
}

#[test]
fn byte_equality_is_exact() {
    assert!(bytes_eq(&b"abc".to_vec(), b"abc"));
    assert!(!bytes_eq(&b"abc".to_vec(), b"abd"));
    assert!(!bytes_eq(&b"abc".to_vec(), b"ab"));
    assert!(bytes_eq(&Vec::new(), b""));
}
