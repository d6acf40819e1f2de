use stegshare::dispatch::{compose_addr, make_request_id, parse_decimal, parse_upload_triplet};
use stegshare::encoding::{bytes_to_hex_str, str_lex_lt, u16_from_be, u16_to_be, u32_from_be,
    u32_to_be, u64_to_dec_str};
use stegshare::files::is_image_file;

#[test]
fn u32_big_endian_round_trip() {
    let bytes = u32_to_be(0xdeadbeef);
    assert_eq!(bytes, vec![0xde, 0xad, 0xbe, 0xef]);
    assert_eq!(u32_from_be(&bytes), 0xdeadbeef);
    assert_eq!(u32_to_be(0), vec![0, 0, 0, 0]);
}

#[test]
fn u16_big_endian_round_trip() {
    // The port-assignment reply is two big-endian bytes.
    let bytes = u16_to_be(40123);
    assert_eq!(bytes, vec![0x9c, 0xbb]);
    assert_eq!(u16_from_be(&bytes), 40123);
}

#[test]
fn decimal_and_hex_rendering() {
    assert_eq!(u64_to_dec_str(0), "0");
    assert_eq!(u64_to_dec_str(40123), "40123");
    assert_eq!(bytes_to_hex_str(&[]), "");
    assert_eq!(bytes_to_hex_str(&[0x00, 0x0f, 0xab, 0xff]), "000fabff");
}

/// Request-id determinism: the same datagram gives the same id at any
/// server; a different payload gives a different digest part. The digest
/// part is the MD5 of the payload (the published MD5 of "abc" is
/// 900150983cd24fb0d6963f7d28e17f72).
#[test]
fn request_ids_are_deterministic() {
    let id1 = make_request_id("192.168.0.9", 40001, b"abc", "42");
    let id2 = make_request_id("192.168.0.9", 40001, b"abc", "42");
    assert_eq!(id1, id2);
    assert_eq!(id1, "192.168.0.9-40001-900150983cd24fb0d6963f7d28e17f7242");
    let other = make_request_id("192.168.0.9", 40001, b"abd", "42");
    assert_ne!(id1, other);
}

#[test]
fn addresses_compose_as_ip_and_port() {
    assert_eq!(compose_addr("10.0.0.9", 41500), "10.0.0.9:41500");
}

#[test]
fn upload_triplet_parses_its_three_fields() {
    let parsed = parse_upload_triplet("7,client7-cat,42");
    assert_eq!(parsed, Some((7, "client7-cat".to_string(), "42".to_string())));
}

#[test]
fn upload_triplet_rejects_malformed_input() {
    assert_eq!(parse_upload_triplet("7,client7-cat"), None);
    assert_eq!(parse_upload_triplet("no commas at all"), None);
    assert_eq!(parse_upload_triplet(",client7-cat,42"), None);
    assert_eq!(parse_upload_triplet("seven,client7-cat,42"), None);
    assert_eq!(parse_upload_triplet("99999999999999999999,img,1"), None);
}

#[test]
fn decimal_parsing_accepts_exactly_fitting_digits() {
    assert_eq!(parse_decimal("0"), Some(0));
    assert_eq!(parse_decimal("18446744073709551615"), Some(u64::MAX));
    assert_eq!(parse_decimal("18446744073709551616"), None);
    assert_eq!(parse_decimal(""), None);
    assert_eq!(parse_decimal("12a"), None);
}

#[test]
fn lexicographic_order_on_addresses() {
    assert!(str_lex_lt("10.0.0.1:8085", "10.0.0.2:8085"));
    assert!(!str_lex_lt("10.0.0.2:8085", "10.0.0.1:8085"));
    assert!(!str_lex_lt("10.0.0.1:8085", "10.0.0.1:8085"));
    assert!(str_lex_lt("10.0.0.1", "10.0.0.1:8085"));
}

#[test]
fn image_files_are_recognized_by_extension() {
    assert!(is_image_file("cat.jpg"));
    assert!(is_image_file("/srv/images/cat.JPEG"));
    assert!(is_image_file("photo.PnG"));
    assert!(is_image_file("anim.gif"));
    assert!(is_image_file("old.bmp"));
    assert!(!is_image_file("notes.txt"));
    assert!(!is_image_file("archive.png.zip"));
    assert!(!is_image_file(".png"));
    assert!(!is_image_file("noextension"));
    assert!(!is_image_file("/srv/images.png/listing"));
}
