//! Direct behaviour of the public building blocks of the library.

use reader_images::find::find_sub;
use reader_images::json::json_serialize;
use reader_images::order::{bytes_eq, lex_less, sort_dedup_vec};
use reader_images::scan::{collect_image_urls, scan_region, subvec};
use reader_images::utf8::utf8_check;

#[test]
fn utf8_check_accepts_ascii_and_multibyte() {
    assert!(utf8_check(&b"plain ascii".to_vec()));
    assert!(utf8_check(&"héllo 世界 🎉".as_bytes().to_vec()));
    assert!(utf8_check(&Vec::new()));
}

#[test]
fn utf8_check_rejects_malformed_sequences() {
    assert!(!utf8_check(&vec![0x80]));
    assert!(!utf8_check(&vec![0xC2]));
    assert!(!utf8_check(&vec![0xC0, 0xAF]));
    assert!(!utf8_check(&vec![0xE0, 0x80, 0x80]));
    assert!(!utf8_check(&vec![0xED, 0xA0, 0x80]));
    assert!(!utf8_check(&vec![0xF4, 0x90, 0x80, 0x80]));
    assert!(!utf8_check(&vec![0xF5]));
}

#[test]
fn find_sub_reports_first_occurrence() {
    let hay = b"abcabc".to_vec();
    assert_eq!(find_sub(&hay, &b"abc".to_vec(), 0), Some(0));
    assert_eq!(find_sub(&hay, &b"abc".to_vec(), 1), Some(3));
    assert_eq!(find_sub(&hay, &b"abc".to_vec(), 4), None);
    assert_eq!(find_sub(&hay, &b"zz".to_vec(), 0), None);
    assert_eq!(find_sub(&hay, &Vec::new(), 2), Some(2));
}

#[test]
fn lex_less_orders_bytewise_with_prefix_rule() {
    assert!(lex_less(&b"a".to_vec(), &b"b".to_vec()));
    assert!(lex_less(&b"a".to_vec(), &b"ab".to_vec()));
    assert!(!lex_less(&b"ab".to_vec(), &b"a".to_vec()));
    assert!(!lex_less(&b"a".to_vec(), &b"a".to_vec()));
    assert!(lex_less(&Vec::new(), &b"a".to_vec()));
}

#[test]
fn bytes_eq_compares_contents() {
    assert!(bytes_eq(&b"same".to_vec(), &b"same".to_vec()));
    assert!(!bytes_eq(&b"same".to_vec(), &b"sane".to_vec()));
    assert!(!bytes_eq(&b"same".to_vec(), &b"sam".to_vec()));
}

#[test]
fn sort_dedup_vec_sorts_and_drops_duplicates() {
    let input = vec![
        b"pear".to_vec(),
        b"apple".to_vec(),
        b"pear".to_vec(),
        b"fig".to_vec(),
    ];
    let out = sort_dedup_vec(input);
    assert_eq!(out, vec![b"apple".to_vec(), b"fig".to_vec(), b"pear".to_vec()]);
}

#[test]
fn json_serialize_writes_escaped_string_array() {
    assert_eq!(json_serialize(&Vec::new()), b"[]".to_vec());
    let vals = vec![b"a".to_vec(), b"b\\c".to_vec(), vec![0x01]];
    assert_eq!(json_serialize(&vals), b"[\"a\",\"b\\\\c\",\"\\u0001\"]".to_vec());
}

#[test]
fn subvec_copies_the_requested_range() {
    let v = b"0123456789".to_vec();
    assert_eq!(subvec(&v, 2, 5), b"234".to_vec());
    assert_eq!(subvec(&v, 4, 4), Vec::<u8>::new());
}

#[test]
fn scan_region_keeps_document_order_before_sorting() {
    let region = b"<img data-lazy-src=\"z\"><img data-lazy-src=\"a\">".to_vec();
    let urls = scan_region(&region);
    assert_eq!(urls, vec![b"z".to_vec(), b"a".to_vec()]);
}

#[test]
fn collect_image_urls_splits_at_the_reader_markers() {
    let html = b"<div id=\"readerarea\"><img data-lazy-src=\"u\"></div>\
<img data-lazy-src=\"v\">"
        .to_vec();
    let urls = collect_image_urls(&html).unwrap();
    assert_eq!(urls, vec![b"u".to_vec()]);
    assert_eq!(collect_image_urls(&b"<div id=\"readerarea\"".to_vec()), None);
}
