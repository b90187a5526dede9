//! End-to-end behaviour of the extractor on whole documents.

use reader_images::parse_chapter_images;

fn extract(input: &[u8]) -> Option<Vec<u8>> {
    parse_chapter_images(&input.to_vec())
}

#[test]
fn reader_region_collects_sorts_and_dedups() {
    let html = b"<div id=\"readerarea\"><p>x</p>\
<img data-lazy-src=\"https://cdn/a.jpg\">\
<img data-lazy-src=\"https://cdn/b.jpg\">\
<img data-lazy-src=\"https://cdn/a.jpg\"></div>";
    let out = extract(html).unwrap();
    assert_eq!(out, b"[\"https://cdn/a.jpg\",\"https://cdn/b.jpg\"]\0".to_vec());
}

#[test]
fn no_container_marker_yields_empty_array() {
    let out = extract(b"<img data-lazy-src=\"https://cdn/outside.jpg\">").unwrap();
    assert_eq!(out, b"[]\0".to_vec());
}

#[test]
fn empty_document_yields_empty_array() {
    let out = extract(b"").unwrap();
    assert_eq!(out, b"[]\0".to_vec());
}

#[test]
fn standard_src_attribute_is_ignored() {
    let html = b"<div id=\"readerarea\">\
<img src=\"https://cdn/placeholder.jpg\">\
<img data-lazy-src=\"https://cdn/real.jpg\"></div>";
    let out = extract(html).unwrap();
    assert_eq!(out, b"[\"https://cdn/real.jpg\"]\0".to_vec());
}

#[test]
fn empty_and_data_uri_values_are_filtered() {
    let html = b"<div id=\"readerarea\">\
<img data-lazy-src=\"\">\
<img data-lazy-src=\"data:image/png;base64,AAAA\">\
<img data-lazy-src=\"https://cdn/kept.png\"></div>";
    let out = extract(html).unwrap();
    assert_eq!(out, b"[\"https://cdn/kept.png\"]\0".to_vec());
}

#[test]
fn unclosed_image_tag_is_skipped() {
    let html = b"<div id=\"readerarea\"><img data-lazy-src=\"https://cdn/lost.jpg\"";
    let out = extract(html).unwrap();
    assert_eq!(out, b"[]\0".to_vec());
}

#[test]
fn unclosed_image_tag_does_not_hide_earlier_one() {
    let html = b"<div id=\"readerarea\">\
<img data-lazy-src=\"https://cdn/first.jpg\">\
<img data-lazy-src=\"https://cdn/lost.jpg\"";
    let out = extract(html).unwrap();
    assert_eq!(out, b"[\"https://cdn/first.jpg\"]\0".to_vec());
}

#[test]
fn invalid_utf8_returns_sentinel() {
    assert_eq!(extract(&[0xFF, 0xFE]), None);
}

#[test]
fn invalid_utf8_overlong_encoding_rejected() {
    let mut html = b"<div id=\"readerarea\">".to_vec();
    html.push(0xC0);
    html.push(0x80);
    html.extend_from_slice(b"</div>");
    assert_eq!(parse_chapter_images(&html), None);
}

#[test]
fn invalid_utf8_surrogate_rejected() {
    assert_eq!(extract(&[0xED, 0xA0, 0x80]), None);
}

#[test]
fn invalid_utf8_truncated_sequence_rejected() {
    assert_eq!(extract(&[0x61, 0xE3, 0x81]), None);
}

#[test]
fn multibyte_utf8_document_is_accepted() {
    let html = "<p>漫画</p><div id=\"readerarea\">第一話\
<img data-lazy-src=\"https://cdn/頁.jpg\"></div>"
        .as_bytes();
    let out = extract(html).unwrap();
    assert_eq!(out, "[\"https://cdn/頁.jpg\"]\0".as_bytes().to_vec());
}

#[test]
fn marker_without_tag_closer_returns_sentinel() {
    assert_eq!(extract(b"<div id=\"readerarea\""), None);
}

#[test]
fn marker_with_extra_attributes_still_matches() {
    let html = b"<div id=\"readerarea\" class=\"reader\">\
<img data-lazy-src=\"https://cdn/p1.jpg\"></div>";
    let out = extract(html).unwrap();
    assert_eq!(out, b"[\"https://cdn/p1.jpg\"]\0".to_vec());
}

#[test]
fn missing_region_closer_extends_to_document_end() {
    let html = b"<div id=\"readerarea\"><img data-lazy-src=\"https://cdn/tail.jpg\">";
    let out = extract(html).unwrap();
    assert_eq!(out, b"[\"https://cdn/tail.jpg\"]\0".to_vec());
}

#[test]
fn first_region_closer_truncates_scan() {
    let html = b"<div id=\"readerarea\"><div class=\"page\">\
<img data-lazy-src=\"https://cdn/inside.jpg\"></div>\
<img data-lazy-src=\"https://cdn/outside.jpg\"></div>";
    let out = extract(html).unwrap();
    assert_eq!(out, b"[\"https://cdn/inside.jpg\"]\0".to_vec());
}

#[test]
fn image_tags_outside_region_are_ignored() {
    let html = b"<img data-lazy-src=\"https://cdn/before.jpg\">\
<div id=\"readerarea\"><img data-lazy-src=\"https://cdn/in.jpg\"></div>\
<img data-lazy-src=\"https://cdn/after.jpg\">";
    let out = extract(html).unwrap();
    assert_eq!(out, b"[\"https://cdn/in.jpg\"]\0".to_vec());
}

#[test]
fn value_closing_quote_beyond_tag_closer_is_dropped() {
    let html = b"<div id=\"readerarea\"><img data-lazy-src=\"a>b\"></div>";
    let out = extract(html).unwrap();
    assert_eq!(out, b"[]\0".to_vec());
}

#[test]
fn extraction_is_idempotent() {
    let html = b"<div id=\"readerarea\"><img data-lazy-src=\"https://cdn/z.jpg\">\
<img data-lazy-src=\"https://cdn/a.jpg\"></div>";
    let first = extract(html).unwrap();
    let second = extract(html).unwrap();
    assert_eq!(first, second);
}

#[test]
fn output_is_independent_of_tag_order() {
    let forward = b"<div id=\"readerarea\">\
<img data-lazy-src=\"https://cdn/1.jpg\">\
<img data-lazy-src=\"https://cdn/2.jpg\">\
<img data-lazy-src=\"https://cdn/3.jpg\"></div>";
    let shuffled = b"<div id=\"readerarea\">\
<img data-lazy-src=\"https://cdn/3.jpg\">\
<img data-lazy-src=\"https://cdn/1.jpg\">\
<img data-lazy-src=\"https://cdn/2.jpg\"></div>";
    assert_eq!(extract(forward).unwrap(), extract(shuffled).unwrap());
}

#[test]
fn distinct_values_come_out_sorted_bytewise() {
    let html = b"<div id=\"readerarea\">\
<img data-lazy-src=\"https://cdn/c.jpg\">\
<img data-lazy-src=\"https://cdn/a.jpg\">\
<img data-lazy-src=\"https://cdn/b.jpg\">\
<img data-lazy-src=\"https://cdn/a.jpg\"></div>";
    let out = extract(html).unwrap();
    assert_eq!(
        out,
        b"[\"https://cdn/a.jpg\",\"https://cdn/b.jpg\",\"https://cdn/c.jpg\"]\0".to_vec()
    );
}

#[test]
fn backslash_and_tab_in_value_are_escaped() {
    let html = b"<div id=\"readerarea\"><img data-lazy-src=\"a\\b\tc\"></div>";
    let out = extract(html).unwrap();
    assert_eq!(out, b"[\"a\\\\b\\tc\"]\0".to_vec());
}

#[test]
fn control_byte_in_value_uses_unicode_escape() {
    let mut html = b"<div id=\"readerarea\"><img data-lazy-src=\"a".to_vec();
    html.push(0x1F);
    html.extend_from_slice(b"b\"></div>");
    let out = parse_chapter_images(&html).unwrap();
    assert_eq!(out, b"[\"a\\u001fb\"]\0".to_vec());
}
