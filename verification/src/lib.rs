//! Extraction of image URLs from a comic-reader HTML fragment.
//!
//! The scanner locates the reader-content region of a document, collects the
//! lazy-load source attribute of every image tag inside it, filters out empty
//! and inline-data placeholders, sorts and deduplicates the survivors, and
//! serializes them as a JSON-style array of strings followed by a single
//! zero terminator byte.  All of it operates on plain byte vectors; the raw
//! memory ABI that carries buffers across the host boundary lives outside
//! this crate.

use vstd::prelude::*;

pub mod find;
pub mod json;
pub mod laws;
pub mod order;
pub mod scan;
pub mod utf8;

verus! {

/// Extraction succeeds on a document exactly when it is valid UTF-8 and,
/// should a reader-container marker be present, some tag closer follows it.
pub open spec fn extraction_succeeds(h: Seq<u8>) -> bool {
    utf8::is_utf8(h) && scan::region_found_ok(h)
}

/// The full output of a successful extraction: the collected values,
/// deduplicated and sorted lexicographically, serialized as an array of
/// string literals, with one zero terminator byte after it.
pub open spec fn extract_output(h: Seq<u8>) -> Seq<u8> {
    json::json_array(order::sorted_dedup(scan::collected_urls(h))) + seq![0u8]
}

/// Extracts the image references of the reader region of `html`: the
/// deduplicated, lexicographically sorted lazy-load source values of its
/// image tags, serialized as a zero-terminated array of string literals.
/// Returns the no-result sentinel `None` exactly when the input is not
/// valid UTF-8 or a found container marker is never closed.
pub fn parse_chapter_images(html: &Vec<u8>) -> (r: Option<Vec<u8>>)
    ensures
        r is Some <==> extraction_succeeds(html@),
        r matches Some(out) ==> out@ == extract_output(html@),
{
    if !utf8::utf8_check(html) {
        return None;
    }
    match scan::collect_image_urls(html) {
        None => None,
        Some(urls) => {
            let deduped = order::sort_dedup_vec(urls);
            let mut out = json::json_serialize(&deduped);
            out.push(0);
            proof {
                assert(out@ =~= extract_output(html@));
            }
            Some(out)
        },
    }
}

} // verus!
