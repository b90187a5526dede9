//! The laws of the extractor, stated over the same specification functions
//! that the executable functions are proved against.

use vstd::prelude::*;

use crate::find::{lemma_find_none, lemma_find_some, matches_at, spec_find};
use crate::order::{sorted_dedup, strictly_sorted};
use crate::order::{lemma_sorted_dedup_props, lemma_sorted_dedup_same_elements};
use crate::scan::{collected_urls, data_uri_prefix, div_close, img_open, keep_url, reader_open,
    scan_images, tag_close, tag_url};

verus! {

/// A document without the reader-container marker serializes to the empty
/// array: the two brackets and the zero terminator, nothing else; on such
/// a document extraction succeeds whenever the input is valid UTF-8.
pub proof fn lemma_no_marker_empty_output(h: Seq<u8>)
    requires
        spec_find(h, reader_open(), 0) is None,
    ensures
        crate::scan::region_found_ok(h),
        crate::extract_output(h) == seq![0x5Bu8, 0x5Du8, 0u8],
{
    assert(collected_urls(h) == Seq::<Seq<u8>>::empty());
    assert(sorted_dedup(collected_urls(h)) == Seq::<Seq<u8>>::empty());
    assert(crate::extract_output(h) =~= seq![0x5Bu8, 0x5Du8, 0u8]);
}

/// The serialized values are exactly the collected ones: deduplicated, in
/// strictly increasing lexicographic order, no value added and none lost.
pub proof fn lemma_output_exact_set(h: Seq<u8>)
    ensures
        strictly_sorted(sorted_dedup(collected_urls(h))),
        forall|u: Seq<u8>| #![auto] sorted_dedup(collected_urls(h)).contains(u) <==> collected_urls(
            h,
        ).contains(u),
{
    lemma_sorted_dedup_props(collected_urls(h));
}

/// Extraction is deterministic: byte-identical inputs settle success the
/// same way and serialize to byte-identical output.
pub proof fn lemma_extract_deterministic(h1: Seq<u8>, h2: Seq<u8>)
    requires
        h1 == h2,
    ensures
        crate::extraction_succeeds(h1) == crate::extraction_succeeds(h2),
        crate::extract_output(h1) == crate::extract_output(h2),
{
}

/// Two documents whose reader regions yield the same set of values — in
/// whatever order and multiplicity — serialize to byte-identical output.
pub proof fn lemma_output_order_independent(h1: Seq<u8>, h2: Seq<u8>)
    requires
        forall|u: Seq<u8>| #![auto] collected_urls(h1).contains(u) <==> collected_urls(
            h2,
        ).contains(u),
    ensures
        crate::extract_output(h1) == crate::extract_output(h2),
{
    lemma_sorted_dedup_same_elements(collected_urls(h1), collected_urls(h2));
}

/// Every value the scan of a region collects survives the filter: it is
/// non-empty and does not start with the inline-data URI prefix.
proof fn lemma_scan_images_filtered(region: Seq<u8>, pos: int, u: Seq<u8>)
    requires
        0 <= pos,
        scan_images(region, pos).contains(u),
    ensures
        keep_url(u),
    decreases region.len() - pos,
{
    if pos >= region.len() {
    } else {
        match spec_find(region, img_open(), pos) {
            None => {},
            Some(is) => {
                match spec_find(region, tag_close(), is) {
                    None => {
                        lemma_scan_images_filtered(region, pos + 1, u);
                    },
                    Some(ie) => {
                        let next = if pos + 1 >= ie + 1 || ie + 1 > region.len() {
                            pos + 1
                        } else {
                            ie + 1
                        };
                        let rest = scan_images(region, next);
                        match tag_url(region.subrange(is, ie + 1)) {
                            None => {
                                lemma_scan_images_filtered(region, next, u);
                            },
                            Some(w) => {
                                if keep_url(w) {
                                    let r = seq![w] + rest;
                                    assert(r.contains(u));
                                    let k = choose|k: int| 0 <= k < r.len() && r[k] == u;
                                    if k == 0 {
                                        assert(u == w);
                                    } else {
                                        assert(rest[k - 1] == u);
                                        assert(rest.contains(u));
                                        lemma_scan_images_filtered(region, next, u);
                                    }
                                } else {
                                    lemma_scan_images_filtered(region, next, u);
                                }
                            },
                        }
                    },
                }
            },
        }
    }
}

/// Every value of the result set survives the filter: an empty value, or
/// one that starts with the inline-data URI prefix, never reaches the
/// output, whatever the document looks like.
pub proof fn lemma_output_values_filtered(h: Seq<u8>, u: Seq<u8>)
    requires
        sorted_dedup(collected_urls(h)).contains(u),
    ensures
        u.len() > 0,
        !matches_at(u, data_uri_prefix(), 0),
{
    lemma_sorted_dedup_props(collected_urls(h));
    assert(collected_urls(h).contains(u));
    match spec_find(h, reader_open(), 0) {
        None => {},
        Some(rs) => {
            match spec_find(h, tag_close(), rs) {
                None => {},
                Some(g) => {
                    let cend = match spec_find(h, div_close(), g + 1) {
                        None => h.len() as int,
                        Some(e) => e,
                    };
                    lemma_scan_images_filtered(h.subrange(g + 1, cend), 0, u);
                },
            }
        },
    }
}

/// A region in which no tag closer occurs at or after `pos` contributes no
/// values from there on: every image tag opener that may still be found is
/// skipped, and the scan ends at the region's end.
pub proof fn lemma_unclosed_tags_yield_nothing(region: Seq<u8>, pos: int)
    requires
        0 <= pos,
        spec_find(region, tag_close(), pos) is None,
    ensures
        scan_images(region, pos) == Seq::<Seq<u8>>::empty(),
    decreases region.len() - pos,
{
    lemma_find_none(region, tag_close(), pos);
    if pos >= region.len() {
    } else {
        match spec_find(region, img_open(), pos) {
            None => {},
            Some(is) => {
                lemma_find_some(region, img_open(), pos, is);
                match spec_find(region, tag_close(), is) {
                    None => {},
                    Some(ie) => {
                        lemma_find_some(region, tag_close(), is, ie);
                        assert(matches_at(region, tag_close(), ie));
                        assert(false);
                    },
                }
                lemma_find_none(region, tag_close(), pos + 1);
                lemma_unclosed_tags_yield_nothing(region, pos + 1);
            },
        }
    }
}

} // verus!
