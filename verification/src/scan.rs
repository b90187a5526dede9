//! The image-reference scanner: locating the reader-content region of an
//! HTML document and collecting the lazy-load source value of every image
//! tag inside it, by first-occurrence literal search only.
//!
//! All markers are fixed ASCII literals, written out as byte values:
//! the reader-container opening marker `<div id="readerarea"`, the image
//! tag opener `<img`, the tag closer `>`, the region closer `</div>`, the
//! lazy-load attribute marker `data-lazy-src="`, the value delimiter `"`,
//! and the inline-data URI prefix `data:`.

use vstd::prelude::*;

use crate::find::{eq_at, find_sub, lemma_find_some, matches_at, spec_find};

verus! {

/// The opening marker of the reader container: `<div id="readerarea"`.
pub open spec fn reader_open() -> Seq<u8> {
    seq![
        0x3Cu8, 0x64u8, 0x69u8, 0x76u8, 0x20u8, 0x69u8, 0x64u8, 0x3Du8, 0x22u8, 0x72u8, 0x65u8,
        0x61u8, 0x64u8, 0x65u8, 0x72u8, 0x61u8, 0x72u8, 0x65u8, 0x61u8, 0x22u8,
    ]
}

/// The image tag opener: `<img`.
pub open spec fn img_open() -> Seq<u8> {
    seq![0x3Cu8, 0x69u8, 0x6Du8, 0x67u8]
}

/// The tag closer: `>`.
pub open spec fn tag_close() -> Seq<u8> {
    seq![0x3Eu8]
}

/// The closing tag that ends the reader region: `</div>`.
pub open spec fn div_close() -> Seq<u8> {
    seq![0x3Cu8, 0x2Fu8, 0x64u8, 0x69u8, 0x76u8, 0x3Eu8]
}

/// The lazy-load source attribute marker, quote included: `data-lazy-src="`.
pub open spec fn lazy_attr() -> Seq<u8> {
    seq![
        0x64u8, 0x61u8, 0x74u8, 0x61u8, 0x2Du8, 0x6Cu8, 0x61u8, 0x7Au8, 0x79u8, 0x2Du8, 0x73u8,
        0x72u8, 0x63u8, 0x3Du8, 0x22u8,
    ]
}

/// The attribute value delimiter: `"`.
pub open spec fn quote_mark() -> Seq<u8> {
    seq![0x22u8]
}

/// The inline-data URI prefix that marks placeholder images: `data:`.
pub open spec fn data_uri_prefix() -> Seq<u8> {
    seq![0x64u8, 0x61u8, 0x74u8, 0x61u8, 0x3Au8]
}

/// A collected value survives filtering: it is non-empty and does not start
/// with the inline-data URI prefix.
pub open spec fn keep_url(u: Seq<u8>) -> bool {
    u.len() > 0 && !matches_at(u, data_uri_prefix(), 0)
}

/// The lazy-load source value of a single bounded tag text: the bytes
/// between the first attribute marker and the next quote after it, if both
/// are present.
pub open spec fn tag_url(tag: Seq<u8>) -> Option<Seq<u8>> {
    match spec_find(tag, lazy_attr(), 0) {
        None => None,
        Some(a) => {
            let vs = a + lazy_attr().len();
            match spec_find(tag, quote_mark(), vs) {
                None => None,
                Some(q) => Some(tag.subrange(vs, q)),
            }
        },
    }
}

/// The values collected from `region` from position `pos` on, in document
/// order: for each image tag opener, the tag text runs to the first closer
/// after it; a tag without a closer only advances the scan by one position.
pub open spec fn scan_images(region: Seq<u8>, pos: int) -> Seq<Seq<u8>>
    decreases region.len() - pos when 0 <= pos
{
    if pos >= region.len() {
        Seq::empty()
    } else {
        match spec_find(region, img_open(), pos) {
            None => Seq::empty(),
            Some(is) => match spec_find(region, tag_close(), is) {
                None => scan_images(region, pos + 1),
                Some(ie) => {
                    let next = if pos + 1 >= ie + 1 || ie + 1 > region.len() {
                        pos + 1
                    } else {
                        ie + 1
                    };
                    let rest = scan_images(region, next);
                    match tag_url(region.subrange(is, ie + 1)) {
                        None => rest,
                        Some(u) => if keep_url(u) {
                            seq![u] + rest
                        } else {
                            rest
                        },
                    }
                },
            },
        }
    }
}

/// Either the reader-container marker is absent, or a tag closer follows it;
/// extraction fails on the one document shape where a marker is found but no
/// closer ever follows it.
pub open spec fn region_found_ok(h: Seq<u8>) -> bool {
    match spec_find(h, reader_open(), 0) {
        None => true,
        Some(rs) => spec_find(h, tag_close(), rs) is Some,
    }
}

/// The values collected from the whole document: the reader region starts
/// just after the closer of the container's opening tag and runs to the
/// first region closer, or to the end of the document if there is none;
/// without a container marker nothing is collected.
pub open spec fn collected_urls(h: Seq<u8>) -> Seq<Seq<u8>> {
    match spec_find(h, reader_open(), 0) {
        None => Seq::empty(),
        Some(rs) => match spec_find(h, tag_close(), rs) {
            None => Seq::empty(),
            Some(g) => {
                let cend = match spec_find(h, div_close(), g + 1) {
                    None => h.len() as int,
                    Some(e) => e,
                };
                scan_images(h.subrange(g + 1, cend), 0)
            },
        },
    }
}

/// The copy of `v[a .. b]` as a fresh vector.
pub fn subvec(v: &Vec<u8>, a: usize, b: usize) -> (r: Vec<u8>)
    requires
        a <= b,
        b <= v@.len(),
    ensures
        r@ == v@.subrange(a as int, b as int),
{
    let mut r: Vec<u8> = Vec::new();
    let mut k: usize = 0;
    while k < b - a
        invariant
            k <= b - a,
            a <= b,
            b <= v@.len(),
            r@.len() == k,
            forall|j: int| 0 <= j < k ==> r@[j] == v@[a + j],
        decreases b - a - k,
    {
        r.push(v[a + k]);
        k = k + 1;
    }
    proof {
        assert(r@ =~= v@.subrange(a as int, b as int));
    }
    r
}

/// The reader-container opening marker as a vector.
fn reader_needle() -> (v: Vec<u8>)
    ensures
        v@ == reader_open(),
{
    let v: Vec<u8> = vec![
        0x3Cu8, 0x64, 0x69, 0x76, 0x20, 0x69, 0x64, 0x3D, 0x22, 0x72, 0x65, 0x61, 0x64, 0x65,
        0x72, 0x61, 0x72, 0x65, 0x61, 0x22,
    ];
    proof {
        assert(v@ =~= reader_open());
    }
    v
}

/// The image tag opener as a vector.
fn img_needle() -> (v: Vec<u8>)
    ensures
        v@ == img_open(),
{
    let v: Vec<u8> = vec![0x3Cu8, 0x69, 0x6D, 0x67];
    proof {
        assert(v@ =~= img_open());
    }
    v
}

/// The tag closer as a vector.
fn gt_needle() -> (v: Vec<u8>)
    ensures
        v@ == tag_close(),
{
    let v: Vec<u8> = vec![0x3Eu8];
    proof {
        assert(v@ =~= tag_close());
    }
    v
}

/// The region closer as a vector.
fn div_close_needle() -> (v: Vec<u8>)
    ensures
        v@ == div_close(),
{
    let v: Vec<u8> = vec![0x3Cu8, 0x2F, 0x64, 0x69, 0x76, 0x3E];
    proof {
        assert(v@ =~= div_close());
    }
    v
}

/// The lazy-load attribute marker as a vector.
fn lazy_needle() -> (v: Vec<u8>)
    ensures
        v@ == lazy_attr(),
{
    let v: Vec<u8> = vec![
        0x64u8, 0x61, 0x74, 0x61, 0x2D, 0x6C, 0x61, 0x7A, 0x79, 0x2D, 0x73, 0x72, 0x63, 0x3D,
        0x22,
    ];
    proof {
        assert(v@ =~= lazy_attr());
    }
    v
}

/// The value delimiter as a vector.
fn quote_needle() -> (v: Vec<u8>)
    ensures
        v@ == quote_mark(),
{
    let v: Vec<u8> = vec![0x22u8];
    proof {
        assert(v@ =~= quote_mark());
    }
    v
}

/// The inline-data URI prefix as a vector.
fn data_needle() -> (v: Vec<u8>)
    ensures
        v@ == data_uri_prefix(),
{
    let v: Vec<u8> = vec![0x64u8, 0x61, 0x74, 0x61, 0x3A];
    proof {
        assert(v@ =~= data_uri_prefix());
    }
    v
}

/// Collects the lazy-load source values of the image tags of `region`, in
/// document order, exactly as `scan_images` states.
pub fn scan_region(region: &Vec<u8>) -> (urls: Vec<Vec<u8>>)
    ensures
        crate::order::views(urls@) == scan_images(region@, 0),
{
    let nd_img = img_needle();
    let nd_gt = gt_needle();
    let nd_lazy = lazy_needle();
    let nd_quote = quote_needle();
    let nd_data = data_needle();
    let mut urls: Vec<Vec<u8>> = Vec::new();
    let n = region.len();
    let mut pos: usize = 0;
    proof {
        assert(crate::order::views(urls@) + scan_images(region@, 0) =~= scan_images(region@, 0));
    }
    while pos < n
        invariant
            pos <= n,
            n == region@.len(),
            nd_img@ == img_open(),
            nd_gt@ == tag_close(),
            nd_lazy@ == lazy_attr(),
            nd_quote@ == quote_mark(),
            nd_data@ == data_uri_prefix(),
            scan_images(region@, 0) == crate::order::views(urls@) + scan_images(
                region@,
                pos as int,
            ),
        decreases n - pos,
    {
        let found_img = find_sub(region, &nd_img, pos);
        match found_img {
            None => {
                proof {
                    assert(scan_images(region@, pos as int) =~= Seq::<Seq<u8>>::empty());
                    assert(crate::order::views(urls@) + Seq::<Seq<u8>>::empty() =~= crate::order::views(
                        urls@,
                    ));
                }
                return urls;
            },
            Some(is) => {
                proof {
                    lemma_find_some(region@, img_open(), pos as int, is as int);
                }
                let found_gt = find_sub(region, &nd_gt, is);
                match found_gt {
                    None => {
                        proof {
                            assert(scan_images(region@, pos as int) == scan_images(
                                region@,
                                pos + 1,
                            ));
                        }
                        pos = pos + 1;
                    },
                    Some(ie) => {
                        proof {
                            lemma_find_some(region@, tag_close(), is as int, ie as int);
                        }
                        let tag = subvec(region, is, ie + 1);
                        let ghost old_views = crate::order::views(urls@);
                        let found_attr = find_sub(&tag, &nd_lazy, 0);
                        match found_attr {
                            None => {
                                proof {
                                    assert(tag_url(tag@) is None);
                                }
                            },
                            Some(a) => {
                                proof {
                                    lemma_find_some(tag@, lazy_attr(), 0, a as int);
                                }
                                let vs = a + 15;
                                let found_quote = find_sub(&tag, &nd_quote, vs);
                                match found_quote {
                                    None => {
                                        proof {
                                            assert(tag_url(tag@) is None);
                                        }
                                    },
                                    Some(q) => {
                                        proof {
                                            lemma_find_some(tag@, quote_mark(), vs as int, q as int);
                                        }
                                        let url = subvec(&tag, vs, q);
                                        let keep = if url.len() == 0 {
                                            false
                                        } else if url.len() >= nd_data.len() && eq_at(
                                            &url,
                                            &nd_data,
                                            0,
                                        ) {
                                            false
                                        } else {
                                            true
                                        };
                                        proof {
                                            assert(tag_url(tag@) == Some(url@));
                                            assert(keep == keep_url(url@));
                                        }
                                        if keep {
                                            let ghost u = url@;
                                            urls.push(url);
                                            proof {
                                                assert(crate::order::views(urls@) =~= old_views.push(
                                                    u,
                                                ));
                                            }
                                        }
                                    },
                                }
                            },
                        }
                        proof {
                            let rest = scan_images(region@, ie + 1);
                            assert(scan_images(region@, pos as int) == match tag_url(tag@) {
                                None => rest,
                                Some(u) => if keep_url(u) {
                                    seq![u] + rest
                                } else {
                                    rest
                                },
                            });
                            if tag_url(tag@) is Some && keep_url(tag_url(tag@).unwrap()) {
                                let u = tag_url(tag@).unwrap();
                                assert(old_views + (seq![u] + rest) =~= (old_views.push(u))
                                    + rest);
                            }
                        }
                        pos = ie + 1;
                    },
                }
            },
        }
    }
    proof {
        assert(scan_images(region@, pos as int) =~= Seq::<Seq<u8>>::empty());
        assert(crate::order::views(urls@) + Seq::<Seq<u8>>::empty() =~= crate::order::views(
            urls@,
        ));
    }
    urls
}

/// Splits the document at the reader-container markers and collects the
/// image references of the region between them, exactly as `collected_urls`
/// states; fails exactly when a container marker is present with no tag
/// closer after it.
pub fn collect_image_urls(html: &Vec<u8>) -> (r: Option<Vec<Vec<u8>>>)
    ensures
        r is Some <==> region_found_ok(html@),
        r matches Some(urls) ==> crate::order::views(urls@) == collected_urls(html@),
{
    let nd_reader = reader_needle();
    let nd_gt = gt_needle();
    let nd_div = div_close_needle();
    let found_reader = find_sub(html, &nd_reader, 0);
    match found_reader {
        None => {
            let urls: Vec<Vec<u8>> = Vec::new();
            proof {
                assert(crate::order::views(urls@) =~= collected_urls(html@));
            }
            Some(urls)
        },
        Some(rs) => {
            proof {
                lemma_find_some(html@, reader_open(), 0, rs as int);
            }
            let found_gt = find_sub(html, &nd_gt, rs);
            match found_gt {
                None => None,
                Some(g) => {
                    let hn = html.len();
                    proof {
                        lemma_find_some(html@, tag_close(), rs as int, g as int);
                        assert(g < hn);
                    }
                    let cstart = g + 1;
                    let found_close = find_sub(html, &nd_div, cstart);
                    let cend = match found_close {
                        None => html.len(),
                        Some(e) => e,
                    };
                    proof {
                        if let Some(e) = found_close {
                            lemma_find_some(html@, div_close(), cstart as int, e as int);
                        }
                    }
                    let region = subvec(html, cstart, cend);
                    let urls = scan_region(&region);
                    Some(urls)
                },
            }
        },
    }
}

} // verus!
