//! Scanners that collect every markdown link, or every markdown image, of a text
//! from left to right.
use vstd::prelude::*;
use vstd::string::StringSliceAdditionalSpecFns;
use vstd::utf8::is_char_boundary;
use crate::delimiters::NoMatch;
use crate::text::{cut, lemma_ascii_cut, BANG, OPEN_BRACKET};
use crate::tokens::{
    image_at, lemma_link_bounds, lemma_link_shift, link_at, link_close, link_label, link_url,
    MarkdownImage, MarkdownUrl,
};

verus! {

broadcast use vstd::utf8::encode_utf8_valid_utf8;

/// The first index at or after `from` where a link token starts, or `b.len()`.
pub open spec fn next_link(b: Seq<u8>, from: int) -> int
    decreases b.len() - from,
{
    if 0 <= from < b.len() {
        if link_at(b, from) {
            from
        } else {
            next_link(b, from + 1)
        }
    } else {
        b.len() as int
    }
}

/// The first index at or after `from` where an image token starts, or `b.len()`.
pub open spec fn next_image(b: Seq<u8>, from: int) -> int
    decreases b.len() - from,
{
    if 0 <= from < b.len() {
        if image_at(b, from) {
            from
        } else {
            next_image(b, from + 1)
        }
    } else {
        b.len() as int
    }
}

pub(crate) proof fn lemma_next_link(b: Seq<u8>, from: int)
    requires
        0 <= from <= b.len(),
    ensures
        from <= next_link(b, from) <= b.len(),
        next_link(b, from) < b.len() ==> link_at(b, next_link(b, from)),
        forall|k: int| from <= k < next_link(b, from) ==> !link_at(b, k),
    decreases b.len() - from,
{
    if from < b.len() && !link_at(b, from) {
        lemma_next_link(b, from + 1);
    }
}

pub(crate) proof fn lemma_next_image(b: Seq<u8>, from: int)
    requires
        0 <= from <= b.len(),
    ensures
        from <= next_image(b, from) <= b.len(),
        next_image(b, from) < b.len() ==> image_at(b, next_image(b, from)),
        forall|k: int| from <= k < next_image(b, from) ==> !image_at(b, k),
    decreases b.len() - from,
{
    if from < b.len() && !image_at(b, from) {
        lemma_next_image(b, from + 1);
    }
}

/// The index just past the `)` of a link token at `p`.
pub open spec fn link_end(b: Seq<u8>, p: int) -> int {
    link_close(b, p) + 1
}

/// The index just past the `)` of an image token at `q`.
pub open spec fn image_end(b: Seq<u8>, q: int) -> int {
    link_close(b, q + 1) + 1
}

/// A link token at `p` belongs to an image when a `!` stands right before its `[`.
pub open spec fn preceded_by_bang(b: Seq<u8>, p: int) -> bool {
    p > 0 && b[p - 1] == BANG
}

/// The links that a scan of `b` from `g` on accepts, in order of appearance: for
/// each, where the text skipped before it begins and where its `[` stands. The
/// scan goes to the next link token, passes over it when it belongs to an image,
/// takes it otherwise, and goes on after its end. A `[` that starts no link token
/// does not stop the scan: it is passed over like any other byte.
pub open spec fn links_from(b: Seq<u8>, g: int) -> Seq<(int, int)>
    decreases b.len() - g,
    via links_from_decreases
{
    let p = next_link(b, g);
    if g < 0 || p >= b.len() {
        seq![]
    } else if preceded_by_bang(b, p) {
        links_from(b, link_end(b, p))
    } else {
        seq![(g, p)] + links_from(b, link_end(b, p))
    }
}

/// A link scan step from `g` moves forward and stays within `b`.
pub(crate) proof fn lemma_link_step(b: Seq<u8>, g: int)
    requires
        0 <= g <= b.len(),
    ensures
        next_link(b, g) < b.len() ==> g <= next_link(b, g) < link_end(b, next_link(b, g)) <= b.len(),
{
    lemma_next_link(b, g);
    if next_link(b, g) < b.len() {
        lemma_link_bounds(b, next_link(b, g));
    }
}

/// An image scan step from `g` moves forward and stays within `b`.
pub(crate) proof fn lemma_image_step(b: Seq<u8>, g: int)
    requires
        0 <= g <= b.len(),
    ensures
        next_image(b, g) < b.len() ==> g <= next_image(b, g) < image_end(b, next_image(b, g))
            <= b.len(),
{
    lemma_next_image(b, g);
    if next_image(b, g) < b.len() {
        lemma_link_bounds(b, next_image(b, g) + 1);
    }
}

#[via_fn]
proof fn links_from_decreases(b: Seq<u8>, g: int) {
    if 0 <= g <= b.len() {
        lemma_link_step(b, g);
    }
}

/// Where the text that a link scan of `b` from `g` leaves unconsumed begins: just
/// past the last link token that it met, accepted or passed over.
pub open spec fn links_rest(b: Seq<u8>, g: int) -> int
    decreases b.len() - g,
    via links_rest_decreases
{
    let p = next_link(b, g);
    if g < 0 || p >= b.len() {
        g
    } else {
        links_rest(b, link_end(b, p))
    }
}

#[via_fn]
proof fn links_rest_decreases(b: Seq<u8>, g: int) {
    if 0 <= g <= b.len() {
        lemma_link_step(b, g);
    }
}

/// The images that a scan of `b` from `g` on finds, in order of appearance: where
/// the `!` of each stands. The scan goes to the next image token, takes it, and
/// goes on after its end. A `![` that starts no image token is passed over.
pub open spec fn images_from(b: Seq<u8>, g: int) -> Seq<int>
    decreases b.len() - g,
    via images_from_decreases
{
    let q = next_image(b, g);
    if g < 0 || q >= b.len() {
        seq![]
    } else {
        seq![q] + images_from(b, image_end(b, q))
    }
}

#[via_fn]
proof fn images_from_decreases(b: Seq<u8>, g: int) {
    if 0 <= g <= b.len() {
        lemma_image_step(b, g);
    }
}

/// Where the text that an image scan of `b` from `g` leaves unconsumed begins:
/// just past the last image token that it found.
pub open spec fn images_rest(b: Seq<u8>, g: int) -> int
    decreases b.len() - g,
    via images_rest_decreases
{
    let q = next_image(b, g);
    if g < 0 || q >= b.len() {
        g
    } else {
        images_rest(b, image_end(b, q))
    }
}

#[via_fn]
proof fn images_rest_decreases(b: Seq<u8>, g: int) {
    if 0 <= g <= b.len() {
        lemma_image_step(b, g);
    }
}

/// `item` is the link that a scan of `b` accepted at `t`: the text skipped before
/// it, its label and its url.
pub open spec fn is_link_item(item: (&str, (&str, &str)), b: Seq<u8>, t: (int, int)) -> bool {
    &&& item.0.spec_bytes() == b.subrange(t.0, t.1)
    &&& item.1.0.spec_bytes() == link_label(b, t.1)
    &&& item.1.1.spec_bytes() == link_url(b, t.1)
}

/// `item` is the image that a scan of `b` found at `q`: its alt text and its url.
pub open spec fn is_image_item(item: (&str, &str), b: Seq<u8>, q: int) -> bool {
    &&& item.0.spec_bytes() == link_label(b, q + 1)
    &&& item.1.spec_bytes() == link_url(b, q + 1)
}

/// The next link token of `input` at or after the byte offset `from`: where its
/// `[` stands, where it ends, its label and its url.
fn find_link<'a>(input: &'a str, from: usize) -> (r: Option<(usize, usize, &'a str, &'a str)>)
    requires
        from <= input.spec_bytes().len(),
    ensures
        ({
            let b = input.spec_bytes();
            let p = next_link(b, from as int);
            &&& (r is Some <==> p < b.len())
            &&& (r matches Some((at, end, label, url)) ==> {
                &&& at == p
                &&& end == link_end(b, p)
                &&& label.spec_bytes() == link_label(b, p)
                &&& url.spec_bytes() == link_url(b, p)
            })
        }),
{
    let b = input.as_bytes();
    let mut p = from;
    while p < b.len()
        invariant
            b@ == input.spec_bytes(),
            from <= p <= b@.len(),
            next_link(b@, from as int) == next_link(b@, p as int),
        decreases b@.len() - p,
    {
        if b[p] == OPEN_BRACKET {
            proof {
                lemma_ascii_cut(b@, p as int);
                vstd::utf8::is_char_boundary_start_end_of_seq(b@);
                lemma_link_shift(b@, p as int, p as int);
            }
            let tail = cut(input, p, b.len());
            proof {
                assert(tail.spec_bytes().subrange(0, tail.spec_bytes().len() as int)
                    =~= tail.spec_bytes());
            }
            match MarkdownUrl.parse(tail) {
                Ok((rest, (label, url))) => {
                    proof {
                        lemma_link_bounds(b@, p as int);
                    }
                    let end = b.len() - rest.len();
                    return Some((p, end, label, url));
                },
                Err(_) => {},
            }
        }
        p += 1;
    }
    None
}

/// The next image token of `input` at or after the byte offset `from`: where its
/// `!` stands, where it ends, its alt text and its url.
fn find_image<'a>(input: &'a str, from: usize) -> (r: Option<(usize, usize, &'a str, &'a str)>)
    requires
        from <= input.spec_bytes().len(),
    ensures
        ({
            let b = input.spec_bytes();
            let q = next_image(b, from as int);
            &&& (r is Some <==> q < b.len())
            &&& (r matches Some((at, end, alt, url)) ==> {
                &&& at == q
                &&& end == image_end(b, q)
                &&& alt.spec_bytes() == link_label(b, q + 1)
                &&& url.spec_bytes() == link_url(b, q + 1)
            })
        }),
{
    let b = input.as_bytes();
    let mut q = from;
    while q < b.len()
        invariant
            b@ == input.spec_bytes(),
            from <= q <= b@.len(),
            next_image(b@, from as int) == next_image(b@, q as int),
        decreases b@.len() - q,
    {
        if b[q] == BANG {
            proof {
                lemma_ascii_cut(b@, q as int);
                vstd::utf8::is_char_boundary_start_end_of_seq(b@);
                if q + 1 < b@.len() {
                    lemma_link_shift(b@, q as int, q + 1);
                }
            }
            let tail = cut(input, q, b.len());
            proof {
                let t = tail.spec_bytes();
                assert(t.subrange(0, t.len() as int) =~= t);
                assert(t.len() > 0 && t[0] == b@[q as int]);
            }
            match MarkdownImage.parse(tail) {
                Ok((rest, (alt, url))) => {
                    proof {
                        lemma_link_bounds(b@, q + 1);
                    }
                    let end = b.len() - rest.len();
                    return Some((q, end, alt, url));
                },
                Err(_) => {},
            }
        }
        q += 1;
    }
    None
}

/// The result of `MarkdownUrls`: the unconsumed rest of the input, and for each
/// link the text skipped before it, its label and its url.
pub type MarkdownUrlsResults<'a> = Result<(&'a str, Vec<(&'a str, (&'a str, &'a str))>), NoMatch>;

/// Finds all urls "\[maybe_something\]\(maybe_something\)" but not image urls
/// "!\[maybe_something\]\(maybe_something\)".
pub struct MarkdownUrls;

impl MarkdownUrls {
    /// Scans all of `input` for links, as `links_from` describes. It always
    /// succeeds, with no links where `input` holds none.
    pub fn parse<'a>(&self, input: &'a str) -> (r: MarkdownUrlsResults<'a>)
        ensures
            ({
                let b = input.spec_bytes();
                let t = links_from(b, 0);
                &&& r is Ok
                &&& (r matches Ok((rest, found)) ==> {
                    &&& rest.spec_bytes() == b.subrange(links_rest(b, 0), b.len() as int)
                    &&& found@.len() == t.len()
                    &&& forall|j: int| 0 <= j < t.len() ==> is_link_item(found@[j], b, t[j])
                })
            }),
    {
        let b = input.as_bytes();
        let mut g: usize = 0;
        let mut found: Vec<(&'a str, (&'a str, &'a str))> = Vec::new();
        let ghost mut taken: Seq<(int, int)> = seq![];
        proof {
            assert(taken + links_from(b@, 0) =~= links_from(b@, 0));
        }
        loop
            invariant
                b@ == input.spec_bytes(),
                g <= b@.len(),
                is_char_boundary(b@, g as int),
                taken + links_from(b@, g as int) == links_from(b@, 0),
                links_rest(b@, g as int) == links_rest(b@, 0),
                found@.len() == taken.len(),
                forall|j: int| 0 <= j < taken.len() ==> is_link_item(found@[j], b@, taken[j]),
            decreases b@.len() - g,
        {
            match find_link(input, g) {
                None => {
                    proof {
                        vstd::utf8::is_char_boundary_start_end_of_seq(b@);
                        assert(taken + links_from(b@, g as int) =~= taken);
                    }
                    let rest = cut(input, g, b.len());
                    return Ok((rest, found));
                },
                Some((p, end, label, url)) => {
                    proof {
                        lemma_link_step(b@, g as int);
                        lemma_next_link(b@, g as int);
                        lemma_link_bounds(b@, p as int);
                        lemma_ascii_cut(b@, p as int);
                        lemma_ascii_cut(b@, link_close(b@, p as int));
                    }
                    if p > 0 && b[p - 1] == BANG {
                    } else {
                        let skipped = cut(input, g, p);
                        found.push((skipped, (label, url)));
                        proof {
                            let x = seq![(g as int, p as int)];
                            assert((taken + x) + links_from(b@, end as int) =~= taken + (x
                                + links_from(b@, end as int)));
                            taken = taken + x;
                        }
                    }
                    g = end;
                },
            }
        }
    }
}

/// The result of `MarkdownImages`: the unconsumed rest of the input, and for each
/// image its alt text and its url.
pub type MarkdownImagesResults<'a> = Result<(&'a str, Vec<(&'a str, &'a str)>), NoMatch>;

/// Finds all images "!\[maybe_something\]\(maybe_something\)" but not plain
/// markdown urls "\[maybe_something\]\(maybe_something\)".
pub struct MarkdownImages;

impl MarkdownImages {
    /// Scans all of `input` for images, as `images_from` describes. It always
    /// succeeds, with no images where `input` holds none.
    pub fn parse<'a>(&self, input: &'a str) -> (r: MarkdownImagesResults<'a>)
        ensures
            ({
                let b = input.spec_bytes();
                let t = images_from(b, 0);
                &&& r is Ok
                &&& (r matches Ok((rest, found)) ==> {
                    &&& rest.spec_bytes() == b.subrange(images_rest(b, 0), b.len() as int)
                    &&& found@.len() == t.len()
                    &&& forall|j: int| 0 <= j < t.len() ==> is_image_item(found@[j], b, t[j])
                })
            }),
    {
        let b = input.as_bytes();
        let mut g: usize = 0;
        let mut found: Vec<(&'a str, &'a str)> = Vec::new();
        let ghost mut taken: Seq<int> = seq![];
        proof {
            assert(taken + images_from(b@, 0) =~= images_from(b@, 0));
        }
        loop
            invariant
                b@ == input.spec_bytes(),
                g <= b@.len(),
                is_char_boundary(b@, g as int),
                taken + images_from(b@, g as int) == images_from(b@, 0),
                images_rest(b@, g as int) == images_rest(b@, 0),
                found@.len() == taken.len(),
                forall|j: int| 0 <= j < taken.len() ==> is_image_item(found@[j], b@, taken[j]),
            decreases b@.len() - g,
        {
            match find_image(input, g) {
                None => {
                    proof {
                        vstd::utf8::is_char_boundary_start_end_of_seq(b@);
                        assert(taken + images_from(b@, g as int) =~= taken);
                    }
                    let rest = cut(input, g, b.len());
                    return Ok((rest, found));
                },
                Some((q, end, alt, url)) => {
                    proof {
                        lemma_image_step(b@, g as int);
                        lemma_next_image(b@, g as int);
                        lemma_link_bounds(b@, q + 1);
                        lemma_ascii_cut(b@, link_close(b@, q + 1));
                    }
                    found.push((alt, url));
                    proof {
                        let x = seq![q as int];
                        assert((taken + x) + images_from(b@, end as int) =~= taken + (x
                            + images_from(b@, end as int)));
                        taken = taken + x;
                    }
                    g = end;
                },
            }
        }
    }
}

} // verus!
