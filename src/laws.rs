//! What holds of the two scanners together, and of scanning again what a scan
//! left over.
use vstd::prelude::*;
use crate::pairs::bracket_close;
use crate::scan::{
    image_end, images_from, images_rest, lemma_image_step, lemma_link_step, lemma_next_image,
    lemma_next_link, link_end, links_from, links_rest, next_image, next_link, preceded_by_bang,
};
use crate::text::{lemma_next_index, next_index, BANG, CLOSE_BRACKET, OPEN_BRACKET};
use crate::tokens::{image_at, lemma_link_bounds, lemma_link_shift, link_at, link_close};

verus! {

/// The label of a link token at `p`, as offsets: from just past its `[` to its `]`.
pub open spec fn label_span(b: Seq<u8>, p: int) -> (int, int) {
    (p + 1, bracket_close(b, p))
}

/// The url of a link token at `p`, as offsets: from just past its `(` to its `)`.
pub open spec fn url_span(b: Seq<u8>, p: int) -> (int, int) {
    (bracket_close(b, p) + 2, link_close(b, p))
}

/// No `[` of `b` that some `]` closes has another `[` before that `]`.
pub open spec fn brackets_do_not_nest(b: Seq<u8>) -> bool {
    forall|k: int|
        0 <= k < b.len() && b[k] == OPEN_BRACKET && bracket_close(b, k) < b.len() ==> bracket_close(
            b,
            k,
        ) < next_index(b, k + 1, OPEN_BRACKET)
}

proof fn lemma_links_valid(b: Seq<u8>, g: int)
    requires
        0 <= g <= b.len(),
    ensures
        forall|i: int|
            0 <= i < links_from(b, g).len() ==> {
                let t = #[trigger] links_from(b, g)[i];
                &&& g <= t.0 <= t.1
                &&& link_at(b, t.1)
                &&& !preceded_by_bang(b, t.1)
            },
    decreases b.len() - g,
{
    lemma_link_step(b, g);
    lemma_next_link(b, g);
    let p = next_link(b, g);
    if p < b.len() {
        let e = link_end(b, p);
        lemma_links_valid(b, e);
        let rest = links_from(b, e);
        if !preceded_by_bang(b, p) {
            assert forall|i: int| 0 < i < links_from(b, g).len() implies links_from(b, g)[i]
                == rest[i - 1] by {}
        }
    }
}

proof fn lemma_images_valid(b: Seq<u8>, g: int)
    requires
        0 <= g <= b.len(),
    ensures
        forall|j: int|
            0 <= j < images_from(b, g).len() ==> g <= #[trigger] images_from(b, g)[j] && image_at(
                b,
                images_from(b, g)[j],
            ),
    decreases b.len() - g,
{
    lemma_image_step(b, g);
    lemma_next_image(b, g);
    let q = next_image(b, g);
    if q < b.len() {
        let e = image_end(b, q);
        lemma_images_valid(b, e);
        let rest = images_from(b, e);
        assert forall|j: int| 0 < j < images_from(b, g).len() implies images_from(b, g)[j]
            == rest[j - 1] by {}
    }
}

/// The two scans never report the same token or the same span: each link found
/// is a link token with no `!` right before its `[`, each image found is an image
/// token (a `!` right before a link token), so no link's `[` is an image's `[`,
/// and no label or url of a link is the alt text of an image, nor is a label the
/// url of an image.
pub proof fn lemma_links_and_images_disjoint(b: Seq<u8>)
    ensures
        forall|i: int|
            0 <= i < links_from(b, 0).len() ==> link_at(b, (#[trigger] links_from(b, 0)[i]).1)
                && !preceded_by_bang(b, links_from(b, 0)[i].1),
        forall|j: int| 0 <= j < images_from(b, 0).len() ==> image_at(b, #[trigger] images_from(b, 0)[j]),
        forall|i: int, j: int|
            0 <= i < links_from(b, 0).len() && 0 <= j < images_from(b, 0).len() ==> {
                let p = (#[trigger] links_from(b, 0)[i]).1;
                let q = (#[trigger] images_from(b, 0)[j]) + 1;
                &&& p != q
                &&& label_span(b, p) != label_span(b, q)
                &&& label_span(b, p) != url_span(b, q)
                &&& url_span(b, p) != label_span(b, q)
            },
{
    lemma_links_valid(b, 0);
    lemma_images_valid(b, 0);
    assert forall|i: int, j: int|
        0 <= i < links_from(b, 0).len() && 0 <= j < images_from(b, 0).len() implies {
            let p = (#[trigger] links_from(b, 0)[i]).1;
            let q = (#[trigger] images_from(b, 0)[j]) + 1;
            &&& p != q
            &&& label_span(b, p) != label_span(b, q)
            &&& label_span(b, p) != url_span(b, q)
            &&& url_span(b, p) != label_span(b, q)
        } by {
        let p = links_from(b, 0)[i].1;
        let q = images_from(b, 0)[j] + 1;
        lemma_link_bounds(b, p);
        lemma_link_bounds(b, q);
        lemma_next_index(b, p + 1, CLOSE_BRACKET);
        lemma_next_index(b, q + 1, CLOSE_BRACKET);
        assert(b[q - 1] == BANG);
    }
}

/// Where brackets do not nest, a link found and an image found never share their
/// url either.
pub proof fn lemma_urls_disjoint(b: Seq<u8>)
    requires
        brackets_do_not_nest(b),
    ensures
        forall|i: int, j: int|
            0 <= i < links_from(b, 0).len() && 0 <= j < images_from(b, 0).len() ==> url_span(
                b,
                (#[trigger] links_from(b, 0)[i]).1,
            ) != url_span(b, (#[trigger] images_from(b, 0)[j]) + 1),
{
    lemma_links_and_images_disjoint(b);
    assert forall|i: int, j: int|
        0 <= i < links_from(b, 0).len() && 0 <= j < images_from(b, 0).len() implies url_span(
        b,
        (#[trigger] links_from(b, 0)[i]).1,
    ) != url_span(b, (#[trigger] images_from(b, 0)[j]) + 1) by {
        let p = links_from(b, 0)[i].1;
        let q = images_from(b, 0)[j] + 1;
        lemma_link_bounds(b, p);
        lemma_link_bounds(b, q);
        lemma_next_index(b, p + 1, CLOSE_BRACKET);
        lemma_next_index(b, q + 1, CLOSE_BRACKET);
        lemma_next_index(b, p + 1, OPEN_BRACKET);
        lemma_next_index(b, q + 1, OPEN_BRACKET);
    }
}

proof fn lemma_images_cover(b: Seq<u8>, g: int, q: int)
    requires
        0 <= g <= q,
        image_at(b, q),
    ensures
        exists|j: int|
            0 <= j < images_from(b, g).len() && #[trigger] images_from(b, g)[j] <= q < image_end(
                b,
                images_from(b, g)[j],
            ),
    decreases b.len() - g,
{
    lemma_image_step(b, g);
    lemma_next_image(b, g);
    let s = next_image(b, g);
    let e = image_end(b, s);
    assert(images_from(b, g)[0] == s);
    if e <= q {
        lemma_images_cover(b, e, q);
        let j = choose|j: int|
            0 <= j < images_from(b, e).len() && #[trigger] images_from(b, e)[j] <= q < image_end(
                b,
                images_from(b, e)[j],
            );
        assert(images_from(b, g)[j + 1] == images_from(b, e)[j]);
    }
}

/// Every image token of `b` is found by the image scan, on its own or within an
/// image found before it, and its `[` never starts a link found by the link scan.
pub proof fn lemma_images_exhaustive(b: Seq<u8>, q: int)
    requires
        image_at(b, q),
    ensures
        exists|j: int|
            0 <= j < images_from(b, 0).len() && #[trigger] images_from(b, 0)[j] <= q < image_end(
                b,
                images_from(b, 0)[j],
            ),
        forall|i: int| 0 <= i < links_from(b, 0).len() ==> (#[trigger] links_from(b, 0)[i]).1 != q + 1,
{
    lemma_images_cover(b, 0, q);
    lemma_links_valid(b, 0);
}

proof fn lemma_links_rest_clear(b: Seq<u8>, g: int)
    requires
        0 <= g <= b.len(),
    ensures
        g <= links_rest(b, g) <= b.len(),
        next_link(b, links_rest(b, g)) >= b.len(),
    decreases b.len() - g,
{
    lemma_link_step(b, g);
    lemma_next_link(b, g);
    let p = next_link(b, g);
    if p < b.len() {
        lemma_links_rest_clear(b, link_end(b, p));
    }
}

proof fn lemma_images_rest_clear(b: Seq<u8>, g: int)
    requires
        0 <= g <= b.len(),
    ensures
        g <= images_rest(b, g) <= b.len(),
        next_image(b, images_rest(b, g)) >= b.len(),
    decreases b.len() - g,
{
    lemma_image_step(b, g);
    lemma_next_image(b, g);
    let q = next_image(b, g);
    if q < b.len() {
        lemma_images_rest_clear(b, image_end(b, q));
    }
}

proof fn lemma_next_link_shift(b: Seq<u8>, g: int, from: int)
    requires
        0 <= g <= from <= b.len(),
    ensures
        next_link(b.subrange(g, b.len() as int), from - g) == next_link(b, from) - g,
    decreases b.len() - from,
{
    if from < b.len() {
        lemma_link_shift(b, g, from);
        if !link_at(b, from) {
            lemma_next_link_shift(b, g, from + 1);
        }
    }
}

proof fn lemma_next_image_shift(b: Seq<u8>, g: int, from: int)
    requires
        0 <= g <= from <= b.len(),
    ensures
        next_image(b.subrange(g, b.len() as int), from - g) == next_image(b, from) - g,
    decreases b.len() - from,
{
    if from < b.len() {
        if from + 1 < b.len() {
            lemma_link_shift(b, g, from + 1);
        }
        if !image_at(b, from) {
            lemma_next_image_shift(b, g, from + 1);
        }
    }
}

/// Scanning again what a scan left unconsumed finds nothing, for links and for
/// images alike: each scan visits every token it could take.
pub proof fn lemma_rescan_finds_nothing(b: Seq<u8>)
    ensures
        links_from(b.subrange(links_rest(b, 0), b.len() as int), 0) == Seq::<(int, int)>::empty(),
        images_from(b.subrange(images_rest(b, 0), b.len() as int), 0) == Seq::<int>::empty(),
{
    let g = links_rest(b, 0);
    lemma_links_rest_clear(b, 0);
    lemma_next_link_shift(b, g, g);
    let h = images_rest(b, 0);
    lemma_images_rest_clear(b, 0);
    lemma_next_image_shift(b, h, h);
}

} // verus!
