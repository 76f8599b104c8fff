//! Matchers of whole tokens: a markdown link `[label](url)`, a markdown image
//! `![alt](url)`, and the words of an image's alt text.
use vstd::prelude::*;
use vstd::string::StringSliceAdditionalSpecFns;
use crate::delimiters::NoMatch;
use crate::pairs::{
    bracket_close, brackets_at, paren_close, parens_at, Brackets,
    MarkdownImageBrackets, Parens,
};
use crate::text::{cut, lemma_ascii_cut, lemma_next_index, lemma_next_index_suffix, BANG, CLOSE_PAREN};

verus! {

broadcast use vstd::utf8::encode_utf8_valid_utf8;

/// `b` holds at `p` a link token: a bracket pair followed at once by a parenthesis pair.
pub open spec fn link_at(b: Seq<u8>, p: int) -> bool {
    brackets_at(b, p) && parens_at(b, bracket_close(b, p) + 1)
}

/// The label of a link token at `p`: the bytes between its `[` and its `]`.
pub open spec fn link_label(b: Seq<u8>, p: int) -> Seq<u8> {
    b.subrange(p + 1, bracket_close(b, p))
}

/// The index of the `)` that ends a link token at `p`.
pub open spec fn link_close(b: Seq<u8>, p: int) -> int {
    paren_close(b, bracket_close(b, p) + 1)
}

/// The url of a link token at `p`: the bytes between its `(` and its `)`.
pub open spec fn link_url(b: Seq<u8>, p: int) -> Seq<u8> {
    b.subrange(bracket_close(b, p) + 2, link_close(b, p))
}

/// `b` holds at `q` an image token: a `!` followed at once by a link token.
pub open spec fn image_at(b: Seq<u8>, q: int) -> bool {
    0 <= q && q + 1 < b.len() && b[q] == BANG && link_at(b, q + 1)
}

/// What follows the `]` of a link token at `p` is searched the same in `b` and in
/// the rest of `b` after that `]`.
proof fn lemma_after_label(b: Seq<u8>, p: int)
    requires
        brackets_at(b, p),
    ensures
        ({
            let c = bracket_close(b, p);
            let a = b.subrange(c + 1, b.len() as int);
            &&& parens_at(a, 0) == parens_at(b, c + 1)
            &&& p < c < b.len()
            &&& parens_at(a, 0) ==> paren_close(a, 0) == paren_close(b, c + 1) - (c + 1)
            &&& parens_at(b, c + 1) ==> c + 2 <= paren_close(b, c + 1) < b.len()
            &&& parens_at(b, c + 1) ==> b[paren_close(b, c + 1)] == CLOSE_PAREN
        }),
{
    let c = bracket_close(b, p);
    lemma_next_index(b, p + 1, crate::text::CLOSE_BRACKET);
    if c + 1 < b.len() {
        lemma_next_index_suffix(b, c + 1, c + 2, CLOSE_PAREN);
        lemma_next_index(b, c + 2, CLOSE_PAREN);
    }
}

/// The parts of a link token: its `]` comes after its `[`, and its `)` after the
/// `(` that follows that `]`.
pub proof fn lemma_link_bounds(b: Seq<u8>, p: int)
    requires
        link_at(b, p),
    ensures
        p < bracket_close(b, p),
        bracket_close(b, p) + 2 <= link_close(b, p) < b.len(),
        b[link_close(b, p)] == CLOSE_PAREN,
{
    lemma_after_label(b, p);
}

/// Whether a link token starts at `p`, and its parts, are the same in `b` and in
/// the part of `b` from `g` on.
pub proof fn lemma_link_shift(b: Seq<u8>, g: int, p: int)
    requires
        0 <= g <= p < b.len(),
    ensures
        ({
            let t = b.subrange(g, b.len() as int);
            &&& link_at(t, p - g) == link_at(b, p)
            &&& link_at(b, p) ==> {
                &&& link_label(t, p - g) == link_label(b, p)
                &&& link_url(t, p - g) == link_url(b, p)
                &&& link_close(t, p - g) == link_close(b, p) - g
            }
        }),
{
    let t = b.subrange(g, b.len() as int);
    lemma_next_index_suffix(b, g, p + 1, crate::text::CLOSE_BRACKET);
    lemma_next_index(b, p + 1, crate::text::CLOSE_BRACKET);
    let c = bracket_close(b, p);
    if c + 2 <= b.len() {
        lemma_next_index_suffix(b, g, c + 2, CLOSE_PAREN);
        lemma_next_index(b, c + 2, CLOSE_PAREN);
    }
    if link_at(b, p) {
        assert(link_label(t, p - g) =~= link_label(b, p));
        assert(link_url(t, p - g) =~= link_url(b, p));
    }
}

/// Finds "\[maybe_something\]\(maybe_something\)".
pub struct MarkdownUrl;

impl MarkdownUrl {
    /// Matches a link token at the start of `input`: the rest of `input`, and the
    /// label and the url.
    pub fn parse<'a>(&self, input: &'a str) -> (r: Result<(&'a str, (&'a str, &'a str)), NoMatch>)
        ensures
            ({
                let b = input.spec_bytes();
                &&& (r is Ok <==> link_at(b, 0))
                &&& (r matches Ok((rest, (label, url))) ==> {
                    &&& label.spec_bytes() == link_label(b, 0)
                    &&& url.spec_bytes() == link_url(b, 0)
                    &&& rest.spec_bytes() == b.subrange(link_close(b, 0) + 1, b.len() as int)
                })
            }),
    {
        let ghost b = input.spec_bytes();
        let (after, label) = match Brackets.parse(input) {
            Ok(found) => found,
            Err(e) => return Err(e),
        };
        proof {
            lemma_after_label(b, 0);
        }
        match Parens.parse(after) {
            Ok((rest, url)) => {
                proof {
                    assert(url.spec_bytes() =~= link_url(b, 0));
                    assert(rest.spec_bytes() =~= b.subrange(link_close(b, 0) + 1, b.len() as int));
                }
                Ok((rest, (label, url)))
            },
            Err(e) => Err(e),
        }
    }
}

/// Finds "!\[maybe_something\]\(maybe_something\)".
pub struct MarkdownImage;

impl MarkdownImage {
    /// Matches an image token at the start of `input`: the rest of `input`, and the
    /// alt text and the url.
    pub fn parse<'a>(&self, input: &'a str) -> (r: Result<(&'a str, (&'a str, &'a str)), NoMatch>)
        ensures
            ({
                let b = input.spec_bytes();
                &&& (r is Ok <==> image_at(b, 0))
                &&& (r matches Ok((rest, (alt, url))) ==> {
                    &&& alt.spec_bytes() == link_label(b, 1)
                    &&& url.spec_bytes() == link_url(b, 1)
                    &&& rest.spec_bytes() == b.subrange(link_close(b, 1) + 1, b.len() as int)
                })
            }),
    {
        let ghost b = input.spec_bytes();
        let (after, alt) = match MarkdownImageBrackets.parse(input) {
            Ok(found) => found,
            Err(e) => return Err(e),
        };
        proof {
            lemma_after_label(b, 1);
        }
        match Parens.parse(after) {
            Ok((rest, url)) => {
                proof {
                    assert(url.spec_bytes() =~= link_url(b, 1));
                    assert(rest.spec_bytes() =~= b.subrange(link_close(b, 1) + 1, b.len() as int));
                }
                Ok((rest, (alt, url)))
            },
            Err(e) => Err(e),
        }
    }
}

/// An ASCII whitespace byte: space, tab, line feed, form feed or carriage return.
pub open spec fn is_space(c: u8) -> bool {
    c == 0x20 || c == 0x09 || c == 0x0a || c == 0x0c || c == 0x0d
}

/// The first index at or after `from` that holds ASCII whitespace, or `s.len()`.
pub open spec fn next_space(s: Seq<u8>, from: int) -> int
    decreases s.len() - from,
{
    if 0 <= from < s.len() {
        if is_space(s[from]) {
            from
        } else {
            next_space(s, from + 1)
        }
    } else {
        s.len() as int
    }
}

proof fn lemma_next_space(s: Seq<u8>, from: int)
    requires
        0 <= from <= s.len(),
    ensures
        from <= next_space(s, from) <= s.len(),
        next_space(s, from) < s.len() ==> is_space(s[next_space(s, from)]),
        forall|k: int| from <= k < next_space(s, from) ==> !is_space(s[k]),
    decreases s.len() - from,
{
    if from < s.len() && !is_space(s[from]) {
        lemma_next_space(s, from + 1);
    }
}

proof fn lemma_next_space_suffix(s: Seq<u8>, g: int, from: int)
    requires
        0 <= g <= from <= s.len(),
    ensures
        next_space(s.subrange(g, s.len() as int), from - g) == next_space(s, from) - g,
    decreases s.len() - from,
{
    if from < s.len() && !is_space(s[from]) {
        lemma_next_space_suffix(s, g, from + 1);
    }
}

/// The words of `s`: its maximal runs of bytes other than ASCII whitespace, in
/// order. The bytes before the first whitespace byte form a word when there are
/// any; what follows that byte is split the same way.
pub open spec fn words(s: Seq<u8>) -> Seq<Seq<u8>>
    decreases s.len(),
    via words_decreases
{
    if s.len() == 0 {
        seq![]
    } else {
        let k = next_space(s, 0);
        let first = if k == 0 {
            seq![]
        } else {
            seq![s.subrange(0, k)]
        };
        if k == s.len() {
            first
        } else {
            first + words(s.subrange(k + 1, s.len() as int))
        }
    }
}

#[via_fn]
proof fn words_decreases(s: Seq<u8>) {
    if s.len() != 0 {
        lemma_next_space(s, 0);
    }
}

/// Splits `s` into its words, each a part of `s`.
fn split_words<'a>(s: &'a str) -> (r: Vec<&'a str>)
    ensures
        r@.len() == words(s.spec_bytes()).len(),
        forall|j: int| 0 <= j < r@.len() ==> r@[j].spec_bytes() == words(s.spec_bytes())[j],
{
    let b = s.as_bytes();
    let ghost n = b@.len() as int;
    let mut r: Vec<&'a str> = Vec::new();
    let ghost mut done: Seq<Seq<u8>> = seq![];
    let mut i: usize = 0;
    proof {
        assert(b@.subrange(0, n) =~= b@);
    }
    while i < b.len()
        invariant
            b@ == s.spec_bytes(),
            n == b@.len(),
            i <= n,
            0 < i < n ==> is_space(b@[i - 1]),
            r@.len() == done.len(),
            forall|j: int| 0 <= j < r@.len() ==> r@[j].spec_bytes() == done[j],
            done + words(b@.subrange(i as int, n)) == words(b@),
        decreases n - i,
    {
        let ghost t = b@.subrange(i as int, n);
        let mut k: usize = i;
        while k < b.len() && !(b[k] == 0x20 || b[k] == 0x09 || b[k] == 0x0a || b[k] == 0x0c
            || b[k] == 0x0d)
            invariant
                b@ == s.spec_bytes(),
                n == b@.len(),
                i <= k <= n,
                next_space(b@, i as int) == next_space(b@, k as int),
            decreases n - k,
        {
            k += 1;
        }
        proof {
            lemma_next_space_suffix(b@, i as int, i as int);
            lemma_next_space(b@, i as int);
            if k < n {
                lemma_ascii_cut(b@, k as int);
            } else {
                vstd::utf8::is_char_boundary_start_end_of_seq(b@);
            }
            if i > 0 {
                lemma_ascii_cut(b@, i - 1);
            }
        }
        let ghost first: Seq<Seq<u8>> = if k == i {
            seq![]
        } else {
            seq![b@.subrange(i as int, k as int)]
        };
        if k > i {
            let word = cut(s, i, k);
            r.push(word);
        }
        proof {
            assert(t.subrange(0, k - i) =~= b@.subrange(i as int, k as int));
            done = done + first;
        }
        if k == b.len() {
            proof {
                assert(words(t) == first);
                assert(words(b@.subrange(n, n)) =~= seq![]);
                assert(done + words(b@.subrange(n, n)) =~= done);
            }
            i = k;
        } else {
            proof {
                assert(t.subrange(k - i + 1, t.len() as int) =~= b@.subrange(k + 1, n));
                assert(words(t) == first + words(b@.subrange(k + 1, n)));
                assert(done + words(b@.subrange(k + 1, n)) =~= (done.subrange(0, done.len() - first.len())) + words(t));
            }
            i = k + 1;
        }
    }
    proof {
        assert(words(b@.subrange(n, n)) =~= seq![]);
        assert(done + words(b@.subrange(n, n)) =~= done);
    }
    r
}

/// Finds the words (punctuation included) of the alt text of a markdown image
/// "!\[alt text\]\(https://some_url\)".
pub struct MarkdownImageAltText;

impl MarkdownImageAltText {
    /// Matches an image token at the start of `input`: its url, and the words of its
    /// alt text, each a part of `input`.
    pub fn parse<'a>(&self, input: &'a str) -> (r: Result<(&'a str, Vec<&'a str>), NoMatch>)
        ensures
            ({
                let b = input.spec_bytes();
                let w = words(link_label(b, 1));
                &&& (r is Ok <==> image_at(b, 0))
                &&& (r matches Ok((url, found)) ==> {
                    &&& url.spec_bytes() == link_url(b, 1)
                    &&& found@.len() == w.len()
                    &&& forall|j: int| 0 <= j < w.len() ==> found@[j].spec_bytes() == w[j]
                })
            }),
    {
        match MarkdownImage.parse(input) {
            Ok((_, (alt, url))) => Ok((url, split_words(alt))),
            Err(e) => Err(e),
        }
    }
}

} // verus!
