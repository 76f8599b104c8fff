//! Matchers of delimiter pairs: `(...)`, `[...]` and `![...]`, each either empty
//! or with content. Nesting is not tracked: the first closing delimiter after
//! the opening one ends the pair.
use vstd::prelude::*;
use vstd::string::StringSliceAdditionalSpecFns;
use crate::delimiters::NoMatch;
use crate::text::{
    cut, lemma_next_index, lemma_next_index_suffix, next_index, starts_with, tag, take_till,
    BANG, CLOSE_BRACKET, CLOSE_PAREN, OPEN_BRACKET, OPEN_PAREN,
};

verus! {

broadcast use vstd::utf8::encode_utf8_valid_utf8;

/// The index of the `)` that closes a `(` at `p`: the first `)` after it.
pub open spec fn paren_close(b: Seq<u8>, p: int) -> int {
    next_index(b, p + 1, CLOSE_PAREN)
}

/// `b` holds at `p` a `(` that some later `)` closes.
pub open spec fn parens_at(b: Seq<u8>, p: int) -> bool {
    0 <= p < b.len() && b[p] == OPEN_PAREN && paren_close(b, p) < b.len()
}

/// The index of the `]` that closes a `[` at `p`: the first `]` after it.
pub open spec fn bracket_close(b: Seq<u8>, p: int) -> int {
    next_index(b, p + 1, CLOSE_BRACKET)
}

/// `b` holds at `p` a `[` that some later `]` closes.
pub open spec fn brackets_at(b: Seq<u8>, p: int) -> bool {
    0 <= p < b.len() && b[p] == OPEN_BRACKET && bracket_close(b, p) < b.len()
}

/// `b` holds at `p` a `![` whose `[` some later `]` closes.
pub open spec fn image_brackets_at(b: Seq<u8>, p: int) -> bool {
    0 <= p && p + 1 < b.len() && b[p] == BANG && brackets_at(b, p + 1)
}

/// The outcome of a pair matcher on `input`: it succeeds exactly when `found`, with
/// the content between the offsets `from` and `to` and the rest after the closing
/// delimiter at `to`.
pub open spec fn matches_pair<'a>(
    input: &'a str,
    found: bool,
    from: int,
    to: int,
    r: Result<(&'a str, &'a str), NoMatch>,
) -> bool {
    let b = input.spec_bytes();
    &&& (r is Ok <==> found)
    &&& (r matches Ok((rest, content)) ==> content.spec_bytes() == b.subrange(from, to)
        && rest.spec_bytes() == b.subrange(to + 1, b.len() as int))
}

/// An opening literal, content of one or more bytes other than `close`, then `close`.
fn non_empty_pair<'a>(input: &'a str, open: &[u8], close: u8) -> (r: Result<
    (&'a str, &'a str),
    NoMatch,
>)
    requires
        0 < open@.len(),
        forall|k: int| 0 <= k < open@.len() ==> open@[k] < 0x80,
        close < 0x80,
    ensures
        ({
            let b = input.spec_bytes();
            let k = open@.len() as int;
            let j = next_index(b, k, close);
            matches_pair(input, starts_with(b, open@) && k < j < b.len(), k, j, r)
        }),
{
    let ghost b = input.spec_bytes();
    let ghost k = open@.len() as int;
    let after = match tag(input, open) {
        Some((after, _)) => after,
        None => return Err(NoMatch),
    };
    proof {
        lemma_next_index(b, k, close);
        lemma_next_index_suffix(b, k, k, close);
    }
    let (after_content, content) = match take_till(after, close) {
        Some(found) => found,
        None => return Err(NoMatch),
    };
    let ghost j = next_index(b, k, close);
    let lit: [u8; 1] = [close];
    proof {
        let a = after_content.spec_bytes();
        assert(a =~= b.subrange(j, b.len() as int));
        assert(content.spec_bytes() =~= b.subrange(k, j));
        assert(lit@ =~= seq![close]);
        if j < b.len() {
            assert(a.subrange(0, 1) =~= seq![close]);
        }
    }
    match tag(after_content, &lit) {
        Some((rest, _)) => {
            proof {
                assert(rest.spec_bytes() =~= b.subrange(j + 1, b.len() as int));
            }
            Ok((rest, content))
        },
        None => Err(NoMatch),
    }
}

/// An opening literal followed at once by `close`; the content is the empty span
/// between the two.
fn empty_pair<'a>(input: &'a str, open: &[u8], close: u8) -> (r: Result<
    (&'a str, &'a str),
    NoMatch,
>)
    requires
        0 < open@.len(),
        forall|k: int| 0 <= k < open@.len() ==> open@[k] < 0x80,
        close < 0x80,
    ensures
        ({
            let b = input.spec_bytes();
            let k = open@.len() as int;
            let j = next_index(b, k, close);
            matches_pair(input, starts_with(b, open@) && k == j < b.len(), k, k, r)
        }),
{
    let ghost b = input.spec_bytes();
    let ghost k = open@.len() as int;
    let after = match tag(input, open) {
        Some((after, _)) => after,
        None => return Err(NoMatch),
    };
    let lit: [u8; 1] = [close];
    proof {
        assert(lit@ =~= seq![close]);
        lemma_next_index(b, k, close);
        let a = after.spec_bytes();
        assert(a =~= b.subrange(k, b.len() as int));
        if starts_with(a, seq![close]) {
            assert(a[0] == a.subrange(0, 1)[0]);
        }
        if k == next_index(b, k, close) && k < b.len() {
            assert(a.subrange(0, 1) =~= seq![close]);
        }
    }
    match tag(after, &lit) {
        Some((rest, _)) => {
            proof {
                assert(b[k] == close);
                assert(rest.spec_bytes() =~= b.subrange(k + 1, b.len() as int));
            }
            let content = cut(after, 0, 0);
            proof {
                assert(content.spec_bytes() =~= b.subrange(k, k));
            }
            Ok((rest, content))
        },
        None => Err(NoMatch),
    }
}

/// Finds "(something)".
pub struct NonEmptyParensPair;

impl NonEmptyParensPair {
    /// Matches "(something)" at the start of `input`: the rest of `input` and the content.
    pub fn parse<'a>(&self, input: &'a str) -> (r: Result<(&'a str, &'a str), NoMatch>)
        ensures
            matches_pair(input, parens_at(input.spec_bytes(), 0) && paren_close(input.spec_bytes(), 0) > 1, 1, paren_close(input.spec_bytes(), 0), r),
    {
        let open: [u8; 1] = [OPEN_PAREN];
        proof {
            let b = input.spec_bytes();
            assert(open@ =~= seq![OPEN_PAREN]);
            if starts_with(b, open@) {
                assert(b[0] == b.subrange(0, 1)[0]);
            } else if parens_at(b, 0) {
                assert(b.subrange(0, 1) =~= open@);
            }
        }
        non_empty_pair(input, &open, CLOSE_PAREN)
    }
}

/// Finds "()".
pub struct EmptyParensPair;

impl EmptyParensPair {
    /// Matches "()" at the start of `input`: the rest of `input` and the content.
    pub fn parse<'a>(&self, input: &'a str) -> (r: Result<(&'a str, &'a str), NoMatch>)
        ensures
            matches_pair(input, parens_at(input.spec_bytes(), 0) && paren_close(input.spec_bytes(), 0) == 1, 1, 1, r),
    {
        let open: [u8; 1] = [OPEN_PAREN];
        proof {
            let b = input.spec_bytes();
            assert(open@ =~= seq![OPEN_PAREN]);
            if starts_with(b, open@) {
                assert(b[0] == b.subrange(0, 1)[0]);
            } else if parens_at(b, 0) {
                assert(b.subrange(0, 1) =~= open@);
            }
        }
        empty_pair(input, &open, CLOSE_PAREN)
    }
}

/// Finds "[something]".
pub struct NonEmptyBracketPair;

impl NonEmptyBracketPair {
    /// Matches "[something]" at the start of `input`: the rest of `input` and the content.
    pub fn parse<'a>(&self, input: &'a str) -> (r: Result<(&'a str, &'a str), NoMatch>)
        ensures
            matches_pair(input, brackets_at(input.spec_bytes(), 0) && bracket_close(input.spec_bytes(), 0) > 1, 1, bracket_close(input.spec_bytes(), 0), r),
    {
        let open: [u8; 1] = [OPEN_BRACKET];
        proof {
            let b = input.spec_bytes();
            assert(open@ =~= seq![OPEN_BRACKET]);
            if starts_with(b, open@) {
                assert(b[0] == b.subrange(0, 1)[0]);
            } else if brackets_at(b, 0) {
                assert(b.subrange(0, 1) =~= open@);
            }
        }
        non_empty_pair(input, &open, CLOSE_BRACKET)
    }
}

/// Finds "[]".
pub struct EmptyBracketPair;

impl EmptyBracketPair {
    /// Matches "[]" at the start of `input`: the rest of `input` and the content.
    pub fn parse<'a>(&self, input: &'a str) -> (r: Result<(&'a str, &'a str), NoMatch>)
        ensures
            matches_pair(input, brackets_at(input.spec_bytes(), 0) && bracket_close(input.spec_bytes(), 0) == 1, 1, 1, r),
    {
        let open: [u8; 1] = [OPEN_BRACKET];
        proof {
            let b = input.spec_bytes();
            assert(open@ =~= seq![OPEN_BRACKET]);
            if starts_with(b, open@) {
                assert(b[0] == b.subrange(0, 1)[0]);
            } else if brackets_at(b, 0) {
                assert(b.subrange(0, 1) =~= open@);
            }
        }
        empty_pair(input, &open, CLOSE_BRACKET)
    }
}

/// Finds "![something]".
pub struct NonEmptyMarkdownImageBracketPair;

impl NonEmptyMarkdownImageBracketPair {
    /// Matches "![something]" at the start of `input`: the rest of `input` and the content.
    pub fn parse<'a>(&self, input: &'a str) -> (r: Result<(&'a str, &'a str), NoMatch>)
        ensures
            matches_pair(input, image_brackets_at(input.spec_bytes(), 0) && bracket_close(input.spec_bytes(), 1) > 2, 2, bracket_close(input.spec_bytes(), 1), r),
    {
        let open: [u8; 2] = [BANG, OPEN_BRACKET];
        proof {
            let b = input.spec_bytes();
            assert(open@ =~= seq![BANG, OPEN_BRACKET]);
            if starts_with(b, open@) {
                assert(b[0] == b.subrange(0, 2)[0]);
                assert(b[1] == b.subrange(0, 2)[1]);
            } else if image_brackets_at(b, 0) {
                assert(b.subrange(0, 2) =~= open@);
            }
        }
        non_empty_pair(input, &open, CLOSE_BRACKET)
    }
}

/// Finds "![]".
pub struct EmptyMarkdownImageBracketPair;

impl EmptyMarkdownImageBracketPair {
    /// Matches "![]" at the start of `input`: the rest of `input` and the content.
    pub fn parse<'a>(&self, input: &'a str) -> (r: Result<(&'a str, &'a str), NoMatch>)
        ensures
            matches_pair(input, image_brackets_at(input.spec_bytes(), 0) && bracket_close(input.spec_bytes(), 1) == 2, 2, 2, r),
    {
        let open: [u8; 2] = [BANG, OPEN_BRACKET];
        proof {
            let b = input.spec_bytes();
            assert(open@ =~= seq![BANG, OPEN_BRACKET]);
            if starts_with(b, open@) {
                assert(b[0] == b.subrange(0, 2)[0]);
                assert(b[1] == b.subrange(0, 2)[1]);
            } else if image_brackets_at(b, 0) {
                assert(b.subrange(0, 2) =~= open@);
            }
        }
        empty_pair(input, &open, CLOSE_BRACKET)
    }
}

/// Finds either "()" or "(something)".
pub struct Parens;

impl Parens {
    /// Matches "()" or "(something)" at the start of `input`: the rest of `input` and the
    /// content, which is empty for "()".
    pub fn parse<'a>(&self, input: &'a str) -> (r: Result<(&'a str, &'a str), NoMatch>)
        ensures
            matches_pair(input, parens_at(input.spec_bytes(), 0), 1, paren_close(input.spec_bytes(), 0), r),
    {
        proof {
            let b = input.spec_bytes();
            if b.len() >= 1 {
                lemma_next_index(b, 1, CLOSE_PAREN);
            }
        }
        match NonEmptyParensPair.parse(input) {
            Ok(found) => Ok(found),
            Err(_) => EmptyParensPair.parse(input),
        }
    }
}

/// Finds either "[]" or "[something]".
pub struct Brackets;

impl Brackets {
    /// Matches "[]" or "[something]" at the start of `input`: the rest of `input` and the
    /// content, which is empty for "[]".
    pub fn parse<'a>(&self, input: &'a str) -> (r: Result<(&'a str, &'a str), NoMatch>)
        ensures
            matches_pair(input, brackets_at(input.spec_bytes(), 0), 1, bracket_close(input.spec_bytes(), 0), r),
    {
        proof {
            let b = input.spec_bytes();
            if b.len() >= 1 {
                lemma_next_index(b, 1, CLOSE_BRACKET);
            }
        }
        match NonEmptyBracketPair.parse(input) {
            Ok(found) => Ok(found),
            Err(_) => EmptyBracketPair.parse(input),
        }
    }
}

/// Finds either "![]" or "![something]".
pub struct MarkdownImageBrackets;

impl MarkdownImageBrackets {
    /// Matches "![]" or "![something]" at the start of `input`: the rest of `input` and the
    /// content, which is empty for "![]".
    pub fn parse<'a>(&self, input: &'a str) -> (r: Result<(&'a str, &'a str), NoMatch>)
        ensures
            matches_pair(input, image_brackets_at(input.spec_bytes(), 0), 2, bracket_close(input.spec_bytes(), 1), r),
    {
        proof {
            let b = input.spec_bytes();
            if b.len() >= 2 {
                lemma_next_index(b, 2, CLOSE_BRACKET);
            }
        }
        match NonEmptyMarkdownImageBracketPair.parse(input) {
            Ok(found) => Ok(found),
            Err(_) => EmptyMarkdownImageBracketPair.parse(input),
        }
    }
}

} // verus!
