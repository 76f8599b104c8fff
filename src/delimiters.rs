//! Matchers of single delimiters: `(`, `)`, `[`, `]` and `![`.
use vstd::prelude::*;
use vstd::string::StringSliceAdditionalSpecFns;
use crate::text::{starts_with, tag, BANG, CLOSE_BRACKET, CLOSE_PAREN, OPEN_BRACKET, OPEN_PAREN};

verus! {

/// A matcher found no match at the start of its input.
#[derive(Debug, Clone, Copy, PartialEq, Eq)]
pub struct NoMatch;

/// The outcome of a matcher that succeeds on `lit` alone: the rest of `input` and
/// the part of it that holds `lit`, or `NoMatch` when `input` does not begin with it.
pub open spec fn matches_literal<'a>(
    input: &'a str,
    lit: Seq<u8>,
    r: Result<(&'a str, &'a str), NoMatch>,
) -> bool {
    let b = input.spec_bytes();
    &&& (r is Ok <==> starts_with(b, lit))
    &&& (r matches Ok((rest, m)) ==> m.spec_bytes() == lit && rest.spec_bytes() == b.subrange(
        lit.len() as int,
        b.len() as int,
    ))
}

fn literal<'a>(input: &'a str, lit: &[u8]) -> (r: Result<(&'a str, &'a str), NoMatch>)
    requires
        0 < lit@.len(),
        forall|k: int| 0 <= k < lit@.len() ==> lit@[k] < 0x80,
    ensures
        matches_literal(input, lit@, r),
{
    match tag(input, lit) {
        Some(found) => Ok(found),
        None => Err(NoMatch),
    }
}

/// Finds "(".
pub struct LeftParens;

impl LeftParens {
    /// Consumes a `(` at the start of `input`.
    pub fn parse<'a>(&self, input: &'a str) -> (r: Result<(&'a str, &'a str), NoMatch>)
        ensures
            matches_literal(input, seq![OPEN_PAREN], r),
    {
        let lit: [u8; 1] = [OPEN_PAREN];
        proof {
            assert(lit@ =~= seq![OPEN_PAREN]);
        }
        literal(input, &lit)
    }
}

/// Finds ")".
pub struct RightParens;

impl RightParens {
    /// Consumes a `)` at the start of `input`.
    pub fn parse<'a>(&self, input: &'a str) -> (r: Result<(&'a str, &'a str), NoMatch>)
        ensures
            matches_literal(input, seq![CLOSE_PAREN], r),
    {
        let lit: [u8; 1] = [CLOSE_PAREN];
        proof {
            assert(lit@ =~= seq![CLOSE_PAREN]);
        }
        literal(input, &lit)
    }
}

/// Finds "[".
pub struct LeftBracket;

impl LeftBracket {
    /// Consumes a `[` at the start of `input`.
    pub fn parse<'a>(&self, input: &'a str) -> (r: Result<(&'a str, &'a str), NoMatch>)
        ensures
            matches_literal(input, seq![OPEN_BRACKET], r),
    {
        let lit: [u8; 1] = [OPEN_BRACKET];
        proof {
            assert(lit@ =~= seq![OPEN_BRACKET]);
        }
        literal(input, &lit)
    }
}

/// Finds "]".
pub struct RightBracket;

impl RightBracket {
    /// Consumes a `]` at the start of `input`.
    pub fn parse<'a>(&self, input: &'a str) -> (r: Result<(&'a str, &'a str), NoMatch>)
        ensures
            matches_literal(input, seq![CLOSE_BRACKET], r),
    {
        let lit: [u8; 1] = [CLOSE_BRACKET];
        proof {
            assert(lit@ =~= seq![CLOSE_BRACKET]);
        }
        literal(input, &lit)
    }
}

/// Finds "![", the opening of a markdown image.
pub struct LeftMarkdownImageBracket;

impl LeftMarkdownImageBracket {
    /// Consumes a `![` at the start of `input`.
    pub fn parse<'a>(&self, input: &'a str) -> (r: Result<(&'a str, &'a str), NoMatch>)
        ensures
            matches_literal(input, seq![BANG, OPEN_BRACKET], r),
    {
        let lit: [u8; 2] = [BANG, OPEN_BRACKET];
        proof {
            assert(lit@ =~= seq![BANG, OPEN_BRACKET]);
        }
        literal(input, &lit)
    }
}

} // verus!
