//! Reusable matchers for bracket and parenthesis pairs, markdown links and
//! markdown images, with scanners that collect every link or every image of a
//! text. Text is handled as its UTF-8 bytes: every delimiter is ASCII, so a match
//! on bytes is a match on characters, and every part handed back is a `str` cut
//! from the input at character boundaries.
pub mod delimiters;
pub mod laws;
pub mod pairs;
pub mod scan;
pub mod text;
pub mod tokens;

pub use delimiters::{
    LeftBracket, LeftMarkdownImageBracket, LeftParens, NoMatch, RightBracket, RightParens,
};
pub use pairs::{
    Brackets, EmptyBracketPair, EmptyMarkdownImageBracketPair, EmptyParensPair,
    MarkdownImageBrackets, NonEmptyBracketPair, NonEmptyMarkdownImageBracketPair,
    NonEmptyParensPair, Parens,
};
pub use scan::{MarkdownImages, MarkdownImagesResults, MarkdownUrls, MarkdownUrlsResults};
pub use tokens::{MarkdownImage, MarkdownImageAltText, MarkdownUrl};
