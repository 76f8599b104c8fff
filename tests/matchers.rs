use numnums::{
    Brackets, EmptyBracketPair, EmptyMarkdownImageBracketPair, EmptyParensPair, LeftBracket,
    LeftMarkdownImageBracket, LeftParens, MarkdownImage, MarkdownImageAltText,
    MarkdownImageBrackets, MarkdownUrl, NoMatch, NonEmptyBracketPair,
    NonEmptyMarkdownImageBracketPair, NonEmptyParensPair, Parens, RightBracket, RightParens,
};

/// The part of `input` that a matcher consumed, given the rest it left.
fn consumed<'a>(input: &'a str, rest: &'a str) -> &'a str {
    &input[..input.len() - rest.len()]
}

#[test]
fn recognize_markdown_image_alt_text_sentence() {
    let input = "![I am a great description.  Thanks for reading me!](https://www.google.com)";

    let token = MarkdownImageAltText.parse(input).unwrap();

    assert_eq!(token.0, "https://www.google.com");

    assert_eq!(
        token.1,
        vec![
            "I",
            "am",
            "a",
            "great",
            "description.",
            "Thanks",
            "for",
            "reading",
            "me!"
        ]
    );

    assert_eq!(token.1.len(), 9);
}

#[test]
fn recognize_markdown_image_alt_text_words() {
    let input = "![word word  word](some_url)";

    let token = MarkdownImageAltText.parse(input).unwrap();

    assert_eq!(token.1, vec!["word", "word", "word"]);
}

#[test]
fn recognize_markdown_image() {
    let input = "![image](abcd)";
    let (rest, _) = MarkdownImage.parse(input).unwrap();
    assert_eq!((rest, consumed(input, rest)), ("", "![image](abcd)"));

    let input = "![image word](abcd)";
    let (rest, _) = MarkdownImage.parse(input).unwrap();
    assert_eq!((rest, consumed(input, rest)), ("", "![image word](abcd)"));
}

#[test]
fn recognize_markdown_url() {
    let input = "[image](abcd)";
    let (rest, _) = MarkdownUrl.parse(input).unwrap();
    assert_eq!((rest, consumed(input, rest)), ("", "[image](abcd)"));
}

#[test]
fn recognize_non_empty_markdown_image_brackets() {
    let input = "![abcd]";
    let (rest, _) = NonEmptyMarkdownImageBracketPair.parse(input).unwrap();
    assert_eq!((rest, consumed(input, rest)), ("", "![abcd]"));
}

#[test]
fn recognize_non_empty_parens() {
    let input = "(abcd)";
    let (rest, _) = NonEmptyParensPair.parse(input).unwrap();
    assert_eq!((rest, consumed(input, rest)), ("", "(abcd)"));
}

#[test]
fn recognize_empty_value() {
    let input = "[]asdf[]";
    let (rest, _) = EmptyBracketPair.parse(input).unwrap();
    assert_eq!((rest, consumed(input, rest)), ("asdf[]", "[]"));
}

#[test]
fn empty_value() {
    let input = "[]";
    let (after, open) = LeftBracket.parse(input).unwrap();
    let (rest, _) = RightBracket.parse(after).unwrap();
    assert_eq!((rest, open), ("", "["));
}

#[test]
fn bracketed_value() {
    let input = "[abc]";
    let token = NonEmptyBracketPair.parse(input).unwrap();
    assert_eq!(token, ("", "abc"));
}

#[test]
fn brackets_empty_full_and_unclosed() {
    assert_eq!(Brackets.parse("[]"), Ok(("", "")));
    assert_eq!(Brackets.parse("[abc]"), Ok(("", "abc")));
    assert_eq!(Brackets.parse("[abc"), Err(NoMatch));
}

#[test]
fn parens_with_content() {
    assert_eq!(Parens.parse("(abcd)"), Ok(("", "abcd")));
    assert_eq!(Parens.parse("()x"), Ok(("x", "")));
    assert_eq!(Parens.parse("x()"), Err(NoMatch));
    assert_eq!(Parens.parse(""), Err(NoMatch));
}

#[test]
fn first_closing_delimiter_ends_a_pair() {
    assert_eq!(Parens.parse("(a(b)c)"), Ok(("c)", "a(b")));
    assert_eq!(Brackets.parse("[[x]]"), Ok(("]", "[x")));
}

#[test]
fn single_delimiters() {
    assert_eq!(LeftParens.parse("(x"), Ok(("x", "(")));
    assert_eq!(LeftParens.parse(")x"), Err(NoMatch));
    assert_eq!(RightParens.parse(")x"), Ok(("x", ")")));
    assert_eq!(RightParens.parse(""), Err(NoMatch));
    assert_eq!(LeftBracket.parse("]"), Err(NoMatch));
    assert_eq!(RightBracket.parse("]]"), Ok(("]", "]")));
    assert_eq!(LeftMarkdownImageBracket.parse("![a"), Ok(("a", "![")));
    assert_eq!(LeftMarkdownImageBracket.parse("!a["), Err(NoMatch));
    assert_eq!(LeftMarkdownImageBracket.parse("!"), Err(NoMatch));
}

#[test]
fn empty_and_non_empty_pairs_exclude_each_other() {
    assert_eq!(EmptyParensPair.parse("()"), Ok(("", "")));
    assert_eq!(EmptyParensPair.parse("(a)"), Err(NoMatch));
    assert_eq!(NonEmptyParensPair.parse("()"), Err(NoMatch));
    assert_eq!(NonEmptyParensPair.parse("(a"), Err(NoMatch));
    assert_eq!(NonEmptyBracketPair.parse("[]"), Err(NoMatch));
    assert_eq!(EmptyMarkdownImageBracketPair.parse("![]z"), Ok(("z", "")));
    assert_eq!(EmptyMarkdownImageBracketPair.parse("![a]"), Err(NoMatch));
    assert_eq!(NonEmptyMarkdownImageBracketPair.parse("![]"), Err(NoMatch));
}

#[test]
fn image_brackets_either_way() {
    assert_eq!(MarkdownImageBrackets.parse("![]"), Ok(("", "")));
    assert_eq!(MarkdownImageBrackets.parse("![alt] x"), Ok((" x", "alt")));
    assert_eq!(MarkdownImageBrackets.parse("[alt]"), Err(NoMatch));
}

#[test]
fn link_and_image_parts() {
    assert_eq!(MarkdownUrl.parse("[label](url) tail"), Ok((" tail", ("label", "url"))));
    assert_eq!(MarkdownUrl.parse("[](x)"), Ok(("", ("", "x"))));
    assert_eq!(MarkdownUrl.parse("[a] (b)"), Err(NoMatch));
    assert_eq!(MarkdownUrl.parse("[a](b"), Err(NoMatch));
    assert_eq!(MarkdownImage.parse("![alt](u)!"), Ok(("!", ("alt", "u"))));
    assert_eq!(MarkdownImage.parse("[alt](u)"), Err(NoMatch));
}

#[test]
fn alt_words_of_short_sentence() {
    let (url, words) = MarkdownImageAltText.parse("![I am great.  Thanks!](https://x)").unwrap();
    assert_eq!(url, "https://x");
    assert_eq!(words, vec!["I", "am", "great.", "Thanks!"]);
    assert_eq!(words.len(), 4);
}

#[test]
fn alt_words_of_empty_alt_text() {
    let input = format!("{}{}{}", "![](", "u", ")");
    let (url, words) = MarkdownImageAltText.parse(&input).unwrap();
    assert_eq!(url, "u");
    assert!(words.is_empty());
}

#[test]
fn alt_words_trim_every_kind_of_whitespace() {
    let (_, words) = MarkdownImageAltText.parse("![ \t a\nb\r\x0cc  ](u)").unwrap();
    assert_eq!(words, vec!["a", "b", "c"]);
    let (_, words) = MarkdownImageAltText.parse("![   ](u)").unwrap();
    assert!(words.is_empty());
    assert_eq!(MarkdownImageAltText.parse("[a b](u)"), Err(NoMatch));
}

#[test]
fn non_ascii_text_is_cut_at_characters() {
    assert_eq!(Brackets.parse("[é ü]ñ"), Ok(("ñ", "é ü")));
    let (url, words) = MarkdownImageAltText.parse("![größe  maß](ü)").unwrap();
    assert_eq!(url, "ü");
    assert_eq!(words, vec!["größe", "maß"]);
}
