use numnums::{MarkdownImages, MarkdownUrls};

#[test]
fn recognize_markdown_url_not_image() {
    let input = "here's some other stuff ![image](abcd) here's [some anchor](please find me!) some more stuff";

    let token = MarkdownUrls.parse(input).unwrap();
    let count = token.1.len();

    assert_eq!(count, 1);
}

#[test]
fn links_skip_images() {
    let input = "here's ![image](abcd) here's [some anchor](please find me!) some more stuff";
    let (rest, links) = MarkdownUrls.parse(input).unwrap();
    assert_eq!(links.len(), 1);
    assert_eq!(links[0].1, ("some anchor", "please find me!"));
    assert_eq!(links[0].0, " here's ");
    assert_eq!(rest, " some more stuff");
}

#[test]
fn adjacent_links_in_order() {
    let (rest, links) = MarkdownUrls.parse("[a](b)[c](d)").unwrap();
    assert_eq!(links, vec![("", ("a", "b")), ("", ("c", "d"))]);
    assert_eq!(rest, "");
}

#[test]
fn adjacent_images_in_order() {
    let (rest, images) = MarkdownImages.parse("![a](b)![c](d)").unwrap();
    assert_eq!(images, vec![("a", "b"), ("c", "d")]);
    assert_eq!(rest, "");
}

#[test]
fn links_and_images_part_ways() {
    let input = "x ![pic](p.png) and [site](s.html) then ![](q)";
    let (_, links) = MarkdownUrls.parse(input).unwrap();
    let (rest, images) = MarkdownImages.parse(input).unwrap();
    assert_eq!(links, vec![(" and ", ("site", "s.html"))]);
    assert_eq!(images, vec![("pic", "p.png"), ("", "q")]);
    assert_eq!(rest, "");
}

#[test]
fn no_tokens_gives_empty_lists() {
    let (rest, links) = MarkdownUrls.parse("plain text").unwrap();
    assert!(links.is_empty());
    assert_eq!(rest, "plain text");
    let (rest, images) = MarkdownImages.parse("").unwrap();
    assert!(images.is_empty());
    assert_eq!(rest, "");
}

#[test]
fn failed_candidate_does_not_stop_the_scan() {
    let (rest, links) = MarkdownUrls.parse("[a] [c](d) [e").unwrap();
    assert_eq!(links, vec![("[a] ", ("c", "d"))]);
    assert_eq!(rest, " [e");
    let (_, images) = MarkdownImages.parse("![a] ![c](d)").unwrap();
    assert_eq!(images, vec![("c", "d")]);
}

#[test]
fn rescanning_the_rest_finds_nothing() {
    let input = "[a](b) text ![c](d) [broken(e) tail";
    let (rest, links) = MarkdownUrls.parse(input).unwrap();
    assert_eq!(links.len(), 1);
    let (_, again) = MarkdownUrls.parse(rest).unwrap();
    assert!(again.is_empty());
    let (rest, images) = MarkdownImages.parse(input).unwrap();
    assert_eq!(images.len(), 1);
    let (_, again) = MarkdownImages.parse(rest).unwrap();
    assert!(again.is_empty());
}

#[test]
fn image_inside_a_link_label() {
    let input = "[x ![a](b)";
    let (_, links) = MarkdownUrls.parse(input).unwrap();
    let (_, images) = MarkdownImages.parse(input).unwrap();
    assert_eq!(links, vec![("", ("x ![a", "b"))]);
    assert_eq!(images, vec![("a", "b")]);
}
