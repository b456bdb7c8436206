use docula::markdown::link::{find_links, try_find_links, ContentType, FoundLink, LinkType};
use url::Url;

#[test]
fn single_hyperlink() {
    let expected = vec![FoundLink {
        start: 13,
        end: 35,
        link: LinkType::Url(Url::parse("https://bar.com").unwrap()),
        content: ContentType::HyperLink("foo"),
    }];
    assert_eq!(expected, find_links("Hello, world [foo](https://bar.com)"));
}

#[test]
fn single_imagelink() {
    let expected = vec![FoundLink {
        start: 26,
        end: 64,
        link: LinkType::Url(Url::parse("https://imgy.io/image.png").unwrap()),
        content: ContentType::Image("Alt text"),
    }];
    assert_eq!(
        expected,
        find_links("Hey, this image is great! ![Alt text](https://imgy.io/image.png) Cool!")
    );
}

#[test]
fn links_on_separate_lines() {
    let found = find_links("[a](https://a.org)\n[b](https://b.org)");
    assert_eq!(found.len(), 2);
    assert_eq!(found[1].start, 19);
    assert_eq!(found[1].content, ContentType::HyperLink("b"));
}

#[test]
fn greedy_text_takes_both_links_on_one_line() {
    let found = find_links("[a](https://a.org) [b](https://b.org)");
    assert_eq!(found.len(), 1);
    assert_eq!(found[0].content, ContentType::HyperLink("a](https://a.org) [b"));
    assert_eq!(found[0].end, 37);
}

#[test]
fn target_that_is_not_a_url() {
    assert!(try_find_links("see [x](not a url)").is_none());
    assert_eq!(try_find_links("no links here").unwrap().len(), 0);
    assert_eq!(try_find_links("[x](https://x.io)").unwrap().len(), 1);
}

#[test]
fn link_offsets_are_bytes() {
    let text = "Ünï [a](https://a.org)";
    let found = find_links(text);
    assert_eq!(found[0].start, text.find('[').unwrap());
    assert_eq!(found[0].start, 6);
    assert_eq!(found[0].end, text.len());
}
