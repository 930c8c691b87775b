use kamoshi::markdown::{render_emoji, try_render_emoji};
use kamoshi::md::inline::{directive_nodes, render_directive_inline, ruby_nodes, Inline};
use kamoshi::md::{heading_slugs, Highlighter, MarkdownError, Outline, WikiLinkResolver};
use kamoshi::text::ruby::{annotate, ruby_html, Annotated};

#[test]
fn shortcodes_become_emoji() {
    assert_eq!(render_emoji("say :smile: now"), Some("say \u{1f604} now".to_string()));
    assert_eq!(render_emoji("a :+1: b :tada:"), Some("a \u{1f44d} b \u{1f389}".to_string()));
}

#[test]
fn text_without_shortcodes_is_unchanged() {
    assert_eq!(render_emoji("plain text"), None);
    assert_eq!(render_emoji("time 10:30 and :nonsense-code:"), None);
    assert_eq!(try_render_emoji("no colons at all"), Ok(None));
}

#[test]
fn a_shortcode_at_the_start_cannot_be_rewritten() {
    assert_eq!(try_render_emoji("smile: here"), Err(()));
    assert_eq!(try_render_emoji(":smile:smile:"), Err(()));
}

#[test]
fn ruby_marks_are_annotated() {
    let parts = annotate("x[漢字]{かんじ}y");
    assert_eq!(parts.len(), 3);
    assert!(matches!(parts[0], Annotated::Text("x")));
    assert!(matches!(parts[1], Annotated::Ruby("漢字", "かんじ")));
    assert!(matches!(parts[2], Annotated::Text("y")));
    let none = annotate("[]{x} and [a]{}");
    assert!(none.iter().all(|p| matches!(p, Annotated::Text(_))));
}

#[test]
fn ruby_html_keeps_a_fallback() {
    assert_eq!(ruby_html("漢字", "かんじ"), "<ruby>漢字<rp>(</rp><rt>かんじ</rt><rp>)</rp></ruby>");
}

#[test]
fn text_nodes_with_ruby_are_split() {
    let nodes = ruby_nodes("a[b]{c}").unwrap();
    assert_eq!(nodes.len(), 2);
    assert!(matches!(&nodes[0], Inline::Text(t) if t == "a"));
    assert!(matches!(&nodes[1], Inline::HtmlInline(h) if h == "<ruby>b<rp>(</rp><rt>c</rt><rp>)</rp></ruby>"));
    assert!(ruby_nodes("no marks").is_none());
}

#[test]
fn inline_directives_render() {
    assert!(matches!(render_directive_inline("icon", "/i.svg"), Inline::HtmlInline(h) if h == "<img class=\"inline-icon\" src=\"/i.svg\">"));
    assert!(matches!(render_directive_inline("cite", "key"), Inline::Math(m) if m == "key"));
    assert!(matches!(render_directive_inline("other", "c"), Inline::Text(t) if t == ":other[c]"));
    let nodes = directive_nodes("see :cite[knuth] here").unwrap();
    assert_eq!(nodes.len(), 3);
    assert!(matches!(&nodes[1], Inline::Math(m) if m == "knuth"));
    assert!(directive_nodes("no directive: here").is_none());
}

#[test]
fn heading_ids_are_unique() {
    let texts = vec!["Intro".to_string(), "Big Idea".to_string(), "intro".to_string(), "Intro".to_string()];
    assert_eq!(heading_slugs(&texts), vec!["intro", "big-idea", "intro-1", "intro-2"]);
}

#[test]
fn outline_nests_deeper_headings() {
    let flat = vec![
        ("A".to_string(), "a".to_string(), 2),
        ("A1".to_string(), "a1".to_string(), 3),
        ("A1x".to_string(), "a1x".to_string(), 4),
        ("B".to_string(), "b".to_string(), 2),
    ];
    let Outline(top) = Outline::from_headings(flat);
    assert_eq!(top.len(), 2);
    assert_eq!(top[0].title, "A");
    assert_eq!(top[0].children.len(), 1);
    assert_eq!(top[0].children[0].id, "a1");
    assert_eq!(top[0].children[0].children[0].title, "A1x");
    assert!(top[1].children.is_empty());
}

#[test]
fn wiki_links_resolve_by_stem_and_path() {
    let hrefs = vec![
        "/wiki/tech/Rust.html".to_string(),
        "/wiki/game/Rust.html".to_string(),
        "/wiki/Haskell.html".to_string(),
    ];
    let r = WikiLinkResolver::from_assets(&hrefs);
    assert_eq!(r.resolve("tech/Rust").unwrap(), "/wiki/tech/Rust.html");
    assert_eq!(r.resolve("Haskell").unwrap(), "/wiki/Haskell.html");
    assert!(matches!(r.resolve("haskell"), Err(MarkdownError::WikiLinkNotFound(_))));
    match r.resolve("Rust") {
        Err(MarkdownError::WikiLinkAmbiguous(l, found)) => {
            assert_eq!(l, "Rust");
            assert_eq!(found, vec!["/wiki/tech/Rust.html".to_string(), "/wiki/game/Rust.html".to_string()]);
        }
        other => panic!("unexpected {other:?}"),
    }
    match r.resolve("Python") {
        Err(MarkdownError::WikiLinkNotFound(l)) => assert_eq!(l, "Python"),
        other => panic!("unexpected {other:?}"),
    }
    let mut empty = WikiLinkResolver::new();
    empty.add("/wiki/Go.html");
    assert_eq!(empty.resolve("Go").unwrap(), "/wiki/Go.html");
}

#[test]
fn code_blocks_default_to_plain_text() {
    assert_eq!(Highlighter::language(Some("rust")), "rust");
    assert_eq!(Highlighter::language(None), "text");
}

#[test]
fn colons_are_needed_for_emoji() {
    assert_eq!(try_render_emoji("smile tada"), Ok(None));
    assert_eq!(render_emoji(""), None);
}
