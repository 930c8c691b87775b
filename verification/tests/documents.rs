use kamoshi::plugin::posts::{post_script_keys, published};
use kamoshi::text::ruby::{annotate, Annotated};
use comrak::nodes::{NodeHeading, NodeLink, NodeValue};
use kamoshi::md::doc::{cite_requests, page_citations, with_citations, with_headings, with_math_and_links, with_pictures, MdNode};
use kamoshi::md::{cited_keys, citations_for, image_captions, page, parse, BibFile, Citations, MarkdownError, WikiLinkResolver};
use kamoshi::model::MicroblogEntry;
use kamoshi::plugin::intro_html;
use kamoshi::plugin::wiki::garden;
use kamoshi::plugin::twtxt::entry_html;
use kamoshi::time::Timestamp;

fn image_value() -> NodeValue {
    NodeValue::Image(Box::new(NodeLink { url: "pic.png".to_string(), title: String::new() }))
}

fn resolver() -> WikiLinkResolver {
    let hrefs = vec![
        "/wiki/tech/Rust.html".to_string(),
        "/wiki/game/Rust.html".to_string(),
        "/wiki/Kanji.html".to_string(),
    ];
    WikiLinkResolver::from_assets(&hrefs)
}

fn render(text: &str, resolver: Option<&WikiLinkResolver>) -> Result<kamoshi::md::Parsed, MarkdownError> {
    parse(text, resolver, &Vec::new(), None, &comrak::Options::default())
}

#[test]
fn wiki_links_resolve_in_document_order() {
    let r = resolver();
    let parsed = render("See [[Kanji]] and [[tech/Rust]], then [[Kanji]] again.", Some(&r)).unwrap();
    assert_eq!(
        parsed.refs,
        vec!["/wiki/Kanji.html".to_string(), "/wiki/tech/Rust.html".to_string(), "/wiki/Kanji.html".to_string()]
    );
    assert!(parsed.html.contains("href=\"/wiki/tech/Rust.html\""));
    assert!(parsed.html.contains("href=\"/wiki/Kanji.html\""));
}

#[test]
fn first_unresolved_wiki_link_is_the_error() {
    let r = resolver();
    match render("[[Kanji]] [[Missing]] [[Rust]]", Some(&r)) {
        Err(MarkdownError::WikiLinkNotFound(link)) => assert_eq!(link, "Missing"),
        other => panic!("unexpected: {:?}", other.map(|p| p.refs)),
    }
    match render("[[Kanji]] [[Rust]] [[Missing]]", Some(&r)) {
        Err(MarkdownError::WikiLinkAmbiguous(link, hrefs)) => {
            assert_eq!(link, "Rust");
            assert_eq!(hrefs, vec!["/wiki/tech/Rust.html".to_string(), "/wiki/game/Rust.html".to_string()]);
        }
        other => panic!("unexpected: {:?}", other.map(|p| p.refs)),
    }
}

#[test]
fn wiki_links_stay_without_resolver() {
    let parsed = render("A [[Missing]] link.", None).unwrap();
    assert!(parsed.refs.is_empty());
    assert!(parsed.html.contains("href=\"Missing\""));
}

#[test]
fn headings_make_the_outline() {
    let parsed = render("# Hello World\n\ntext\n\n## Hello `World`\n\n# Hello World\n", None).unwrap();
    let outline = &parsed.outline.0;
    assert_eq!(outline.len(), 3);
    assert_eq!(outline[0].title, "Hello World");
    assert_eq!(outline[0].id, "hello-world");
    assert_eq!(outline[1].title, "Hello World");
    assert_eq!(outline[1].id, "hello-world-1");
    assert_eq!(outline[2].id, "hello-world-2");
    assert!(parsed.bibliography.is_none());
}

#[test]
fn heading_html_carries_its_slug() {
    let items = vec![(0usize, MdNode::Heading { level: 2, node: NodeValue::Heading(NodeHeading { level: 2, setext: false, closed: false }) }), (1usize, MdNode::Text("A B".to_string()))];
    let (out, outline) = with_headings(items);
    assert_eq!(out.len(), 1);
    match &out[0] {
        (0, MdNode::HtmlBlock { literal }) => assert_eq!(literal, "<h2 id=\"a-b\">A B</h2>"),
        _ => panic!("heading not replaced"),
    }
    assert_eq!(outline.0[0].title, "A B");
}

#[test]
fn formulas_become_mathml() {
    let items = vec![
        (0usize, MdNode::Math { literal: "x".to_string(), display: false, dollar: true }),
        (0usize, MdNode::Math { literal: "y".to_string(), display: true, dollar: true }),
    ];
    let (out, refs) = with_math_and_links(items, None).unwrap();
    assert!(refs.is_empty());
    match &out[0] {
        (0, MdNode::HtmlInline(h)) => assert!(h.contains("<math") && h.contains("x")),
        _ => panic!("inline math not rendered"),
    }
    match &out[1] {
        (0, MdNode::HtmlBlock { literal, .. }) => assert!(literal.contains("display=\"block\"")),
        _ => panic!("display math not rendered"),
    }
}

#[test]
fn images_on_the_site_are_listed_with_captions() {
    let v = image_captions("![A *cap*](pic.png) and ![x](https://example.com/a.png)\n");
    assert_eq!(v.len(), 1);
    assert_eq!(v[0].0, "pic.png");
    assert_eq!(v[0].1, "A <em>cap</em>");
}

#[test]
fn a_picture_replaces_its_paragraph() {
    let items = vec![
        (0usize, MdNode::Paragraph),
        (1usize, MdNode::Image { url: "pic.png".to_string(), node: image_value() }),
        (2usize, MdNode::Text("cap".to_string())),
        (0usize, MdNode::Paragraph),
        (1usize, MdNode::Text("after".to_string())),
    ];
    let out = with_pictures(items, &vec![Some("<figure>P</figure>".to_string())]);
    assert_eq!(out.len(), 3);
    match &out[0] {
        (0, MdNode::HtmlBlock { literal, .. }) => assert_eq!(literal, "<figure>P</figure>"),
        _ => panic!("paragraph not replaced"),
    }
    let kept = vec![(0usize, MdNode::Image { url: "pic.png".to_string(), node: image_value() })];
    let out = with_pictures(kept, &vec![None]);
    assert!(matches!(&out[0], (0, MdNode::Image { .. })));
}

#[test]
fn citations_replace_cited_keys() {
    assert_eq!(cited_keys("See :cite[knuth] and :cite[nobody].", &Vec::new()), vec!["knuth".to_string(), "nobody".to_string()]);
    let items = vec![
        (1usize, MdNode::Math { literal: "knuth".to_string(), display: false, dollar: false }),
        (1usize, MdNode::Math { literal: "nobody".to_string(), display: false, dollar: false }),
    ];
    let c = Citations {
        keys: vec!["knuth".to_string()],
        cites: vec!["[1]".to_string()],
        bibliography: vec!["Knuth, TAOCP".to_string()],
    };
    let (out, bib) = with_citations(items, Some(&c));
    assert_eq!(bib, Some(vec!["Knuth, TAOCP".to_string()]));
    match &out[0] {
        (1, MdNode::HtmlInline(h)) => assert_eq!(h, "<cite>[1]</cite>"),
        _ => panic!("citation not written"),
    }
    assert!(matches!(&out[1], (1, MdNode::Math { .. })));
    let none = vec![(0usize, MdNode::Text("plain".to_string()))];
    let (_, bib) = with_citations(none, Some(&c));
    assert!(bib.is_none());
}

#[test]
fn annotated_text_is_well_shaped() {
    let parts = annotate("[漢]{かん}[字]{じ} and [x]{y}");
    assert_eq!(parts.len(), 4);
    assert!(matches!(parts[0], Annotated::Ruby("漢", "かん")));
    assert!(matches!(parts[1], Annotated::Ruby("字", "じ")));
    assert!(matches!(parts[2], Annotated::Text(" and ")));
    assert!(matches!(parts[3], Annotated::Ruby("x", "y")));
    for pair in parts.windows(2) {
        assert!(!(matches!(pair[0], Annotated::Text(_)) && matches!(pair[1], Annotated::Text(_))));
    }
}

#[test]
fn post_scripts_in_order() {
    let keys = post_script_keys(Some("posts/foo/main.ts"), &["chart.ts".to_string(), "map.ts".to_string()]);
    assert_eq!(
        keys,
        vec![
            "scripts/outline/main.ts".to_string(),
            "posts/foo/main.ts".to_string(),
            "scripts/chart.ts".to_string(),
            "scripts/map.ts".to_string()
        ]
    );
    assert_eq!(post_script_keys(None, &[]), vec!["scripts/outline/main.ts".to_string()]);
    assert_eq!(published(&[false, true, false, true]), vec![0, 2]);
}

#[test]
fn page_nodes_before_writing() {
    let p = page("# A B\n\nSee $x$ and [漢]{かん}.\n", None, &Vec::new(), None).unwrap();
    match &p.nodes[0] {
        (0, MdNode::HtmlBlock { literal }) => assert_eq!(literal, "<h1 id=\"a-b\">A B</h1>"),
        _ => panic!("heading not replaced"),
    }
    assert!(matches!(&p.nodes[1], (0, MdNode::Paragraph)));
    let inline: Vec<&String> = p.nodes.iter().filter_map(|(_, n)| match n {
        MdNode::HtmlInline(h) => Some(h),
        _ => None,
    }).collect();
    assert_eq!(inline.len(), 2);
    assert!(inline[0].contains("<math"));
    assert_eq!(inline[1], "<ruby>漢<rp>(</rp><rt>かん</rt><rp>)</rp></ruby>");
    assert!(p.refs.is_empty());
    assert!(p.bibliography.is_none());
}

#[test]
fn citations_requested_and_kept() {
    let keys = vec!["knuth".to_string(), "dijkstra".to_string()];
    let literals = vec!["x^2".to_string(), "dijkstra".to_string(), "knuth".to_string(), "dijkstra".to_string()];
    let requests = cite_requests(&keys, &literals);
    assert_eq!(requests, vec!["dijkstra".to_string(), "knuth".to_string(), "dijkstra".to_string()]);
    let written = vec!["[1]".to_string(), "[2]".to_string(), "[1]".to_string(), "[1], [2]".to_string()];
    let c = page_citations(keys.clone(), &requests, written, vec!["D".to_string(), "K".to_string()]);
    assert_eq!(c.cites, vec!["[1]".to_string(), "[2]".to_string(), "[1]".to_string()]);
    assert_eq!(c.keys, keys);
    assert_eq!(c.bibliography, vec!["D".to_string(), "K".to_string()]);
}

const BIB: &str = "@book{knuth,\n  author = {Knuth, Donald E.},\n  title = {The Art of Computer Programming},\n  publisher = {Addison-Wesley},\n  year = {1968},\n}\n\n@article{dijkstra,\n  author = {Dijkstra, Edsger W.},\n  title = {Go To Statement Considered Harmful},\n  journal = {Communications of the ACM},\n  year = {1968},\n}\n";

#[test]
fn citations_written_from_a_bibliography() {
    let bib = BibFile::read(BIB).unwrap();
    let c = citations_for(&bib, &vec!["x^2".to_string(), "knuth".to_string()]);
    assert_eq!(c.keys, vec!["knuth".to_string(), "dijkstra".to_string()]);
    assert_eq!(c.cites.len(), 1);
    assert!(c.cites[0].contains('1'));
    assert_eq!(c.bibliography.len(), 2);
    assert!(c.bibliography.iter().any(|b| b.contains("Knuth")));
    let none = citations_for(&bib, &vec!["x^2".to_string()]);
    assert!(none.cites.is_empty() && none.bibliography.is_empty());
}

#[test]
fn entries_and_intro_in_default_html() {
    let e = MicroblogEntry { date: Timestamp::from_parts(0, 0).unwrap(), text: "*hi*".to_string() };
    assert_eq!(entry_html(&e), "<p><em>hi</em></p>\n");
    assert_eq!(intro_html("# Hello"), "<h1>Hello</h1>\n");
}

#[test]
fn garden_records_known_links_and_paths() {
    let typst = vec!["/wiki/papers/thesis".to_string()];
    let pages = vec![
        ("/wiki/a/b".to_string(), vec!["/wiki/c".to_string(), "/elsewhere".to_string(), "/wiki/c".to_string()]),
        ("/wiki/c".to_string(), vec!["/wiki/a/b".to_string()]),
    ];
    let known = vec!["/wiki/a/b".to_string(), "/wiki/c".to_string(), "/wiki/papers/thesis".to_string()];
    let s = garden(&typst, &pages, &known);
    assert!(s.parents_deepen());
    assert_eq!(s.get_backlinks("/wiki/c").unwrap(), vec!["/wiki/a/b"]);
    assert_eq!(s.get_backlinks("/wiki/a/b").unwrap(), vec!["/wiki/c"]);
    assert!(s.get_backlinks("/elsewhere").is_none());
    let mut kids = s.get_children("/wiki/").unwrap();
    kids.sort();
    assert_eq!(kids, vec!["/wiki/a/", "/wiki/c", "/wiki/papers/"]);
}
