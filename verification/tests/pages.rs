use kamoshi::gen::{to_source, FileItemKind};
use kamoshi::plugin::posts::{post_meta, post_updated};
use kamoshi::plugin::projects::{constellations, project_tiles, ProjectView};
use kamoshi::plugin::slides::{assemble_slides, slide_sources, split_on};
use kamoshi::rss::{feed_path, section_url, site_url};
use kamoshi::time::Timestamp;

#[test]
fn slides_are_cut_into_stacks() {
    let stacks = slide_sources("a\n---\nb\n-----\nc");
    assert_eq!(stacks, vec![vec!["a".to_string(), "b".to_string()], vec!["c".to_string()]]);
    let html = assemble_slides(&[vec!["A".to_string(), "B".to_string()], vec!["C".to_string()]]);
    assert_eq!(html, "<section><section>A</section><section>B</section></section><section><section>C</section></section>");
}

#[test]
fn splitting_and_joining_gives_the_text_back() {
    let text = "x--y----z--";
    let pieces = split_on(text, "--");
    assert_eq!(pieces, vec!["x", "y", "", "z", ""]);
    assert_eq!(pieces.join("--"), text);
    assert_eq!(split_on("", "--"), vec![""]);
    assert_eq!(split_on("aaa", "aa"), vec!["", "a"]);
}

#[test]
fn feed_links_are_absolute() {
    assert_eq!(site_url("/posts/hello/"), "https://kamoshi.org/posts/hello/");
    assert_eq!(site_url("slides/x"), "https://kamoshi.org/slides/x");
    assert_eq!(feed_path("posts"), "posts/rss.xml");
    assert_eq!(section_url("posts"), "https://kamoshi.org/posts");
}

#[test]
fn sources_are_pages_by_extension() {
    let exts = vec!["md".to_string(), "lhs".to_string()];
    let page = to_source("content/posts/a.md".to_string(), &exts);
    assert!(matches!(page.kind, FileItemKind::Index));
    assert_eq!(page.path, "content/posts/a.md");
    assert!(matches!(to_source("content/img.png".to_string(), &exts).kind, FileItemKind::Bundle));
    assert!(matches!(to_source("content/README".to_string(), &exts).kind, FileItemKind::Bundle));
}

#[test]
fn projects_are_ordered_by_title() {
    let p = |title: &str, link: &str| ProjectView {
        title: title.to_string(),
        tech: vec!["Rust".to_string()],
        link: link.to_string(),
        desc: None,
    };
    let tiles = project_tiles(&[p("Zeta", "https://example.org"), p("Alpha", "/projects/alpha/")]);
    assert_eq!(tiles.len(), 2);
    assert_eq!(tiles[0].title, "Alpha");
    assert!(!tiles[0].external);
    assert_eq!(tiles[1].title, "Zeta");
    assert!(tiles[1].external);
    assert_eq!(tiles[1].tech, vec!["Rust".to_string()]);
}

#[test]
fn constellations_link_to_their_directory() {
    let v = constellations("projects/radicals/index.html").unwrap();
    assert_eq!(v.title, "Constellations");
    assert_eq!(v.link, "/projects/radicals");
    assert_eq!(v.tech, vec!["Svelte".to_string(), "TypeScript".to_string()]);
}

#[test]
fn post_panel_shows_dates_and_tags() {
    let date = Timestamp::from_parts(1709798400, 0).unwrap();
    let commit = Timestamp::from_parts(1719792000, 0).unwrap();
    let updated = post_updated(&commit, "abc1234", "https://codeberg.org/kamov/kamoshi.org/src/commit");
    assert_eq!(updated.date, "2024, July 01");
    assert_eq!(updated.date_iso, "2024-07-01");
    assert_eq!(updated.hash_url, "https://codeberg.org/kamov/kamoshi.org/src/commit/abc1234");
    let meta = post_meta(&date, Some(updated), &["a".to_string(), "b".to_string()]);
    assert_eq!(meta.date_added, "2024, March 07");
    assert_eq!(meta.date_added_iso, "2024-03-07");
    assert_eq!(meta.tags, vec!["a".to_string(), "b".to_string()]);
    assert!(meta.updated.is_some());
}

use kamoshi::plugin::radicals::{clean_components, ids_line, is_ids_operator, radical_components};
use kamoshi::plugin::twtxt::text_lines;

#[test]
fn ids_operators_are_structure_only() {
    assert!(is_ids_operator('\u{2ff0}'));
    assert!(is_ids_operator('\u{2ffb}'));
    assert!(!is_ids_operator('\u{2ffc}'));
    assert!(!is_ids_operator('木'));
}

#[test]
fn components_drop_operators_markers_and_tags() {
    assert_eq!(clean_components("^⿰木木$(GJ)"), vec!["木", "木"]);
    assert_eq!(clean_components("⿱日(X)月"), vec!["日"]);
    assert_eq!(clean_components(""), Vec::<String>::new());
}

#[test]
fn japanese_sequence_is_preferred() {
    let known = ['林', '明'];
    let line = "U+6797\t林\t⿰木木(G)\t⿱木木(J)";
    assert_eq!(ids_line(line, &known), Some(("林".to_string(), vec!["木".to_string(), "木".to_string()])));
    let plain = "U+660E\t明\t⿰日月";
    assert_eq!(ids_line(plain, &known), Some(("明".to_string(), vec!["日".to_string(), "月".to_string()])));
}

#[test]
fn other_lines_are_skipped() {
    let known = ['林'];
    assert_eq!(ids_line("# comment\t林\t⿰木木", &known), None);
    assert_eq!(ids_line("", &known), None);
    assert_eq!(ids_line("U+6797\t林", &known), None);
    assert_eq!(ids_line("U+660E\t明\t⿰日月", &known), None);
    assert_eq!(ids_line("U+0000\t林林\t⿰木木", &known), None);
}

#[test]
fn later_lines_replace_earlier_ones() {
    let known = ['林', '明'];
    let text = "U+6797\t林\t⿰木木\n# note\nU+660E\t明\t⿰日月\nU+6797\t林\t⿰未未(J)\n";
    let mut map = radical_components(text, &known);
    map.sort();
    assert_eq!(
        map,
        vec![
            ("明".to_string(), vec!["日".to_string(), "月".to_string()]),
            ("林".to_string(), vec!["未".to_string(), "未".to_string()]),
        ]
    );
}

#[test]
fn text_lines_follow_str_lines() {
    assert_eq!(text_lines("a\r\nb\n\nc"), vec!["a", "b", "", "c"]);
    assert_eq!(text_lines("a\n"), vec!["a"]);
    assert_eq!(text_lines("\n"), vec![""]);
}

use kamoshi::md::is_external_url;
use kamoshi::ts::{annotation_close_tag, hover_placement_attr, ranges_overlap, TextRange};

#[test]
fn ranges_overlap_only_when_sharing_an_offset() {
    let r = |start, end| TextRange { start, end };
    assert!(ranges_overlap(r(0, 5), r(4, 8)));
    assert!(!ranges_overlap(r(0, 4), r(4, 8)));
    assert!(ranges_overlap(r(3, 3), r(0, 8)));
}

#[test]
fn annotation_elements_close_by_kind() {
    assert_eq!(annotation_close_tag(true), "</a>");
    assert_eq!(annotation_close_tag(false), "</span>");
}

#[test]
fn hover_cards_open_away_from_the_edge() {
    let line = "let x = 1;";
    assert_eq!(hover_placement_attr(line, TextRange { start: 0, end: 3 }), " data-hern-placement=\"right\"");
    assert_eq!(hover_placement_attr(line, TextRange { start: 8, end: 9 }), " data-hern-placement=\"left\"");
    let block = "fn f() {\n    g();\n}";
    assert_eq!(hover_placement_attr(block, TextRange { start: 3, end: 4 }), " data-hern-placement=\"bottom\"");
    assert_eq!(hover_placement_attr(block, TextRange { start: 13, end: 14 }), "");
}

#[test]
fn images_from_other_sites_are_left_alone() {
    assert!(is_external_url("https://example.org/a.png"));
    assert!(!is_external_url("./a.png"));
    assert!(!is_external_url("a:/b"));
}
