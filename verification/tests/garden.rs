use kamoshi::datalog::Datalog;
use kamoshi::plugin::wiki::{
    add_hierarchy, add_known_links, build_tree_nodes, normalize, parent_chain, tail_name,
    typst_href, typst_title, wiki_backlinks,
};

fn sorted<'a>(mut v: Vec<&'a str>) -> Vec<&'a str> {
    v.sort();
    v
}

#[test]
fn directories_end_with_a_slash() {
    assert_eq!(normalize("/wiki"), "/wiki/");
    assert_eq!(normalize("/wiki/"), "/wiki/");
    assert_eq!(normalize("/"), "/");
}

#[test]
fn chain_climbs_to_the_root() {
    let chain = parent_chain("/wiki/a/b");
    let expected = vec![
        ("/wiki/a/".to_string(), "/wiki/a/b".to_string()),
        ("/wiki/".to_string(), "/wiki/a/".to_string()),
        ("/".to_string(), "/wiki/".to_string()),
    ];
    assert_eq!(chain, expected);
    assert!(parent_chain("/").is_empty());
    assert!(parent_chain("top").is_empty());
}

#[test]
fn links_and_backlinks() {
    let mut d = Datalog::new();
    d.add_link("/a", "/b");
    d.add_link("/c", "/b");
    d.add_link("/a", "/c");
    d.add_link("/a", "/b");
    let s = d.solve();
    assert_eq!(sorted(s.get_backlinks("/b").unwrap()), vec!["/a", "/c"]);
    assert_eq!(s.get_backlinks("/c").unwrap(), vec!["/a"]);
    assert!(s.get_backlinks("/a").is_none());
    assert!(s.get_backlinks("/nowhere").is_none());
}

#[test]
fn co_citations_count_common_sources() {
    let mut d = Datalog::new();
    d.add_link("/w1", "/a");
    d.add_link("/w1", "/b");
    d.add_link("/w2", "/a");
    d.add_link("/w2", "/b");
    d.add_link("/w2", "/c");
    let s = d.solve();
    let mut co = s.get_co_citations("/a").unwrap();
    co.sort();
    assert_eq!(co, vec![("/b", 2), ("/c", 1)]);
    let mut back = s.get_co_citations("/c").unwrap();
    back.sort();
    assert_eq!(back, vec![("/a", 1), ("/b", 1)]);
    assert!(s.get_co_citations("/w1").is_none());
}

#[test]
fn hierarchy_gives_parents_and_children() {
    let mut d = Datalog::new();
    add_hierarchy(&mut d, "/wiki/a/b");
    add_hierarchy(&mut d, "/wiki/c");
    let s = d.solve();
    assert_eq!(s.get_parent("/wiki/a/b"), Some("/wiki/a/"));
    assert_eq!(s.get_parent("/wiki/"), Some("/"));
    assert_eq!(s.get_parent("/"), None);
    assert_eq!(sorted(s.get_children("/wiki/").unwrap()), vec!["/wiki/a/", "/wiki/c"]);
    assert!(s.get_children("/wiki/c").is_none());
}

#[test]
fn only_links_to_known_pages_are_kept() {
    let mut d = Datalog::new();
    let refs = vec!["/wiki/x".to_string(), "/elsewhere".to_string(), "/wiki/y".to_string()];
    let known = vec!["/wiki/x".to_string(), "/wiki/y".to_string()];
    add_known_links(&mut d, "/wiki/a", &refs, &known);
    let s = d.solve();
    assert_eq!(s.get_backlinks("/wiki/x").unwrap(), vec!["/wiki/a"]);
    assert_eq!(s.get_backlinks("/wiki/y").unwrap(), vec!["/wiki/a"]);
    assert!(s.get_backlinks("/elsewhere").is_none());
}

#[test]
fn the_tree_opens_towards_the_active_page() {
    let mut d = Datalog::new();
    add_hierarchy(&mut d, "/wiki/a/b");
    add_hierarchy(&mut d, "/wiki/c");
    let s = d.solve();
    let resolved = vec![
        ("/wiki/a/b".to_string(), "B".to_string()),
        ("/wiki/c".to_string(), "C".to_string()),
    ];
    let tree = build_tree_nodes("/wiki/a/b", "/", &resolved, &s);
    assert_eq!(tree.len(), 1);
    let wiki = &tree[0];
    assert_eq!((wiki.href.as_str(), wiki.name.as_str(), wiki.is_link, wiki.is_current), ("/wiki/", "wiki", false, false));
    assert_eq!(wiki.children.len(), 2);
    let a = &wiki.children[0];
    assert_eq!((a.href.as_str(), a.name.as_str(), a.is_link), ("/wiki/a/", "a", false));
    assert_eq!(a.children.len(), 1);
    let b = &a.children[0];
    assert_eq!((b.href.as_str(), b.name.as_str(), b.is_link, b.is_current), ("/wiki/a/b", "B", true, true));
    assert!(b.children.is_empty());
    let c = &wiki.children[1];
    assert_eq!((c.href.as_str(), c.name.as_str(), c.is_link, c.is_current), ("/wiki/c", "C", true, false));
    assert!(c.children.is_empty());
}

#[test]
fn a_leaf_without_children_is_empty() {
    let d = Datalog::new();
    let s = d.solve();
    let tree = build_tree_nodes("/x", "/", &[], &s);
    assert!(tree.is_empty());
}

#[test]
fn names_come_from_the_last_segment() {
    assert_eq!(tail_name("/wiki/some/dir//"), "dir");
    assert_eq!(tail_name("plain"), "plain");
    assert_eq!(tail_name("/"), "");
}

#[test]
fn backlinks_show_markdown_pages_only() {
    let docs = vec![
        ("/wiki/a".to_string(), "Page A".to_string(), true),
        ("/wiki/pdf".to_string(), "pdf.typ".to_string(), false),
    ];
    let shown = wiki_backlinks(Some(vec!["/wiki/a", "/wiki/pdf", "/missing"]), &docs).unwrap();
    assert_eq!(shown.len(), 1);
    assert_eq!(shown[0].href, "/wiki/a");
    assert_eq!(shown[0].title, "Page A");
    assert!(wiki_backlinks(None, &docs).is_none());
}

#[test]
fn typst_files_become_pages_under_the_root() {
    assert_eq!(typst_href("content/wiki/notes/x.typ"), Some("/wiki/notes/x".to_string()));
    assert_eq!(typst_href("elsewhere/x.typ"), None);
    assert_eq!(typst_title("content/wiki/notes/x.typ"), Some("x.typ".to_string()));
}

#[test]
fn every_recorded_parent_is_a_directory() {
    for href in ["/wiki/a/b/c", "/wiki/x/", "rel/path"] {
        let chain = parent_chain(href);
        for (k, (parent, child)) in chain.iter().enumerate() {
            assert!(parent.ends_with('/'));
            if k == 0 {
                assert_eq!(child, href);
            } else {
                assert_eq!(child, &chain[k - 1].0);
            }
        }
    }
}

#[test]
fn path_hierarchies_deepen_and_cycles_do_not() {
    let mut d = Datalog::new();
    add_hierarchy(&mut d, "/wiki/a/b");
    assert!(d.solve().parents_deepen());
    let mut bad = Datalog::new();
    bad.add_parent("/wiki/a/", "/wiki/");
    assert!(!bad.solve().parents_deepen());
}
