use kamoshi::model::{Link, LinkDate, Post, PostDoc};
use kamoshi::plugin::tags::{group, tag_cloud_entries, tag_map, tag_page_path};
use kamoshi::plugin::{list_groups, list_item, make_home_footer, make_nav_items, make_props_footer};
use kamoshi::time::Timestamp;

fn link(path: &str, secs: i64) -> LinkDate {
    LinkDate {
        link: Link { path: path.to_string(), name: format!("name of {path}"), desc: None },
        date: Timestamp::from_parts(secs, 0).unwrap(),
    }
}

fn post(href: &str, secs: i64, draft: bool, tags: &[&str]) -> PostDoc {
    PostDoc {
        href: href.to_string(),
        matter: Post {
            title: format!("title of {href}"),
            draft,
            date: Timestamp::from_parts(secs, 0).unwrap(),
            desc: Some("d".to_string()),
            tags: tags.iter().map(|t| t.to_string()).collect(),
            scripts: None,
        },
    }
}

#[test]
fn links_are_grouped_by_year_newest_first() {
    let links = vec![
        link("/a", 1686830400), // 2023-06-15
        link("/b", 1709798400), // 2024-03-07
        link("/c", 1704067199), // 2023-12-31
        link("/d", 1719792000), // 2024-07-01
    ];
    let groups = group(&links);
    assert_eq!(groups.len(), 2);
    assert_eq!(groups[0].0, 2024);
    let paths: Vec<&str> = groups[0].1.iter().map(|l| l.link.path.as_str()).collect();
    assert_eq!(paths, vec!["/d", "/b"]);
    assert_eq!(groups[1].0, 2023);
    let paths: Vec<&str> = groups[1].1.iter().map(|l| l.link.path.as_str()).collect();
    assert_eq!(paths, vec!["/c", "/a"]);
}

#[test]
fn links_of_the_same_instant_keep_their_order() {
    let links = vec![link("/x", 1704067200), link("/y", 1704067200), link("/z", 1704067200)];
    let groups = group(&links);
    assert_eq!(groups.len(), 1);
    let paths: Vec<&str> = groups[0].1.iter().map(|l| l.link.path.as_str()).collect();
    assert_eq!(paths, vec!["/x", "/y", "/z"]);
}

#[test]
fn no_links_make_no_groups() {
    let links: Vec<LinkDate> = vec![];
    assert!(group(&links).is_empty());
}

#[test]
fn list_lines_show_date_and_link() {
    let l = link("/posts/x/", 1709798400);
    let item = list_item(&l);
    assert_eq!(item.path, "/posts/x/");
    assert_eq!(item.name, "name of /posts/x/");
    assert_eq!(item.desc, None);
    assert_eq!(item.date, "03/07");
    assert_eq!(item.date_iso, "2024-03-07T08:00:00+00:00");
    let links = vec![l, link("/old", 1686830400)];
    let groups = list_groups(&group(&links));
    assert_eq!(groups.len(), 2);
    assert_eq!(groups[0].year, 2024);
    assert_eq!(groups[1].year, 2023);
    assert_eq!(groups[1].items[0].path, "/old");
    assert_eq!(groups[1].items[0].date, "06/15");
}

#[test]
fn tags_index_published_posts() {
    let posts = vec![
        post("/posts/a/", 1704067200, false, &["rust", "Go"]),
        post("/posts/b/", 1706745600, false, &["rust"]),
        post("/posts/c/", 1709798400, true, &["draft"]),
    ];
    let m = tag_map(&posts);
    let keys: Vec<&str> = m.iter().map(|(k, _)| k.as_str()).collect();
    assert_eq!(keys, vec!["Go", "rust"]);
    assert_eq!(m[0].1.len(), 1);
    assert_eq!(m[0].1[0].link.path, "/posts/a/");
    assert_eq!(m[1].1.len(), 2);
    assert_eq!(m[1].1[0].link.path, "/posts/a/");
    assert_eq!(m[1].1[1].link.path, "/posts/b/");
    assert_eq!(m[1].1[1].link.name, "title of /posts/b/");
    assert_eq!(m[1].1[1].link.desc, Some("d".to_string()));
}

#[test]
fn a_tag_given_twice_lists_the_post_twice() {
    let posts = vec![post("/p/", 0, false, &["x", "x"])];
    let m = tag_map(&posts);
    assert_eq!(m.len(), 1);
    assert_eq!(m[0].1.len(), 2);
}

#[test]
fn tag_cloud_ignores_case_when_ordering() {
    let posts = vec![
        post("/a/", 0, false, &["beta", "Alpha", "alpha", "Gamma"]),
        post("/b/", 0, false, &["alpha"]),
    ];
    let m = tag_map(&posts);
    let keys: Vec<&str> = m.iter().map(|(k, _)| k.as_str()).collect();
    assert_eq!(keys, vec!["Alpha", "Gamma", "alpha", "beta"]);
    let cloud = tag_cloud_entries(&m);
    let shown: Vec<(&str, usize)> = cloud.iter().map(|e| (e.tag.as_str(), e.count)).collect();
    assert_eq!(shown, vec![("Alpha", 1), ("alpha", 2), ("beta", 1), ("Gamma", 1)]);
}

#[test]
fn tag_pages_have_their_own_directory() {
    assert_eq!(tag_page_path("rust"), "tags/rust/index.html");
}

#[test]
fn navigation_lists_the_sections() {
    let items = make_nav_items();
    assert_eq!(items.len(), 8);
    assert_eq!((items[0].stamp, items[0].name, items[0].url), ("綴", "Posts", "/posts/"));
    assert_eq!((items[3].stamp, items[3].name, items[3].url), ("葉", "Garden", "/wiki/"));
    assert_eq!((items[7].stamp, items[7].name, items[7].url), ("索", "Search", "/search/"));
}

#[test]
fn footer_links_the_commit() {
    let f = make_props_footer(
        2024,
        "https://codeberg.org/kamov/kamoshi.org/src/commit/",
        "0123456789abcdef",
        "2024/03/07 10:00",
    );
    assert_eq!(f.year, 2024);
    assert_eq!(f.repo_link, "https://codeberg.org/kamov/kamoshi.org/src/commit/0123456789abcdef");
    assert_eq!(f.hash_short, "0123456");
    assert_eq!(f.date, "2024/03/07 10:00");
    let home = make_home_footer(2024, "https://codeberg.org/kamov/kamoshi.org", "0123456789", "d");
    assert_eq!(home.repo_link, "https://codeberg.org/kamov/kamoshi.org/tree/0123456789");
    assert_eq!(home.hash_short, "0123456");
}

#[test]
fn published_posts_appear_under_each_tag_and_drafts_nowhere() {
    let posts = vec![
        post("/p1/", 0, false, &["a", "b"]),
        post("/p2/", 0, true, &["a"]),
        post("/p3/", 0, false, &["b"]),
    ];
    let m = tag_map(&posts);
    for (tag, links) in &m {
        for l in links {
            assert_ne!(l.link.path, "/p2/", "draft listed under {tag}");
        }
    }
    let a = m.iter().find(|(t, _)| t == "a").unwrap();
    assert_eq!(a.1.len(), 1);
    let b = m.iter().find(|(t, _)| t == "b").unwrap();
    let paths: Vec<&str> = b.1.iter().map(|l| l.link.path.as_str()).collect();
    assert_eq!(paths, vec!["/p1/", "/p3/"]);
}
