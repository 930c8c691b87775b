//! The values handed to the page templates.

use vstd::prelude::*;

verus! {

/// One entry of the navigation bar.
pub struct PropsNavItem {
    pub stamp: &'static str,
    pub name: &'static str,
    pub url: &'static str,
}

/// The page footer: copyright year, the commit the site was built from and
/// when.
pub struct PropsFooter {
    pub year: i32,
    pub repo_link: String,
    pub hash_short: String,
    pub date: String,
}

/// When a post was last changed, by which commit.
pub struct PropsPostUpdated {
    pub date: String,
    pub date_iso: String,
    pub hash: String,
    pub hash_url: String,
}

/// The side panel of a post.
pub struct PropsPostMeta {
    pub date_added: String,
    pub date_added_iso: String,
    pub updated: Option<PropsPostUpdated>,
    pub tags: Vec<String>,
}

/// One node of the wiki's page tree.
pub struct PropsWikiTreeNode {
    pub href: String,
    pub name: String,
    pub is_link: bool,
    pub is_current: bool,
    pub children: Vec<PropsWikiTreeNode>,
}

/// A page that links to the current wiki page.
pub struct PropsWikiBacklink {
    pub href: String,
    pub title: String,
}

/// A tag and the number of posts under it.
pub struct PropsTagCloudEntry {
    pub tag: String,
    pub count: usize,
}

/// A project on the projects page.
pub struct PropsProjectTile {
    pub title: String,
    pub tech: Vec<String>,
    pub link: String,
    pub desc: Option<String>,
    pub external: bool,
}

/// One line of a dated list.
pub struct PropsListItem {
    pub path: String,
    pub name: String,
    pub desc: Option<String>,
    pub date: String,
    pub date_iso: String,
}

/// The lines of a dated list that fall in one year.
pub struct PropsListGroup {
    pub year: i32,
    pub items: Vec<PropsListItem>,
}

} // verus!
