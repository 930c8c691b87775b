//! The parts of the site's sections that decide what goes on a page.

pub mod datalog;
pub mod posts;
pub mod projects;
pub mod radicals;
pub mod slides;
pub mod tags;
pub mod twtxt;
pub mod wiki;

use vstd::prelude::*;
use vstd::string::StringSliceAdditionalSpecFns;
use vstd::utf8::{encode_utf8, is_char_boundary};

use crate::model::LinkDate;
use crate::paths::{join, path_join};
use crate::props::{PropsFooter, PropsListGroup, PropsListItem, PropsNavItem};
use crate::strings::owned;
use crate::time::{month_day_text, rfc3339_text};

verus! {

/// The entries of the navigation bar: stamp, name and address of each
/// section, in the order shown.
pub open spec fn nav_table() -> Seq<(Seq<char>, Seq<char>, Seq<char>)> {
    seq![
        ("綴"@, "Posts"@, "/posts/"@),
        ("映"@, "Slides"@, "/slides/"@),
        ("創"@, "Projects"@, "/projects/"@),
        ("葉"@, "Garden"@, "/wiki/"@),
        ("想"@, "Journal"@, "/thoughts/"@),
        ("跡"@, "Map"@, "/map/"@),
        ("己"@, "About"@, "/about/"@),
        ("索"@, "Search"@, "/search/"@),
    ]
}

/// What a navigation entry shows.
pub open spec fn nav_view(i: PropsNavItem) -> (Seq<char>, Seq<char>, Seq<char>) {
    (i.stamp@, i.name@, i.url@)
}

/// The entries of the navigation bar.
pub fn make_nav_items() -> (r: Vec<PropsNavItem>)
    ensures
        r@.map_values(|i: PropsNavItem| nav_view(i)) == nav_table(),
{
    let r = vec![
        PropsNavItem { stamp: "綴", name: "Posts", url: "/posts/" },
        PropsNavItem { stamp: "映", name: "Slides", url: "/slides/" },
        PropsNavItem { stamp: "創", name: "Projects", url: "/projects/" },
        PropsNavItem { stamp: "葉", name: "Garden", url: "/wiki/" },
        PropsNavItem { stamp: "想", name: "Journal", url: "/thoughts/" },
        PropsNavItem { stamp: "跡", name: "Map", url: "/map/" },
        PropsNavItem { stamp: "己", name: "About", url: "/about/" },
        PropsNavItem { stamp: "索", name: "Search", url: "/search/" },
    ];
    assert(r@.map_values(|i: PropsNavItem| nav_view(i)) =~= nav_table());
    r
}

/// The footer of a page built at `date` in `year` from the commit `hash`,
/// whose sources are browsed under `link`. The short hash is the first seven
/// bytes of `hash`, which must end on a character boundary.
pub fn make_props_footer(year: i32, link: &str, hash: &str, date: &str) -> (r: PropsFooter)
    requires
        is_char_boundary(hash.spec_bytes(), 7),
    ensures
        r.year == year,
        r.repo_link@ == path_join(link@, hash@),
        encode_utf8(r.hash_short@) == hash.spec_bytes().subrange(0, 7),
        r.date@ == date@,
{
    let (short, _) = hash.split_at(7);
    PropsFooter {
        year,
        repo_link: join(link, hash),
        hash_short: owned(short),
        date: owned(date),
    }
}

/// The footer of the home page, whose source link goes to the tree of the
/// commit `hash` under `link`; otherwise as any other footer.
pub fn make_home_footer(year: i32, link: &str, hash: &str, date: &str) -> (r: PropsFooter)
    requires
        is_char_boundary(hash.spec_bytes(), 7),
    ensures
        r.year == year,
        r.repo_link@ == path_join(path_join(link@, "tree"@), hash@),
        encode_utf8(r.hash_short@) == hash.spec_bytes().subrange(0, 7),
        r.date@ == date@,
{
    let (short, _) = hash.split_at(7);
    let tree = join(link, "tree");
    PropsFooter {
        year,
        repo_link: join(tree.as_str(), hash),
        hash_short: owned(short),
        date: owned(date),
    }
}

/// The texts of an optional string.
pub open spec fn opt_view(o: Option<String>) -> Option<Seq<char>> {
    match o {
        Some(s) => Some(s@),
        None => None,
    }
}

/// A copy of an optional string.
pub fn copy_opt(o: &Option<String>) -> (r: Option<String>)
    ensures
        opt_view(r) == opt_view(*o),
{
    match o {
        Some(s) => Some(s.clone()),
        None => None,
    }
}

/// Whether a list line shows the link `l`: its path, name and description,
/// and its date as `MM/DD` and in RFC 3339 form.
pub open spec fn shows(item: PropsListItem, l: LinkDate) -> bool {
    &&& item.path@ == l.link.path@
    &&& item.name@ == l.link.name@
    &&& opt_view(item.desc) == opt_view(l.link.desc)
    &&& item.date@ == month_day_text(l.date.spec_secs(), l.date.spec_nanos())
    &&& item.date_iso@ == rfc3339_text(l.date.spec_secs(), l.date.spec_nanos())
}

/// The list line for a link.
pub fn list_item(l: &LinkDate) -> (r: PropsListItem)
    ensures
        shows(r, *l),
{
    PropsListItem {
        path: l.link.path.clone(),
        name: l.link.name.clone(),
        desc: copy_opt(&l.link.desc),
        date: l.date.month_day(),
        date_iso: l.date.to_rfc3339(),
    }
}

/// The list groups for links already grouped by year: each group keeps its
/// year, and each link becomes the line that shows it.
pub fn list_groups(groups: &[(i32, Vec<&LinkDate>)]) -> (r: Vec<PropsListGroup>)
    ensures
        r@.len() == groups@.len(),
        forall|g: int|
            0 <= g < r@.len() ==> (#[trigger] r@[g]).year == groups@[g].0 && r@[g].items@.len()
                == groups@[g].1@.len(),
        forall|g: int, k: int|
            0 <= g < r@.len() && 0 <= k < r@[g].items@.len() ==> shows(
                #[trigger] r@[g].items@[k],
                *groups@[g].1@[k],
            ),
{
    let mut r: Vec<PropsListGroup> = Vec::new();
    for g in 0..groups.len()
        invariant
            r@.len() == g,
            forall|h: int|
                0 <= h < g ==> (#[trigger] r@[h]).year == groups@[h].0 && r@[h].items@.len()
                    == groups@[h].1@.len(),
            forall|h: int, k: int|
                0 <= h < g && 0 <= k < r@[h].items@.len() ==> shows(
                    #[trigger] r@[h].items@[k],
                    *groups@[h].1@[k],
                ),
    {
        let links = &groups[g].1;
        let mut items: Vec<PropsListItem> = Vec::new();
        for k in 0..links.len()
            invariant
                links == groups@[g as int].1,
                items@.len() == k,
                forall|j: int| 0 <= j < k ==> shows(#[trigger] items@[j], *links@[j]),
        {
            items.push(list_item(links[k]));
        }
        r.push(PropsListGroup { year: groups[g].0, items });
    }
    r
}


/// The HTML of the home page's introduction, written from its markdown by
/// comrak with its default options.
pub fn intro_html(intro: &str) -> (r: String)
    ensures
        r@ == crate::md::doc::default_html(intro@),
{
    crate::md::doc::markdown_default(intro)
}

} // verus!
