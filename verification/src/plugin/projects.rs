//! The projects page: one tile per project, in the order of their titles.

use vstd::prelude::*;

use crate::datalog::views;
use crate::order::{index_ints, is_sorted_order, sorted_order, text_views};
use crate::paths::{join, parent, path_join, path_parent};
use crate::plugin::{copy_opt, opt_view};
use crate::plugin::wiki::{begins, starts_with};
use crate::props::PropsProjectTile;
use crate::strings::owned;

verus! {

/// A project as the projects page lists it.
pub struct ProjectView {
    pub title: String,
    pub tech: Vec<String>,
    pub link: String,
    pub desc: Option<String>,
}

/// The tile of the interactive kanji graph, whose page is published at
/// `radicals_path`: it links to the directory of that page. `None` where
/// that page's path has no parent.
pub fn constellations(radicals_path: &str) -> (r: Option<ProjectView>)
    ensures
        match path_parent(path_join("/"@, radicals_path@)) {
            Some(dir) => r matches Some(v) && v.title@ == "Constellations"@ && views(v.tech@)
                == seq!["Svelte"@, "TypeScript"@] && v.link@ == dir && opt_view(v.desc) == Some(
                "Try adding kanji you know and see how they connect to each other."@,
            ),
            None => r is None,
        },
{
    let page = join("/", radicals_path);
    match parent(page.as_str()) {
        Some(dir) => {
            let tech = vec![owned("Svelte"), owned("TypeScript")];
            assert(views(tech@) =~= seq!["Svelte"@, "TypeScript"@]);
            Some(
                ProjectView {
                    title: owned("Constellations"),
                    tech,
                    link: dir,
                    desc: Some(
                        owned("Try adding kanji you know and see how they connect to each other."),
                    ),
                },
            )
        },
        None => None,
    }
}

/// Whether a tile shows a project: its title, technologies, link and
/// description, marked external when the link leads off the site (it does
/// not start with `/`).
pub open spec fn tile_shows(t: PropsProjectTile, p: ProjectView) -> bool {
    &&& t.title@ == p.title@
    &&& views(t.tech@) == views(p.tech@)
    &&& t.link@ == p.link@
    &&& opt_view(t.desc) == opt_view(p.desc)
    &&& t.external == !begins(p.link@, "/"@)
}

/// The titles of the projects.
pub open spec fn titles(ps: Seq<ProjectView>) -> Seq<Seq<char>> {
    ps.map_values(|p: ProjectView| p.title@)
}

/// A copy of a list of strings.
pub fn copy_strings(v: &[String]) -> (r: Vec<String>)
    ensures
        views(r@) == views(v@),
{
    let mut out: Vec<String> = Vec::new();
    for k in 0..v.len()
        invariant
            views(out@) == views(v@.take(k as int)),
    {
        let ghost before = out@;
        out.push(v[k].clone());
        proof {
            assert(out@ =~= before.push(v@[k as int]));
            assert(views(v@.take(k + 1)) =~= views(v@.take(k as int)).push(v@[k as int]@));
            assert(views(out@) =~= views(before).push(v@[k as int]@));
        }
    }
    proof {
        assert(v@.take(v@.len() as int) =~= v@);
    }
    out
}

/// The tiles of the projects, in the order of their titles.
pub fn project_tiles(projects: &[ProjectView]) -> (r: Vec<PropsProjectTile>)
    ensures
        exists|p: Seq<int>|
            {
                &&& is_sorted_order(titles(projects@), p)
                &&& r@.len() == p.len()
                &&& forall|k: int| 0 <= k < p.len() ==> tile_shows(#[trigger] r@[k], projects@[p[k]])
            },
{
    let n = projects.len();
    let mut keys: Vec<&str> = Vec::new();
    for i in 0..n
        invariant
            n == projects@.len(),
            keys@.len() == i,
            forall|k: int| 0 <= k < i ==> (#[trigger] keys@[k])@ == projects@[k].title@,
    {
        keys.push(projects[i].title.as_str());
    }
    let order = sorted_order(keys.as_slice());
    let ghost p = index_ints(order@);
    proof {
        assert(text_views(keys@) =~= titles(projects@));
    }
    let mut r: Vec<PropsProjectTile> = Vec::new();
    for k in 0..n
        invariant
            n == projects@.len() == order@.len(),
            p == index_ints(order@),
            is_sorted_order(titles(projects@), p),
            r@.len() == k,
            forall|j: int| 0 <= j < k ==> tile_shows(#[trigger] r@[j], projects@[p[j]]),
    {
        proof {
            assert(p[k as int] == order@[k as int] as int);
        }
        let pv = &projects[order[k]];
        let external = !starts_with(pv.link.as_str(), "/");
        r.push(
            PropsProjectTile {
                title: pv.title.clone(),
                tech: copy_strings(pv.tech.as_slice()),
                link: pv.link.clone(),
                desc: copy_opt(&pv.desc),
                external,
            },
        );
    }
    r
}

} // verus!
