//! Lists of dated links grouped by year, newest first, and the tags of posts.

use vstd::prelude::*;

use crate::model::{Link, LinkDate, PostDoc};
use crate::order::{
    index_ints, is_sorted_order, is_text_less, sorted_order, text_views, lemma_text_less_irreflexive, lemma_text_less_total,
    lemma_text_less_transitive, text_less,
};
use crate::plugin::{copy_opt, opt_view};
use crate::props::PropsTagCloudEntry;
use crate::strings::{lowercase, owned, push_str, same_text, to_lowercase};
use crate::time::{calendar_year, earlier, instant, is_earlier};

verus! {

/// The calendar year of a link's date.
pub open spec fn link_year(l: LinkDate) -> i32 {
    calendar_year(l.date.spec_secs(), l.date.spec_nanos())
}

/// Whether `a` is listed before `b`: it falls in a later year, or in the
/// same year at a later instant.
pub open spec fn listed_before(a: LinkDate, b: LinkDate) -> bool {
    ||| link_year(a) > link_year(b)
    ||| link_year(a) == link_year(b) && earlier(instant(b.date), instant(a.date))
}

/// Whether `a` and `b` fall on the same instant (and so in the same year).
pub open spec fn same_place(a: LinkDate, b: LinkDate) -> bool {
    link_year(a) == link_year(b) && instant(a.date) == instant(b.date)
}

/// `p` lists the indices of `links`, each once, in the order of the
/// listing: newest year first, newest first within a year, and links dated
/// alike in the order they were given.
pub open spec fn is_listing_order(links: Seq<LinkDate>, p: Seq<int>) -> bool {
    &&& p.len() == links.len()
    &&& forall|k: int| 0 <= k < p.len() ==> 0 <= #[trigger] p[k] < links.len()
    &&& forall|k: int, l: int| 0 <= k < l < p.len() ==> p[k] != p[l]
    &&& forall|k: int, l: int|
        0 <= k < l < p.len() ==> !listed_before(links[p[l]], links[p[k]])
    &&& forall|k: int, l: int|
        0 <= k < l < p.len() && same_place(links[p[k]], links[p[l]]) ==> p[k] < p[l]
}

/// The links of the groups, one group after another.
pub open spec fn flatten(gs: Seq<(i32, Vec<&LinkDate>)>) -> Seq<LinkDate>
    decreases gs.len(),
{
    if gs.len() == 0 {
        Seq::empty()
    } else {
        flatten(gs.drop_last()) + gs.last().1@.map_values(|r: &LinkDate| *r)
    }
}

/// The links at the indices of `p`, in that order.
pub open spec fn pick(links: Seq<LinkDate>, p: Seq<int>) -> Seq<LinkDate> {
    p.map_values(|k: int| links[k])
}

/// The indices held in `v`, as integers.
pub open spec fn as_ints(v: Seq<usize>) -> Seq<int> {
    v.map_values(|u: usize| u as int)
}

/// Whether the link at `a` is listed before the link at `b`.
fn goes_before(links: &[LinkDate], years: &Vec<i32>, a: usize, b: usize) -> (r: bool)
    requires
        a < links@.len(),
        b < links@.len(),
        years@.len() == links@.len(),
        forall|k: int| 0 <= k < links@.len() ==> years@[k] == link_year(#[trigger] links@[k]),
    ensures
        r == listed_before(links@[a as int], links@[b as int]),
{
    let (ya, yb) = (years[a], years[b]);
    assert(ya == link_year(links@[a as int]));
    assert(yb == link_year(links@[b as int]));
    ya > yb || (ya == yb && is_earlier(&links[b].date, &links[a].date))
}

/// The indices of `links` in the order of the listing, found by a stable
/// insertion sort.
fn listing_order(links: &[LinkDate], years: &Vec<i32>) -> (order: Vec<usize>)
    requires
        years@.len() == links@.len(),
        forall|k: int| 0 <= k < links@.len() ==> years@[k] == link_year(#[trigger] links@[k]),
    ensures
        is_listing_order(links@, as_ints(order@)),
{
    let n = links.len();
    let mut order: Vec<usize> = Vec::new();
    for i in 0..n
        invariant
            n == links@.len(),
            years@.len() == links@.len(),
            forall|k: int| 0 <= k < links@.len() ==> years@[k] == link_year(#[trigger] links@[k]),
            order@.len() == i,
            forall|k: int| 0 <= k < order@.len() ==> #[trigger] order@[k] < i,
            forall|k: int, l: int| 0 <= k < l < order@.len() ==> order@[k] != order@[l],
            forall|k: int, l: int|
                0 <= k < l < order@.len() ==> !listed_before(
                    links@[order@[l] as int],
                    links@[order@[k] as int],
                ),
            forall|k: int, l: int|
                0 <= k < l < order@.len() && same_place(
                    links@[order@[k] as int],
                    links@[order@[l] as int],
                ) ==> order@[k] < order@[l],
    {
        let mut pos: usize = 0;
        while pos < order.len() && !goes_before(links, years, i, order[pos])
            invariant
                n == links@.len(),
                i < n,
                years@.len() == links@.len(),
                forall|k: int|
                    0 <= k < links@.len() ==> years@[k] == link_year(#[trigger] links@[k]),
                order@.len() == i,
                pos <= order@.len(),
                forall|k: int| 0 <= k < order@.len() ==> #[trigger] order@[k] < i,
                forall|k: int|
                    0 <= k < pos ==> !listed_before(links@[i as int], links@[#[trigger] order@[k] as int]),
            decreases order@.len() - pos,
        {
            pos = pos + 1;
        }
        proof {
            let li = links@[i as int];
            assert forall|k: int| pos <= k < order@.len() implies listed_before(
                li,
                links@[#[trigger] order@[k] as int],
            ) by {
                let lp = links@[order@[pos as int] as int];
                let lk = links@[order@[k] as int];
                assert(listed_before(li, lp));
                if k > pos {
                    assert(!listed_before(lk, lp));
                }
            }
        }
        let ghost old_order = order@;
        order.insert(pos, i);
        proof {
            assert forall|k: int| 0 <= k < order@.len() implies #[trigger] order@[k] < i + 1 by {
                if k < pos {
                    assert(order@[k] == old_order[k]);
                } else if k > pos {
                    assert(order@[k] == old_order[k - 1]);
                }
            }
            assert forall|k: int, l: int| 0 <= k < l < order@.len() implies order@[k]
                != order@[l] && !listed_before(
                links@[order@[l] as int],
                links@[order@[k] as int],
            ) && (same_place(links@[order@[k] as int], links@[order@[l] as int])
                ==> order@[k] < order@[l]) by {
                let ok = if k < pos { old_order[k] } else if k == pos { i } else { old_order[k - 1] };
                let ol = if l < pos { old_order[l] } else if l == pos { i } else { old_order[l - 1] };
                assert(order@[k] == ok);
                assert(order@[l] == ol);
                if k == pos {
                    assert(listed_before(links@[i as int], links@[old_order[l - 1] as int]));
                } else if l == pos {
                    assert(!listed_before(links@[i as int], links@[old_order[k] as int]));
                    assert(old_order[k] < i);
                } else if k < pos && l > pos {
                    assert(l - 1 > k);
                } else if k > pos {
                    assert(l - 1 > k - 1);
                }
            }
        }
    }
    order
}

/// Groups dated links by year: the newest year first, and within a year the
/// newest link first, links dated alike keeping the order they were given.
pub fn group<'a>(links: &'a [LinkDate]) -> (r: Vec<(i32, Vec<&'a LinkDate>)>)
    ensures
        exists|p: Seq<int>| is_listing_order(links@, p) && flatten(r@) == pick(links@, p),
        forall|g: int| 0 <= g < r@.len() ==> (#[trigger] r@[g]).1@.len() > 0,
        forall|g: int, k: int|
            0 <= g < r@.len() && 0 <= k < r@[g].1@.len() ==> link_year(*(#[trigger] r@[g].1@[k]))
                == r@[g].0,
        forall|g: int| 0 < g < r@.len() ==> (#[trigger] r@[g]).0 < r@[g - 1].0,
{
    let n = links.len();
    let mut years: Vec<i32> = Vec::new();
    for i in 0..n
        invariant
            n == links@.len(),
            years@.len() == i,
            forall|k: int| 0 <= k < i ==> years@[k] == link_year(#[trigger] links@[k]),
    {
        years.push(links[i].date.year());
    }
    let order = listing_order(links, &years);
    let ghost p = as_ints(order@);
    proof {
        assert forall|j: int| 0 <= j < n implies #[trigger] order@[j] < n by {
            assert(p[j] == order@[j] as int);
        }
    }
    let mut groups: Vec<(i32, Vec<&'a LinkDate>)> = Vec::new();
    let mut k: usize = 0;
    while k < n
        invariant
            n == links@.len() == order@.len(),
            years@.len() == links@.len(),
            forall|j: int| 0 <= j < links@.len() ==> years@[j] == link_year(#[trigger] links@[j]),
            p == as_ints(order@),
            is_listing_order(links@, p),
            k <= n,
            flatten(groups@) == pick(links@, p).take(k as int),
            forall|g: int| 0 <= g < groups@.len() ==> (#[trigger] groups@[g]).1@.len() > 0,
            forall|g: int, j: int|
                0 <= g < groups@.len() && 0 <= j < groups@[g].1@.len() ==> link_year(
                    *(#[trigger] groups@[g].1@[j]),
                ) == groups@[g].0,
            forall|g: int| 0 < g < groups@.len() ==> (#[trigger] groups@[g]).0 < groups@[g - 1].0,
            groups@.len() > 0 ==> k > 0 && groups@.last().0 == link_year(links@[p[k - 1]]),
            groups@.len() > 0 && k < n ==> link_year(links@[p[k as int]]) != groups@.last().0,
            forall|j: int| 0 <= j < n ==> #[trigger] order@[j] < n,
        decreases n - k,
    {
        proof {
            assert(p[k as int] == order@[k as int] as int);
        }
        let y = years[order[k]];
        let start = k;
        let mut items: Vec<&'a LinkDate> = Vec::new();
        while k < n && years[order[k]] == y
            invariant
                forall|j: int| 0 <= j < n ==> #[trigger] order@[j] < n,
                n == links@.len() == order@.len(),
                years@.len() == links@.len(),
                forall|j: int|
                    0 <= j < links@.len() ==> years@[j] == link_year(#[trigger] links@[j]),
                p == as_ints(order@),
                is_listing_order(links@, p),
                start < n,
                y == link_year(links@[p[start as int]]),
                start <= k <= n,
                items@.map_values(|r: &LinkDate| *r) == pick(links@, p).subrange(start as int, k as int),
                forall|j: int| 0 <= j < items@.len() ==> link_year(*(#[trigger] items@[j])) == y,
                k > start ==> link_year(links@[p[k - 1]]) == y,
            decreases n - k,
        {
            proof {
                assert(p[k as int] == order@[k as int] as int);
            }
            let ghost old_items = items@;
            items.push(&links[order[k]]);
            proof {
                assert(items@.map_values(|r: &LinkDate| *r) =~= old_items.map_values(|r: &LinkDate| *r).push(links@[p[k as int]]));
                assert(pick(links@, p).subrange(start as int, k + 1) =~= pick(links@, p).subrange(start as int, k as int).push(links@[p[k as int]]));
            }
            k = k + 1;
        }
        proof {
            if k == start {
                assert(years@[order@[k as int] as int] == y);
            }
            if k < n {
                assert(p[k as int] == order@[k as int] as int);
                assert(years@[order@[k as int] as int] != y);
            }
            if groups@.len() > 0 {
                let a = links@[p[start - 1]];
                let b = links@[p[start as int]];
                assert(!listed_before(b, a));
                assert(link_year(b) <= link_year(a));
            }
        }
        let ghost old_groups = groups@;
        groups.push((y, items));
        proof {
            assert(groups@.drop_last() =~= old_groups);
            assert(pick(links@, p).take(k as int) =~= pick(links@, p).take(start as int) + pick(links@, p).subrange(start as int, k as int));
            if groups@.len() > 1 {
                let a = links@[p[start - 1]];
                let b = links@[p[start as int]];
                assert(old_groups.last().0 == link_year(a));
            }
        }
    }
    proof {
        assert(pick(links@, p).take(n as int) =~= pick(links@, p));
    }
    groups
}

} // verus!

verus! {

/// What a dated link holds: path, name, description and instant.
pub type LinkView = (Seq<char>, Seq<char>, Option<Seq<char>>, (i64, u32));

/// The contents of a dated link.
pub open spec fn link_view(l: LinkDate) -> LinkView {
    (l.link.path@, l.link.name@, opt_view(l.link.desc), instant(l.date))
}

/// The link that lists a post: its address, title, description and date.
pub open spec fn post_link(p: PostDoc) -> LinkView {
    (p.href@, p.matter.title@, opt_view(p.matter.desc), instant(p.matter.date))
}

/// The tagging events of a post over the tags `tags`: one per tag, in
/// order, each pairing the tag with the post's link; none for a draft.
pub open spec fn post_tag_events(p: PostDoc, tags: Seq<String>) -> Seq<(Seq<char>, LinkView)> {
    if p.matter.draft {
        Seq::empty()
    } else {
        tags.map_values(|t: String| (t@, post_link(p)))
    }
}

/// The tagging events of all posts, post after post.
pub open spec fn tag_events(posts: Seq<PostDoc>) -> Seq<(Seq<char>, LinkView)>
    decreases posts.len(),
{
    if posts.len() == 0 {
        Seq::empty()
    } else {
        tag_events(posts.drop_last()) + post_tag_events(posts.last(), posts.last().matter.tags@)
    }
}

/// The links tagged `tag`, in the order of the events.
pub open spec fn links_tagged(events: Seq<(Seq<char>, LinkView)>, tag: Seq<char>) -> Seq<LinkView>
    decreases events.len(),
{
    if events.len() == 0 {
        Seq::empty()
    } else if events.last().0 == tag {
        links_tagged(events.drop_last(), tag).push(events.last().1)
    } else {
        links_tagged(events.drop_last(), tag)
    }
}

/// The contents of the links of a tag entry.
pub open spec fn link_views(v: Seq<LinkDate>) -> Seq<LinkView> {
    v.map_values(|l: LinkDate| link_view(l))
}

/// `m` is the tag map of `events`: one entry per tag that occurs, in the
/// order of the tags, each with the links tagged so in event order.
pub open spec fn is_tag_map(m: Seq<(String, Vec<LinkDate>)>, events: Seq<(Seq<char>, LinkView)>) -> bool {
    &&& forall|a: int, b: int| 0 <= a < b < m.len() ==> text_less(m[a].0@, m[b].0@)
    &&& forall|a: int|
        0 <= a < m.len() ==> link_views((#[trigger] m[a]).1@) == links_tagged(events, m[a].0@)
            && m[a].1@.len() > 0
    &&& forall|j: int| 0 <= j < events.len() ==> has_tag(m, (#[trigger] events[j]).0)
}

/// Whether the tag map has an entry for `tag`.
pub open spec fn has_tag(m: Seq<(String, Vec<LinkDate>)>, tag: Seq<char>) -> bool {
    exists|a: int| 0 <= a < m.len() && (#[trigger] m[a]).0@ == tag
}

proof fn lemma_links_tagged_push(events: Seq<(Seq<char>, LinkView)>, e: (Seq<char>, LinkView), tag: Seq<char>)
    ensures
        links_tagged(events.push(e), tag) == if e.0 == tag {
            links_tagged(events, tag).push(e.1)
        } else {
            links_tagged(events, tag)
        },
{
    assert(events.push(e).drop_last() =~= events);
}

proof fn lemma_links_tagged_absent(events: Seq<(Seq<char>, LinkView)>, tag: Seq<char>)
    requires
        forall|j: int| 0 <= j < events.len() ==> (#[trigger] events[j]).0 != tag,
    ensures
        links_tagged(events, tag) == Seq::<LinkView>::empty(),
    decreases events.len(),
{
    if events.len() > 0 {
        assert forall|j: int| 0 <= j < events.drop_last().len() implies (
        #[trigger] events.drop_last()[j]).0 != tag by {
            assert(events.drop_last()[j] == events[j]);
        }
        lemma_links_tagged_absent(events.drop_last(), tag);
    }
}

/// Files `link` under `tag` in the tag map.
fn add_tagged(
    m: &mut Vec<(String, Vec<LinkDate>)>,
    tag: &str,
    link: LinkDate,
    Ghost(events): Ghost<Seq<(Seq<char>, LinkView)>>,
)
    requires
        is_tag_map(old(m)@, events),
    ensures
        is_tag_map(final(m)@, events.push((tag@, link_view(link)))),
{
    let ghost e = (tag@, link_view(link));
    let ghost ev2 = events.push(e);
    let mut pos: usize = 0;
    while pos < m.len() && is_text_less(m[pos].0.as_str(), tag)
        invariant
            is_tag_map(m@, events),
            pos <= m@.len(),
            forall|a: int| 0 <= a < pos ==> text_less((#[trigger] m@[a]).0@, tag@),
        decreases m@.len() - pos,
    {
        pos = pos + 1;
    }
    let ghost old_m = m@;
    proof {
        assert forall|a: int| pos <= a < old_m.len() implies !text_less(
            (#[trigger] old_m[a]).0@,
            tag@,
        ) && (a > pos ==> text_less(old_m[pos as int].0@, old_m[a].0@)) by {
            if a > pos {
                assert(text_less(old_m[pos as int].0@, old_m[a].0@));
                if text_less(old_m[a].0@, tag@) {
                    lemma_text_less_transitive(old_m[pos as int].0@, old_m[a].0@, tag@);
                }
            }
        }
        assert forall|a: int| 0 <= a < pos implies (#[trigger] old_m[a]).0@ != tag@ by {
            lemma_text_less_irreflexive(tag@);
        }
    }
    if pos < m.len() && same_text(m[pos].0.as_str(), tag) {
        let (key, mut links) = m.remove(pos);
        let ghost old_links = links@;
        links.push(link);
        m.insert(pos, (key, links));
        proof {
            assert(m@ =~= old_m.update(pos as int, (key, links)));
            assert forall|a: int| 0 <= a < m@.len() implies (#[trigger] m@[a]).0 == old_m[a].0 by {}
            assert forall|a: int, b: int| 0 <= a < b < m@.len() implies text_less(
                m@[a].0@,
                m@[b].0@,
            ) by {
                assert(m@[a].0 == old_m[a].0);
                assert(m@[b].0 == old_m[b].0);
            }
            assert(link_views(links@) =~= link_views(old_links).push(link_view(link)));
            assert forall|a: int| 0 <= a < m@.len() implies link_views((#[trigger] m@[a]).1@)
                == links_tagged(ev2, m@[a].0@) && m@[a].1@.len() > 0 by {
                lemma_links_tagged_push(events, e, m@[a].0@);
                if a != pos {
                    if m@[a].0@ == tag@ {
                        if a < pos {
                        } else {
                            lemma_text_less_irreflexive(tag@);
                        }
                    }
                }
            }
            assert forall|j: int| 0 <= j < ev2.len() implies has_tag(m@, (#[trigger] ev2[j]).0) by {
                if j < events.len() {
                    assert(ev2[j] == events[j]);
                    assert(has_tag(old_m, events[j].0));
                    let a = choose|a: int| 0 <= a < old_m.len() && (#[trigger] old_m[a]).0@ == events[j].0;
                    assert(m@[a].0@ == old_m[a].0@);
                } else {
                    assert(m@[pos as int].0@ == ev2[j].0);
                }
            }
            assert(is_tag_map(m@, ev2));
        }
    } else {
        let mut links: Vec<LinkDate> = Vec::new();
        links.push(link);
        m.insert(pos, (owned(tag), links));
        proof {
            if pos < old_m.len() {
                lemma_text_less_total(old_m[pos as int].0@, tag@);
            }
            assert forall|a: int| pos <= a < old_m.len() implies text_less(
                tag@,
                (#[trigger] old_m[a]).0@,
            ) by {
                lemma_text_less_total(old_m[pos as int].0@, tag@);
                if a > pos {
                    lemma_text_less_transitive(tag@, old_m[pos as int].0@, old_m[a].0@);
                }
            }
            assert forall|j: int| 0 <= j < events.len() implies (#[trigger] events[j]).0 != tag@ by {
                assert(has_tag(old_m, events[j].0));
                    let a = choose|a: int| 0 <= a < old_m.len() && (#[trigger] old_m[a]).0@ == events[j].0;
                if a >= pos {
                    lemma_text_less_irreflexive(tag@);
                }
            }
            lemma_links_tagged_absent(events, tag@);
            lemma_links_tagged_push(events, e, tag@);
            assert(link_views(links@) =~= seq![link_view(link)]);
            assert forall|a: int, b: int| 0 <= a < b < m@.len() implies text_less(
                m@[a].0@,
                m@[b].0@,
            ) by {
                if a < pos && b == pos {
                } else if a == pos && b > pos {
                    assert(m@[b] == old_m[b - 1]);
                } else if a < pos && b > pos {
                    assert(m@[b] == old_m[b - 1]);
                    assert(text_less(old_m[a].0@, tag@));
                    lemma_text_less_transitive(old_m[a].0@, tag@, old_m[b - 1].0@);
                } else if a > pos {
                    assert(m@[a] == old_m[a - 1]);
                    assert(m@[b] == old_m[b - 1]);
                }
            }
            assert forall|a: int| 0 <= a < m@.len() implies link_views((#[trigger] m@[a]).1@)
                == links_tagged(ev2, m@[a].0@) && m@[a].1@.len() > 0 by {
                if a != pos {
                    let oa = if a < pos { a } else { a - 1 };
                    assert(m@[a] == old_m[oa]);
                    lemma_links_tagged_push(events, e, old_m[oa].0@);
                }
            }
            assert forall|j: int| 0 <= j < ev2.len() implies has_tag(m@, (#[trigger] ev2[j]).0) by {
                if j < events.len() {
                    assert(ev2[j] == events[j]);
                    assert(has_tag(old_m, events[j].0));
                    let a = choose|a: int| 0 <= a < old_m.len() && (#[trigger] old_m[a]).0@ == events[j].0;
                    let na = if a < pos { a } else { a + 1 };
                    assert(m@[na] == old_m[a]);
                } else {
                    assert(m@[pos as int].0@ == ev2[j].0);
                }
            }
            assert(is_tag_map(m@, ev2));
        }
    }
}

/// The link that lists a post.
fn link_of(p: &PostDoc) -> (r: LinkDate)
    ensures
        link_view(r) == post_link(*p),
{
    LinkDate {
        link: Link {
            path: p.href.clone(),
            name: p.matter.title.clone(),
            desc: copy_opt(&p.matter.desc),
        },
        date: p.matter.date.copy(),
    }
}

/// The tags of the published posts, in the order of the tags, each with the
/// links of the posts that carry it, in the order of the posts.
pub fn tag_map(posts: &[PostDoc]) -> (m: Vec<(String, Vec<LinkDate>)>)
    ensures
        is_tag_map(m@, tag_events(posts@)),
{
    let mut m: Vec<(String, Vec<LinkDate>)> = Vec::new();
    for i in 0..posts.len()
        invariant
            is_tag_map(m@, tag_events(posts@.take(i as int))),
    {
        let p = &posts[i];
        let ghost before = tag_events(posts@.take(i as int));
        proof {
            assert(posts@.take(i + 1).drop_last() =~= posts@.take(i as int));
        }
        if !p.matter.draft {
            let tags = &p.matter.tags;
            for j in 0..tags.len()
                invariant
                    !p.matter.draft,
                    tags == p.matter.tags,
                    is_tag_map(m@, before + post_tag_events(*p, tags@.take(j as int))),
            {
                let ghost ev = before + post_tag_events(*p, tags@.take(j as int));
                add_tagged(&mut m, tags[j].as_str(), link_of(p), Ghost(ev));
                proof {
                    assert(ev.push((tags@[j as int]@, post_link(*p))) =~= before + post_tag_events(
                        *p,
                        tags@.take(j + 1),
                    ));
                }
            }
            proof {
                assert(tags@.take(tags@.len() as int) =~= tags@);
            }
        } else {
            assert(before + post_tag_events(*p, p.matter.tags@) =~= before);
        }
    }
    proof {
        assert(posts@.take(posts@.len() as int) =~= posts@);
    }
    m
}

} // verus!

verus! {

/// The lowercase forms of the tags of a tag map.
pub open spec fn lowered_tags(m: Seq<(String, Vec<LinkDate>)>) -> Seq<Seq<char>> {
    m.map_values(|e: (String, Vec<LinkDate>)| lowercase(e.0@))
}

/// The tag cloud: each tag of the map with the number of its links, ordered
/// by the lowercase form of the tag, tags alike in lowercase keeping the
/// map's order.
pub fn tag_cloud_entries(m: &[(String, Vec<LinkDate>)]) -> (r: Vec<PropsTagCloudEntry>)
    ensures
        exists|p: Seq<int>|
            {
                &&& is_sorted_order(lowered_tags(m@), p)
                &&& r@.len() == m@.len()
                &&& forall|k: int|
                    0 <= k < r@.len() ==> (#[trigger] r@[k]).tag@ == m@[p[k]].0@ && r@[k].count
                        == m@[p[k]].1@.len()
            },
{
    let n = m.len();
    let mut lowered: Vec<String> = Vec::new();
    for i in 0..n
        invariant
            n == m@.len(),
            lowered@.len() == i,
            forall|k: int| 0 <= k < i ==> (#[trigger] lowered@[k])@ == lowercase(m@[k].0@),
    {
        lowered.push(to_lowercase(m[i].0.as_str()));
    }
    let mut keys: Vec<&str> = Vec::new();
    for i in 0..n
        invariant
            n == m@.len() == lowered@.len(),
            keys@.len() == i,
            forall|k: int| 0 <= k < i ==> (#[trigger] keys@[k])@ == lowered@[k]@,
    {
        keys.push(lowered[i].as_str());
    }
    let order = sorted_order(keys.as_slice());
    let ghost p = index_ints(order@);
    proof {
        assert(text_views(keys@) =~= lowered_tags(m@));
    }
    let mut r: Vec<PropsTagCloudEntry> = Vec::new();
    for k in 0..n
        invariant
            n == m@.len() == order@.len(),
            p == index_ints(order@),
            is_sorted_order(lowered_tags(m@), p),
            r@.len() == k,
            forall|j: int|
                0 <= j < k ==> (#[trigger] r@[j]).tag@ == m@[p[j]].0@ && r@[j].count
                    == m@[p[j]].1@.len(),
    {
        proof {
            assert(p[k as int] == order@[k as int] as int);
        }
        let e = &m[order[k]];
        r.push(PropsTagCloudEntry { tag: e.0.clone(), count: e.1.len() });
    }
    r
}

/// Where the page of a tag is written: `tags/<tag>/index.html`.
pub fn tag_page_path(tag: &str) -> (r: String)
    ensures
        r@ == "tags/"@ + tag@ + "/index.html"@,
{
    let mut r = owned("tags/");
    push_str(&mut r, tag);
    push_str(&mut r, "/index.html");
    r
}

} // verus!

verus! {

proof fn lemma_links_tagged_holds(events: Seq<(Seq<char>, LinkView)>, k: int)
    requires
        0 <= k < events.len(),
    ensures
        links_tagged(events, events[k].0).contains(events[k].1),
    decreases events.len(),
{
    let t = events[k].0;
    if k == events.len() - 1 {
        assert(links_tagged(events, t).last() == events[k].1);
    } else {
        assert(events.drop_last()[k] == events[k]);
        lemma_links_tagged_holds(events.drop_last(), k);
        let w = links_tagged(events.drop_last(), t);
        let i = choose|i: int| 0 <= i < w.len() && w[i] == events[k].1;
        if events.last().0 == t {
            assert(links_tagged(events, t)[i] == events[k].1);
        }
    }
}

proof fn lemma_tag_events_hold(posts: Seq<PostDoc>, i: int, j: int)
    requires
        0 <= i < posts.len(),
        !posts[i].matter.draft,
        0 <= j < posts[i].matter.tags@.len(),
    ensures
        tag_events(posts).contains((posts[i].matter.tags@[j]@, post_link(posts[i]))),
    decreases posts.len(),
{
    let rest = tag_events(posts.drop_last());
    let own = post_tag_events(posts.last(), posts.last().matter.tags@);
    assert(tag_events(posts) == rest + own);
    if i == posts.len() - 1 {
        assert(own[j] == (posts[i].matter.tags@[j]@, post_link(posts[i])));
        assert(tag_events(posts)[rest.len() + j] == own[j]);
    } else {
        assert(posts.drop_last()[i] == posts[i]);
        lemma_tag_events_hold(posts.drop_last(), i, j);
        let k = choose|k: int| 0 <= k < rest.len() && rest[k] == (
            posts[i].matter.tags@[j]@,
            post_link(posts[i]),
        );
        assert(tag_events(posts)[k] == rest[k]);
    }
}

/// Every published post is listed under each of its tags.
pub proof fn lemma_published_post_listed(posts: Seq<PostDoc>, i: int, j: int)
    requires
        0 <= i < posts.len(),
        !posts[i].matter.draft,
        0 <= j < posts[i].matter.tags@.len(),
    ensures
        links_tagged(tag_events(posts), posts[i].matter.tags@[j]@).contains(post_link(posts[i])),
{
    lemma_tag_events_hold(posts, i, j);
    let ev = tag_events(posts);
    let k = choose|k: int| 0 <= k < ev.len() && ev[k] == (
        posts[i].matter.tags@[j]@,
        post_link(posts[i]),
    );
    lemma_links_tagged_holds(ev, k);
}

/// No link of a draft is listed under any tag.
pub proof fn lemma_drafts_unlisted(posts: Seq<PostDoc>, tag: Seq<char>, l: LinkView)
    requires
        links_tagged(tag_events(posts), tag).contains(l),
    ensures
        exists|i: int| 0 <= i < posts.len() && !posts[i].matter.draft && post_link(posts[i]) == l,
    decreases posts.len(),
{
    let rest = tag_events(posts.drop_last());
    let own = post_tag_events(posts.last(), posts.last().matter.tags@);
    lemma_links_tagged_concat(rest, own, tag);
    if links_tagged(rest, tag).contains(l) {
        lemma_drafts_unlisted(posts.drop_last(), tag, l);
        let i = choose|i: int| 0 <= i < posts.drop_last().len() && !posts.drop_last()[i].matter.draft
            && post_link(posts.drop_last()[i]) == l;
        assert(posts[i] == posts.drop_last()[i]);
    } else {
        let w = links_tagged(own, tag);
        assert(w.contains(l));
        lemma_links_tagged_from(own, tag, l);
        assert(!posts.last().matter.draft && post_link(posts.last()) == l);
        assert(posts[posts.len() - 1] == posts.last());
    }
}

proof fn lemma_links_tagged_concat(a: Seq<(Seq<char>, LinkView)>, b: Seq<(Seq<char>, LinkView)>, tag: Seq<char>)
    ensures
        links_tagged(a + b, tag) == links_tagged(a, tag) + links_tagged(b, tag),
    decreases b.len(),
{
    if b.len() == 0 {
        assert(a + b =~= a);
        assert(links_tagged(a, tag) + links_tagged(b, tag) =~= links_tagged(a, tag));
    } else {
        lemma_links_tagged_concat(a, b.drop_last(), tag);
        assert((a + b).drop_last() =~= a + b.drop_last());
        assert((a + b).last() == b.last());
        if b.last().0 == tag {
            assert(links_tagged(a, tag) + links_tagged(b, tag) =~= (links_tagged(a, tag) + links_tagged(b.drop_last(), tag)).push(b.last().1));
        }
    }
}

proof fn lemma_links_tagged_from(events: Seq<(Seq<char>, LinkView)>, tag: Seq<char>, l: LinkView)
    requires
        links_tagged(events, tag).contains(l),
    ensures
        exists|k: int| 0 <= k < events.len() && events[k] == (tag, l),
    decreases events.len(),
{
    if events.len() > 0 {
        if events.last().0 == tag && events.last().1 == l {
            assert(events[events.len() - 1] == (tag, l));
        } else {
            let w = links_tagged(events.drop_last(), tag);
            if events.last().0 == tag {
                let i = choose|i: int| 0 <= i < links_tagged(events, tag).len() && links_tagged(events, tag)[i] == l;
                assert(i < w.len());
                assert(w[i] == l);
            }
            assert(w.contains(l));
            lemma_links_tagged_from(events.drop_last(), tag, l);
            let k = choose|k: int| 0 <= k < events.drop_last().len() && events.drop_last()[k] == (tag, l);
            assert(events[k] == (tag, l));
        }
    }
}

} // verus!
