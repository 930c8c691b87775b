//! The digital garden: where each page sits in the hierarchy of paths, which
//! of its links lead to known pages, and the page tree shown beside a page.

use vstd::prelude::*;

use crate::datalog::{views, Datalog, Solution};
use crate::order::{
    index_ints, is_sorted_order, lemma_text_less_irreflexive, lemma_text_less_total, sorted_order,
    text_less, text_views,
};
use crate::paths::{
    file_name, join, parent, path_file_name, path_join, path_parent, path_strip_prefix,
    path_with_extension, strip_prefix,
    with_extension,
};
use crate::props::{PropsWikiBacklink, PropsWikiTreeNode};
use crate::strings::{chars_of, owned, push_char, same_text};

verus! {

/// A directory path as the hierarchy names it: with a trailing `/`.
pub open spec fn normalized(p: Seq<char>) -> Seq<char> {
    if p.len() > 0 && p.last() == '/' {
        p
    } else {
        p.push('/')
    }
}

/// `q`, the parent of `p`, is shorter than `p`, by two or more unless it is
/// empty or ends with `/`.
pub open spec fn shrinks(p: Seq<char>, q: Seq<char>) -> bool {
    q.len() < p.len() && (q.len() == 0 || q.last() == '/' || q.len() + 1 < p.len())
}

/// `ptrs` are the paths met walking up from `href` by `Utf8Path::parent`,
/// and `chain` the (parent, child) facts recorded on the way: each parent
/// normalized, each child the href itself or the previous parent. The walk
/// stops at a path without parent, at an empty parent, or after reaching
/// `/`.
pub open spec fn chain_along(
    href: Seq<char>,
    ptrs: Seq<Seq<char>>,
    chain: Seq<(Seq<char>, Seq<char>)>,
) -> bool {
    let n = chain.len() as int;
    &&& ptrs.len() == n + 1
    &&& ptrs[0] == href
    &&& forall|k: int|
        0 <= k < n ==> path_parent(#[trigger] ptrs[k]) == Some(ptrs[k + 1]) && ptrs[k + 1].len()
            > 0 && shrinks(ptrs[k], ptrs[k + 1])
    &&& forall|k: int|
        0 <= k < n ==> #[trigger] chain[k] == (
            normalized(ptrs[k + 1]),
            if k == 0 {
                href
            } else {
                normalized(ptrs[k])
            },
        )
    &&& forall|k: int| 0 < k < n ==> #[trigger] ptrs[k] != "/"@
    &&& {
        ||| n > 0 && ptrs[n] == "/"@
        ||| path_parent(ptrs[n]) is None
        ||| path_parent(ptrs[n]) == Some(Seq::<char>::empty())
    }
}

/// `chain` lists the hierarchy facts for the page at `href`, from the page
/// up to the root.
pub open spec fn is_parent_chain(href: Seq<char>, chain: Seq<(Seq<char>, Seq<char>)>) -> bool {
    exists|ptrs: Seq<Seq<char>>| chain_along(href, ptrs, chain)
}

/// The views of pairs of strings.
pub open spec fn pair_views(v: Seq<(String, String)>) -> Seq<(Seq<char>, Seq<char>)> {
    v.map_values(|p: (String, String)| (p.0@, p.1@))
}

/// `p` with a trailing `/`, unless it has one.
pub fn normalize(p: &str) -> (r: String)
    ensures
        r@ == normalized(p@),
{
    let cs = chars_of(p);
    let mut r = owned(p);
    if cs.len() == 0 || cs[cs.len() - 1] != '/' {
        push_char(&mut r, '/');
    }
    r
}

/// The hierarchy facts for the page at `href`: each ancestor path (with a
/// trailing `/`) above the path below it, from the page up to the root.
pub fn parent_chain(href: &str) -> (r: Vec<(String, String)>)
    ensures
        is_parent_chain(href@, pair_views(r@)),
{
    let mut chain: Vec<(String, String)> = Vec::new();
    let mut ptr: String = owned(href);
    let mut child: String = owned(href);
    let ghost mut ptrs: Seq<Seq<char>> = seq![href@];
    loop
        invariant_except_break
            ptrs.len() == chain@.len() + 1,
            ptrs[0] == href@,
            ptrs.last() == ptr@,
            child@ == if chain@.len() == 0 {
                href@
            } else {
                normalized(ptr@)
            },
            forall|k: int|
                0 <= k < chain@.len() ==> path_parent(#[trigger] ptrs[k]) == Some(ptrs[k + 1])
                    && ptrs[k + 1].len() > 0 && shrinks(ptrs[k], ptrs[k + 1]),
            forall|k: int|
                0 <= k < chain@.len() ==> #[trigger] pair_views(chain@)[k] == (
                    normalized(ptrs[k + 1]),
                    if k == 0 {
                        href@
                    } else {
                        normalized(ptrs[k])
                    },
                ),
            forall|k: int| 0 < k < ptrs.len() ==> #[trigger] ptrs[k] != "/"@,
        ensures
            chain_along(href@, ptrs, pair_views(chain@)),
        decreases ptr@.len(),
    {
        let par = match parent(ptr.as_str()) {
            Some(q) => q,
            None => {
                break;
            },
        };
        if par.as_str().is_empty() {
            assert(par@ =~= Seq::<char>::empty());
            break;
        }
        let norm = normalize(par.as_str());
        let ghost old_chain = chain@;
        chain.push((owned(norm.as_str()), child));
        child = norm;
        proof {
            assert(pair_views(chain@) =~= pair_views(old_chain).push((normalized(par@), if old_chain.len() == 0 { href@ } else { normalized(ptr@) })));
            ptrs = ptrs.push(par@);
        }
        ptr = par;
        if same_text(ptr.as_str(), "/") {
            break;
        }
    }
    proof {
        assert(chain_along(href@, ptrs, pair_views(chain@)));
    }
    chain
}

} // verus!

verus! {

/// Records the hierarchy facts of the page at `href`.
pub fn add_hierarchy(datalog: &mut Datalog, href: &str)
    requires
        old(datalog).wf(),
    ensures
        final(datalog).wf(),
        exists|chain: Seq<(Seq<char>, Seq<char>)>|
            is_parent_chain(href@, chain) && final(datalog).parents() == old(datalog).parents()
                + chain,
        final(datalog).links() == old(datalog).links(),
        deepening(old(datalog).parents()) ==> deepening(final(datalog).parents()),
{
    let chain = parent_chain(href);
    let ghost start = datalog.parents();
    let ghost cv = pair_views(chain@);
    for k in 0..chain.len()
        invariant
            datalog.wf(),
            cv == pair_views(chain@),
            datalog.parents() == start + cv.take(k as int),
            datalog.links() == old(datalog).links(),
            start == old(datalog).parents(),
    {
        datalog.add_parent(chain[k].0.as_str(), chain[k].1.as_str());
        proof {
            assert(cv.take(k + 1) =~= cv.take(k as int).push(cv[k as int]));
        }
    }
    proof {
        assert(cv.take(chain@.len() as int) =~= cv);
        lemma_chain_deepens(href@, cv);
        let all = datalog.parents();
        if deepening(start) {
            assert forall|p: Seq<char>, c: Seq<char>| all.contains((p, c)) implies p.len() < c.len() by {
                let i = choose|i: int| 0 <= i < all.len() && all[i] == (p, c);
                if i < start.len() {
                    assert(start[i] == (p, c));
                    assert(start.contains((p, c)));
                } else {
                    assert(cv[i - start.len()] == (p, c));
                }
            }
        }
    }
}

/// The links from `source` to those of `refs` that are among `known`, in
/// the order of `refs`.
pub open spec fn known_links(
    source: Seq<char>,
    refs: Seq<Seq<char>>,
    known: Seq<Seq<char>>,
) -> Seq<(Seq<char>, Seq<char>)>
    decreases refs.len(),
{
    if refs.len() == 0 {
        Seq::empty()
    } else if known.contains(refs.last()) {
        known_links(source, refs.drop_last(), known).push((source, refs.last()))
    } else {
        known_links(source, refs.drop_last(), known)
    }
}

/// Whether `known` holds `s`.
pub fn holds(known: &[String], s: &str) -> (r: bool)
    ensures
        r == views(known@).contains(s@),
{
    let mut i: usize = 0;
    while i < known.len()
        invariant
            i <= known@.len(),
            forall|k: int| 0 <= k < i ==> known@[k]@ != s@,
        decreases known@.len() - i,
    {
        if same_text(known[i].as_str(), s) {
            assert(views(known@)[i as int] == s@);
            return true;
        }
        i = i + 1;
    }
    proof {
        if views(known@).contains(s@) {
            let k = choose|k: int| 0 <= k < views(known@).len() && views(known@)[k] == s@;
            assert(known@[k]@ == s@);
        }
    }
    false
}

/// Records the links of the page at `source` to those of `refs` that lead
/// to known pages.
pub fn add_known_links(datalog: &mut Datalog, source: &str, refs: &[String], known: &[String])
    requires
        old(datalog).wf(),
    ensures
        final(datalog).wf(),
        final(datalog).links() == old(datalog).links() + known_links(
            source@,
            views(refs@),
            views(known@),
        ),
        final(datalog).parents() == old(datalog).parents(),
{
    for k in 0..refs.len()
        invariant
            datalog.wf(),
            datalog.links() == old(datalog).links() + known_links(
                source@,
                views(refs@.take(k as int)),
                views(known@),
            ),
            datalog.parents() == old(datalog).parents(),
    {
        proof {
            assert(views(refs@.take(k + 1)).drop_last() =~= views(refs@.take(k as int)));
            assert(views(refs@.take(k + 1)).last() == refs@[k as int]@);
        }
        if holds(known, refs[k].as_str()) {
            datalog.add_link(source, refs[k].as_str());
        }
    }
    proof {
        assert(refs@.take(refs@.len() as int) =~= refs@);
    }
}

} // verus!

verus! {

/// The title that `resolved` gives the page at `href`; where several
/// entries name it, the last one counts.
pub open spec fn title_for(resolved: Seq<(String, String)>, href: Seq<char>) -> Option<Seq<char>>
    decreases resolved.len(),
{
    if resolved.len() == 0 {
        None
    } else if resolved.last().0@ == href {
        Some(resolved.last().1@)
    } else {
        title_for(resolved.drop_last(), href)
    }
}

/// `s` without the `/` characters it ends with.
pub open spec fn trimmed(s: Seq<char>) -> Seq<char>
    decreases s.len(),
{
    if s.len() > 0 && s.last() == '/' {
        trimmed(s.drop_last())
    } else {
        s
    }
}

/// What follows the last `/` of `s` (all of `s` without one).
pub open spec fn last_segment(s: Seq<char>) -> Seq<char>
    decreases s.len(),
{
    if s.len() == 0 {
        s
    } else if s.last() == '/' {
        Seq::empty()
    } else {
        last_segment(s.drop_last()).push(s.last())
    }
}

/// The name shown for the page at `href`: its title when it is a known
/// page, else the last segment of its path.
pub open spec fn node_name(resolved: Seq<(String, String)>, href: Seq<char>) -> Seq<char> {
    match title_for(resolved, href) {
        Some(t) => t,
        None => last_segment(trimmed(href)),
    }
}

/// Whether `prefix` begins `s`.
pub open spec fn begins(s: Seq<char>, prefix: Seq<char>) -> bool {
    prefix.len() <= s.len() && s.take(prefix.len() as int) == prefix
}

/// Whether the tree opens the node: it lies on the way to the active page,
/// or it is no page of its own.
pub open spec fn expands(active: Seq<char>, n: PropsWikiTreeNode) -> bool {
    begins(active, n.href@) || !n.is_link
}

/// The nodes stand for the children of `parent`, each once, in the order of
/// their paths.
pub open spec fn lists_children(
    nodes: Seq<PropsWikiTreeNode>,
    parent: Seq<char>,
    parents: Seq<(Seq<char>, Seq<char>)>,
) -> bool {
    &&& forall|k: int, l: int| 0 <= k < l < nodes.len() ==> text_less(nodes[k].href@, nodes[l].href@)
    &&& forall|c: Seq<char>|
        parents.contains((parent, c)) <==> exists|k: int|
            0 <= k < nodes.len() && (#[trigger] nodes[k]).href@ == c
}

/// `nodes` is the page tree under `parent` as seen from the page `active`:
/// the children of `parent` in order, each named, marked as a page of its
/// own or not and as the active page or not, and opened to its own children
/// where it expands.
pub open spec fn is_tree(
    nodes: Seq<PropsWikiTreeNode>,
    active: Seq<char>,
    parent: Seq<char>,
    resolved: Seq<(String, String)>,
    parents: Seq<(Seq<char>, Seq<char>)>,
) -> bool
    decreases nodes,
{
    &&& lists_children(nodes, parent, parents)
    &&& forall|k: int|
        0 <= k < nodes.len() ==> {
            let n = #[trigger] nodes[k];
            &&& n.name@ == node_name(resolved, n.href@)
            &&& n.is_link == title_for(resolved, n.href@) is Some
            &&& n.is_current == (active == n.href@)
            &&& if expands(active, n) {
                is_tree(n.children@, active, n.href@, resolved, parents)
            } else {
                n.children@.len() == 0
            }
        }
}

/// `rank` falls from every parent to each of its children.
pub open spec fn ranks(parents: Seq<(Seq<char>, Seq<char>)>, rank: spec_fn(Seq<char>) -> nat) -> bool {
    forall|p: Seq<char>, c: Seq<char>| parents.contains((p, c)) ==> rank(c) < rank(p)
}

/// The hierarchy has no cycle: some ranking of the paths falls from every
/// parent to each of its children.
pub open spec fn acyclic(parents: Seq<(Seq<char>, Seq<char>)>) -> bool {
    exists|rank: spec_fn(Seq<char>) -> nat| ranks(parents, rank)
}

/// A ranking that falls along the hierarchy, where there is one.
pub open spec fn a_ranking(parents: Seq<(Seq<char>, Seq<char>)>) -> spec_fn(Seq<char>) -> nat {
    choose|rank: spec_fn(Seq<char>) -> nat| ranks(parents, rank)
}

/// A hierarchy whose child paths are longer than their parents' has no
/// cycle.
pub proof fn lemma_deepening_acyclic(parents: Seq<(Seq<char>, Seq<char>)>)
    requires
        deepening(parents),
    ensures
        acyclic(parents),
{
    let top = longest_child(parents);
    let rank = |x: Seq<char>| (top + 1 - x.len()) as nat;
    assert forall|p: Seq<char>, c: Seq<char>| parents.contains((p, c)) implies rank(c) < rank(p) by {
        lemma_longest_child(parents, p, c);
    }
    assert(ranks(parents, rank));
}

/// Every child path is longer than its parent's path, as paths further
/// down the hierarchy are.
pub open spec fn deepening(parents: Seq<(Seq<char>, Seq<char>)>) -> bool {
    forall|p: Seq<char>, c: Seq<char>| parents.contains((p, c)) ==> p.len() < c.len()
}

/// The length of the longest child path.
pub open spec fn longest_child(parents: Seq<(Seq<char>, Seq<char>)>) -> nat
    decreases parents.len(),
{
    if parents.len() == 0 {
        0
    } else {
        let rest = longest_child(parents.drop_last());
        if parents.last().1.len() > rest {
            parents.last().1.len()
        } else {
            rest
        }
    }
}

proof fn lemma_longest_child(parents: Seq<(Seq<char>, Seq<char>)>, p: Seq<char>, c: Seq<char>)
    requires
        parents.contains((p, c)),
    ensures
        c.len() <= longest_child(parents),
    decreases parents.len(),
{
    if parents.last() != (p, c) {
        let k = choose|k: int| 0 <= k < parents.len() && parents[k] == (p, c);
        assert(parents.drop_last()[k] == (p, c));
        lemma_longest_child(parents.drop_last(), p, c);
    }
}

/// The title `resolved` gives the page at `href`.
pub fn lookup_title(resolved: &[(String, String)], href: &str) -> (r: Option<String>)
    ensures
        match r {
            Some(t) => title_for(resolved@, href@) == Some(t@),
            None => title_for(resolved@, href@) is None,
        },
{
    let mut i = resolved.len();
    proof {
        assert(resolved@.take(resolved@.len() as int) =~= resolved@);
    }
    while i > 0
        invariant
            i <= resolved@.len(),
            title_for(resolved@, href@) == title_for(resolved@.take(i as int), href@),
        decreases i,
    {
        proof {
            assert(resolved@.take(i as int).drop_last() =~= resolved@.take(i - 1));
        }
        if same_text(resolved[i - 1].0.as_str(), href) {
            return Some(resolved[i - 1].1.clone());
        }
        i = i - 1;
    }
    None
}

/// Whether `prefix` begins `s` (`str::starts_with`).
pub fn starts_with(s: &str, prefix: &str) -> (r: bool)
    ensures
        r == begins(s@, prefix@),
{
    let a = chars_of(s);
    let b = chars_of(prefix);
    if b.len() > a.len() {
        return false;
    }
    let mut i: usize = 0;
    while i < b.len()
        invariant
            a@ == s@,
            b@ == prefix@,
            b@.len() <= a@.len(),
            i <= b@.len(),
            forall|k: int| 0 <= k < i ==> a@[k] == b@[k],
        decreases b@.len() - i,
    {
        if a[i] != b[i] {
            assert(s@.take(prefix@.len() as int)[i as int] != prefix@[i as int]);
            return false;
        }
        i = i + 1;
    }
    assert(s@.take(prefix@.len() as int) =~= prefix@);
    true
}

/// The last segment of `s` once its trailing `/` characters are removed.
pub fn tail_name(s: &str) -> (r: String)
    ensures
        r@ == last_segment(trimmed(s@)),
{
    let cs = chars_of(s);
    let mut end = cs.len();
    proof {
        assert(s@.take(s@.len() as int) =~= s@);
    }
    while end > 0 && cs[end - 1] == '/'
        invariant
            cs@ == s@,
            end <= cs@.len(),
            trimmed(s@) == trimmed(s@.take(end as int)),
        decreases end,
    {
        proof {
            assert(s@.take(end as int).drop_last() =~= s@.take(end - 1));
        }
        end = end - 1;
    }
    proof {
        if end > 0 {
            assert(s@.take(end as int).last() != '/');
        }
        assert(trimmed(s@.take(end as int)) == s@.take(end as int));
    }
    let mut start = end;
    while start > 0 && cs[start - 1] != '/'
        invariant
            cs@ == s@,
            start <= end <= cs@.len(),
            last_segment(s@.take(end as int)) == last_segment(s@.take(start as int)) + s@.subrange(
                start as int,
                end as int,
            ),
        decreases start,
    {
        proof {
            assert(s@.take(start as int).drop_last() =~= s@.take(start - 1));
            assert(s@.subrange(start - 1, end as int) =~= seq![s@[start - 1]] + s@.subrange(
                start as int,
                end as int,
            ));
            assert(last_segment(s@.take(start as int)) == last_segment(s@.take(start - 1)).push(
                s@[start - 1],
            ));
            assert(last_segment(s@.take(start - 1)).push(s@[start - 1]) + s@.subrange(
                start as int,
                end as int,
            ) =~= last_segment(s@.take(start - 1)) + s@.subrange(start - 1, end as int));
        }
        start = start - 1;
    }
    proof {
        assert(last_segment(s@.take(start as int)) =~= Seq::<char>::empty());
        assert(last_segment(s@.take(end as int)) =~= s@.subrange(start as int, end as int));
    }
    crate::strings::string_of(&cs, start, end)
}

/// The page tree under `parent_href` as seen from the page `active_href`:
/// the children of `parent_href` in the order of their paths, each named by
/// its title when `resolved` knows it and by the last segment of its path
/// otherwise, and opened to its own children where it lies on the way to the
/// active page or is no page of its own.
pub fn build_tree_nodes(
    active_href: &str,
    parent_href: &str,
    resolved: &[(String, String)],
    solution: &Solution,
) -> (r: Vec<PropsWikiTreeNode>)
    requires
        solution.wf(),
        acyclic(solution.parents()),
    ensures
        is_tree(r@, active_href@, parent_href@, resolved@, solution.parents()),
    decreases a_ranking(solution.parents())(parent_href@),
{
    let ghost parents = solution.parents();
    let kids = match solution.get_children(parent_href) {
        Some(kids) => kids,
        None => {
            let r: Vec<PropsWikiTreeNode> = Vec::new();
            proof {
                assert forall|c: Seq<char>| parents.contains((parent_href@, c)) <==> exists|k: int|
                    0 <= k < r@.len() && (#[trigger] r@[k]).href@ == c by {}
            }
            return r;
        },
    };
    let order = sorted_order(kids.as_slice());
    let ghost ks = text_views(kids@);
    let ghost p = index_ints(order@);
    let n = kids.len();
    proof {
        assert(ks == views_of_str(kids@));
        assert forall|k: int| 0 <= k < n implies #[trigger] order@[k] < n by {
            assert(p[k] == order@[k] as int);
        }
    }
    let mut r: Vec<PropsWikiTreeNode> = Vec::new();
    for k in 0..n
        invariant
            solution.wf(),
            acyclic(solution.parents()),
            parents == solution.parents(),
            n == kids@.len() == order@.len(),
            ks == text_views(kids@),
            p == index_ints(order@),
            is_sorted_order(ks, p),
            ks.no_duplicates(),
            forall|c: Seq<char>| ks.contains(c) <==> parents.contains((parent_href@, c)),
            forall|j: int| 0 <= j < n ==> #[trigger] order@[j] < n,
            r@.len() == k,
            forall|j: int| 0 <= j < k ==> (#[trigger] r@[j]).href@ == ks[p[j]],
            forall|j: int|
                0 <= j < k ==> {
                    let nd = #[trigger] r@[j];
                    &&& nd.name@ == node_name(resolved@, nd.href@)
                    &&& nd.is_link == title_for(resolved@, nd.href@) is Some
                    &&& nd.is_current == (active_href@ == nd.href@)
                    &&& if expands(active_href@, nd) {
                        is_tree(nd.children@, active_href@, nd.href@, resolved@, parents)
                    } else {
                        nd.children@.len() == 0
                    }
                },
    {
        proof {
            assert(p[k as int] == order@[k as int] as int);
        }
        let child: &str = kids[order[k]];
        proof {
            assert(ks[p[k as int]] == child@);
            assert(ks.contains(child@));
            assert(parents.contains((parent_href@, child@)));
            assert(ranks(parents, a_ranking(parents)));
        }
        let title = lookup_title(resolved, child);
        let is_link = title.is_some();
        let name = match title {
            Some(t) => t,
            None => tail_name(child),
        };
        let is_active_path = starts_with(active_href, child);
        let is_current = same_text(active_href, child);
        let children = if is_active_path || !is_link {
            build_tree_nodes(active_href, child, resolved, solution)
        } else {
            Vec::new()
        };
        r.push(PropsWikiTreeNode { href: owned(child), name, is_link, is_current, children });
    }
    proof {
        assert forall|a: int, b: int| 0 <= a < b < r@.len() implies text_less(
            r@[a].href@,
            r@[b].href@,
        ) by {
            assert(r@[a].href@ == ks[p[a]]);
            assert(r@[b].href@ == ks[p[b]]);
            assert(!text_less(ks[p[b]], ks[p[a]]));
            assert(p[a] != p[b]);
            assert(0 <= p[a] < n && 0 <= p[b] < n);
            assert(ks[p[a]] != ks[p[b]]);
            lemma_text_less_total(ks[p[a]], ks[p[b]]);
        }
        assert forall|c: Seq<char>| parents.contains((parent_href@, c)) <==> exists|k: int|
            0 <= k < r@.len() && (#[trigger] r@[k]).href@ == c by {
            if parents.contains((parent_href@, c)) {
                assert(ks.contains(c));
                let i = choose|i: int| 0 <= i < ks.len() && ks[i] == c;
                assert(exists|j: int| 0 <= j < n && p[j] == i) by {
                    lemma_permutation_onto(p, n as int, i);
                }
                let j = choose|j: int| 0 <= j < n && p[j] == i;
                assert(r@[j].href@ == c);
            }
            if exists|k: int| 0 <= k < r@.len() && (#[trigger] r@[k]).href@ == c {
                let k = choose|k: int| 0 <= k < r@.len() && (#[trigger] r@[k]).href@ == c;
                assert(ks[p[k]] == c);
                assert(ks.contains(c));
            }
        }
    }
    r
}

/// The views of string slices.
pub open spec fn views_of_str(v: Seq<&str>) -> Seq<Seq<char>> {
    v.map_values(|s: &str| s@)
}

/// A sequence of `n` distinct indices below `n` reaches every index.
proof fn lemma_permutation_onto(p: Seq<int>, n: int, i: int)
    requires
        p.len() == n,
        0 <= i < n,
        forall|k: int| 0 <= k < p.len() ==> 0 <= #[trigger] p[k] < n,
        forall|k: int, l: int| 0 <= k < l < p.len() ==> p[k] != p[l],
    ensures
        exists|j: int| 0 <= j < n && p[j] == i,
{
    if !(exists|j: int| 0 <= j < n && p[j] == i) {
        let s = p.to_set();
        assert(p.no_duplicates());
        p.unique_seq_to_set();
        assert(s.len() == n);
        assert(s.subset_of(Set::new(|x: int| 0 <= x < n).remove(i)));
        vstd::set_lib::lemma_int_range(0, n);
        assert(Set::new(|x: int| 0 <= x < n) =~= vstd::set_lib::set_int_range(0, n));
        vstd::set_lib::lemma_len_subset(s, vstd::set_lib::set_int_range(0, n).remove(i));
    }
}

} // verus!

verus! {

/// The page that `docs` holds at `href`: its title and whether it is a
/// markdown page (else a PDF page); where several entries name it, the last
/// one counts.
pub open spec fn doc_for(docs: Seq<(String, String, bool)>, href: Seq<char>) -> Option<(Seq<char>, bool)>
    decreases docs.len(),
{
    if docs.len() == 0 {
        None
    } else if docs.last().0@ == href {
        Some((docs.last().1@, docs.last().2))
    } else {
        doc_for(docs.drop_last(), href)
    }
}

/// The backlinks shown for the pages at `hrefs`: those that are markdown
/// pages, with their titles, in order.
pub open spec fn backlink_entries(
    hrefs: Seq<Seq<char>>,
    docs: Seq<(String, String, bool)>,
) -> Seq<(Seq<char>, Seq<char>)>
    decreases hrefs.len(),
{
    if hrefs.len() == 0 {
        Seq::empty()
    } else {
        let rest = backlink_entries(hrefs.drop_last(), docs);
        match doc_for(docs, hrefs.last()) {
            Some((t, true)) => rest.push((hrefs.last(), t)),
            _ => rest,
        }
    }
}

/// What a backlink shows.
pub open spec fn backlink_view(b: PropsWikiBacklink) -> (Seq<char>, Seq<char>) {
    (b.href@, b.title@)
}

/// The page that `docs` holds at `href`.
pub fn lookup_doc(docs: &[(String, String, bool)], href: &str) -> (r: Option<(String, bool)>)
    ensures
        match r {
            Some(d) => doc_for(docs@, href@) == Some((d.0@, d.1)),
            None => doc_for(docs@, href@) is None,
        },
{
    let mut i = docs.len();
    proof {
        assert(docs@.take(docs@.len() as int) =~= docs@);
    }
    while i > 0
        invariant
            i <= docs@.len(),
            doc_for(docs@, href@) == doc_for(docs@.take(i as int), href@),
        decreases i,
    {
        proof {
            assert(docs@.take(i as int).drop_last() =~= docs@.take(i - 1));
        }
        if same_text(docs[i - 1].0.as_str(), href) {
            return Some((docs[i - 1].1.clone(), docs[i - 1].2));
        }
        i = i - 1;
    }
    None
}

/// The backlinks of a wiki page: of the pages that link to it, those that
/// are markdown pages, with their titles; `None` when nothing links to it.
pub fn wiki_backlinks(
    sources: Option<Vec<&str>>,
    docs: &[(String, String, bool)],
) -> (r: Option<Vec<PropsWikiBacklink>>)
    ensures
        match sources {
            None => r is None,
            Some(hrefs) => match r {
                Some(v) => v@.map_values(|b: PropsWikiBacklink| backlink_view(b))
                    == backlink_entries(views_of_str(hrefs@), docs@),
                None => false,
            },
        },
{
    match sources {
        None => None,
        Some(hrefs) => {
            let mut out: Vec<PropsWikiBacklink> = Vec::new();
            for k in 0..hrefs.len()
                invariant
                    out@.map_values(|b: PropsWikiBacklink| backlink_view(b)) == backlink_entries(
                        views_of_str(hrefs@.take(k as int)),
                        docs@,
                    ),
            {
                proof {
                    assert(views_of_str(hrefs@.take(k + 1)).drop_last() =~= views_of_str(
                        hrefs@.take(k as int),
                    ));
                    assert(views_of_str(hrefs@.take(k + 1)).last() == hrefs@[k as int]@);
                }
                let ghost before = out@;
                match lookup_doc(docs, hrefs[k]) {
                    Some((title, true)) => {
                        out.push(PropsWikiBacklink { href: owned(hrefs[k]), title });
                        proof {
                            assert(out@.map_values(|b: PropsWikiBacklink| backlink_view(b))
                                =~= before.map_values(|b: PropsWikiBacklink| backlink_view(b)).push(
                                (hrefs@[k as int]@, title@),
                            ));
                        }
                    },
                    _ => {},
                }
            }
            proof {
                assert(hrefs@.take(hrefs@.len() as int) =~= hrefs@);
            }
            Some(out)
        },
    }
}

/// Where the PDF page built from the Typst file at `path` is published: the
/// path below `content/`, without extension, from the root; `None` where the
/// file does not lie under `content/`.
pub fn typst_href(path: &str) -> (r: Option<String>)
    ensures
        match path_strip_prefix(path@, "content/"@) {
            Some(rel) => r is Some && r.unwrap()@ == path_join(
                "/"@,
                path_with_extension(rel, ""@),
            ),
            None => r is None,
        },
{
    match strip_prefix(path, "content/") {
        Some(rel) => {
            proof {
                reveal_strlit("");
            }
            let bare = with_extension(rel.as_str(), "");
            Some(join("/", bare.as_str()))
        },
        None => None,
    }
}

} // verus!

verus! {

/// The title of the PDF page built from the Typst file at `path`: the file's
/// name, where the path ends in one.
pub fn typst_title(path: &str) -> (r: Option<String>)
    ensures
        match r {
            Some(t) => path_file_name(path@) == Some(t@),
            None => path_file_name(path@) is None,
        },
{
    file_name(path)
}

} // verus!

verus! {

/// Every fact of a parent chain puts a shorter path above a longer one.
pub proof fn lemma_chain_deepens(href: Seq<char>, chain: Seq<(Seq<char>, Seq<char>)>)
    requires
        is_parent_chain(href, chain),
    ensures
        forall|k: int| 0 <= k < chain.len() ==> (#[trigger] chain[k]).0.len() < chain[k].1.len(),
{
    let ptrs = choose|ptrs: Seq<Seq<char>>| chain_along(href, ptrs, chain);
    assert forall|k: int| 0 <= k < chain.len() implies (#[trigger] chain[k]).0.len() < chain[k].1.len() by {
        assert(path_parent(ptrs[k]) == Some(ptrs[k + 1]) && ptrs[k + 1].len() > 0 && shrinks(ptrs[k], ptrs[k + 1]));
        assert(chain[k] == (normalized(ptrs[k + 1]), if k == 0 { href } else { normalized(ptrs[k]) }));
    }
}

/// The hierarchy places a page only under directory paths: every parent
/// recorded for it ends with `/`, and each recorded parent is in turn the
/// child of the next fact up the chain.
pub proof fn lemma_chain_parents_are_directories(href: Seq<char>, chain: Seq<(Seq<char>, Seq<char>)>)
    requires
        is_parent_chain(href, chain),
    ensures
        forall|k: int|
            0 <= k < chain.len() ==> (#[trigger] chain[k]).0.len() > 0 && chain[k].0.last() == '/',
        forall|k: int| 0 < k < chain.len() ==> (#[trigger] chain[k]).1 == chain[k - 1].0,
        chain.len() > 0 ==> chain[0].1 == href,
{
    let ptrs = choose|ptrs: Seq<Seq<char>>| chain_along(href, ptrs, chain);
    assert forall|k: int| 0 <= k < chain.len() implies (#[trigger] chain[k]).0.len() > 0
        && chain[k].0.last() == '/' by {
        assert(chain[k] == (normalized(ptrs[k + 1]), if k == 0 { href } else { normalized(ptrs[k]) }));
    }
    assert forall|k: int| 0 < k < chain.len() implies (#[trigger] chain[k]).1 == chain[k - 1].0 by {
        assert(chain[k] == (normalized(ptrs[k + 1]), normalized(ptrs[k])));
        assert(chain[k - 1] == (normalized(ptrs[k]), if k - 1 == 0 { href } else { normalized(ptrs[k - 1]) }));
    }
    if chain.len() > 0 {
        assert(chain[0] == (normalized(ptrs[1]), href));
    }
}


/// `facts` are the hierarchy facts recorded for `hrefs`, in order: a parent
/// chain for each.
pub open spec fn hierarchy_of(hrefs: Seq<Seq<char>>, facts: Seq<(Seq<char>, Seq<char>)>) -> bool
    decreases hrefs.len(),
{
    if hrefs.len() == 0 {
        facts.len() == 0
    } else {
        exists|k: int|
            0 <= k <= facts.len() && hierarchy_of(hrefs.drop_last(), #[trigger] facts.take(k))
                && is_parent_chain(hrefs.last(), facts.skip(k))
    }
}

/// The links that the pages record: for each page in order, its links to
/// those of its refs that are known pages.
pub open spec fn garden_links(pages: Seq<(Seq<char>, Seq<Seq<char>>)>, known: Seq<Seq<char>>) -> Seq<(Seq<char>, Seq<char>)>
    decreases pages.len(),
{
    if pages.len() == 0 {
        seq![]
    } else {
        garden_links(pages.drop_last(), known) + known_links(pages.last().0, pages.last().1, known)
    }
}

/// The hrefs of the PDF pages, then those of the markdown pages.
pub open spec fn garden_hrefs(typst: Seq<Seq<char>>, pages: Seq<(Seq<char>, Seq<Seq<char>>)>) -> Seq<Seq<char>> {
    typst + pages.map_values(|p: (Seq<char>, Seq<Seq<char>>)| p.0)
}

/// The pages as plain values: each href with its refs.
pub open spec fn pages_view(pages: Seq<(String, Vec<String>)>) -> Seq<(Seq<char>, Seq<Seq<char>>)> {
    pages.map_values(|p: (String, Vec<String>)| (p.0@, views(p.1@)))
}

/// The relations of the digital garden: the hierarchy of each PDF page
/// (`typst`, by href) and of each markdown page, and the links of each
/// markdown page (`pages`, as href and the hrefs its wiki links resolved to)
/// to the known pages among them. Each fact is recorded in that order; the
/// hierarchy puts every page under a shorter path, so it has no cycle.
pub fn garden(typst: &Vec<String>, pages: &Vec<(String, Vec<String>)>, known: &Vec<String>) -> (r: Solution)
    ensures
        r.wf(),
        r.links() == garden_links(pages_view(pages@), views(known@)),
        hierarchy_of(garden_hrefs(views(typst@), pages_view(pages@)), r.parents()),
        deepening(r.parents()),
        acyclic(r.parents()),
{
    let mut datalog = Datalog::new();
    let ghost pv = pages_view(pages@);
    let ghost tv = views(typst@);
    proof {
        assert(views(typst@).take(0) =~= seq![]);
    }
    let mut i: usize = 0;
    while i < typst.len()
        invariant
            tv == views(typst@),
            i <= typst@.len(),
            datalog.wf(),
            datalog.links() == Seq::<(Seq<char>, Seq<char>)>::empty(),
            hierarchy_of(tv.take(i as int), datalog.parents()),
            deepening(datalog.parents()),
        decreases typst@.len() - i,
    {
        let ghost before = datalog.parents();
        add_hierarchy(&mut datalog, typst[i].as_str());
        proof {
            let h = tv.take(i + 1);
            assert(h.drop_last() =~= tv.take(i as int));
            assert(h.last() == typst@[i as int]@);
            let chain = choose|chain: Seq<(Seq<char>, Seq<char>)>|
                is_parent_chain(typst@[i as int]@, chain) && datalog.parents() == before + chain;
            let facts = datalog.parents();
            assert(facts.take(before.len() as int) =~= before);
            assert(facts.skip(before.len() as int) =~= chain);
        }
        i = i + 1;
    }
    proof {
        assert(tv.take(i as int) =~= tv);
        assert(pv.take(0) =~= seq![]);
        assert(garden_hrefs(tv, pv.take(0)) =~= tv);
        assert(garden_links(pv.take(0), views(known@)) =~= seq![]);
    }
    let mut j: usize = 0;
    while j < pages.len()
        invariant
            tv == views(typst@),
            pv == pages_view(pages@),
            j <= pages@.len(),
            datalog.wf(),
            datalog.links() == garden_links(pv.take(j as int), views(known@)),
            hierarchy_of(garden_hrefs(tv, pv.take(j as int)), datalog.parents()),
            deepening(datalog.parents()),
        decreases pages@.len() - j,
    {
        let (href, refs) = (&pages[j].0, &pages[j].1);
        add_known_links(&mut datalog, href.as_str(), refs.as_slice(), known.as_slice());
        let ghost before = datalog.parents();
        add_hierarchy(&mut datalog, href.as_str());
        proof {
            let p = pv.take(j + 1);
            assert(p.drop_last() =~= pv.take(j as int));
            assert(p.last() == (href@, views(refs@)));
            let h = garden_hrefs(tv, p);
            assert(h.drop_last() =~= garden_hrefs(tv, pv.take(j as int)));
            assert(h.last() == href@);
            let chain = choose|chain: Seq<(Seq<char>, Seq<char>)>|
                is_parent_chain(href@, chain) && datalog.parents() == before + chain;
            let facts = datalog.parents();
            assert(facts.take(before.len() as int) =~= before);
            assert(facts.skip(before.len() as int) =~= chain);
        }
        j = j + 1;
    }
    proof {
        assert(pv.take(j as int) =~= pv);
        lemma_deepening_acyclic(datalog.parents());
    }
    datalog.solve()
}


/// In a page tree, a node that is no page of its own is always opened to
/// the tree under it, and so is a node whose path begins the active page's;
/// any other node (a page off the way to the active page) has no children.
/// Each node is a page exactly when `resolved` gives it a title.
pub proof fn lemma_tree_opening(
    nodes: Seq<PropsWikiTreeNode>,
    active: Seq<char>,
    parent: Seq<char>,
    resolved: Seq<(String, String)>,
    parents: Seq<(Seq<char>, Seq<char>)>,
)
    requires
        is_tree(nodes, active, parent, resolved, parents),
    ensures
        forall|k: int|
            0 <= k < nodes.len() ==> (#[trigger] nodes[k]).is_link == title_for(resolved, nodes[k].href@) is Some,
        forall|k: int|
            0 <= k < nodes.len() && !(#[trigger] nodes[k]).is_link ==> is_tree(
                nodes[k].children@,
                active,
                nodes[k].href@,
                resolved,
                parents,
            ),
        forall|k: int|
            0 <= k < nodes.len() && nodes[k].href@.len() <= active.len() && active.take(
                nodes[k].href@.len() as int,
            ) == (#[trigger] nodes[k]).href@ ==> is_tree(nodes[k].children@, active, nodes[k].href@, resolved, parents),
        forall|k: int|
            0 <= k < nodes.len() && (#[trigger] nodes[k]).is_link && !(nodes[k].href@.len() <= active.len()
                && active.take(nodes[k].href@.len() as int) == nodes[k].href@) ==> nodes[k].children@.len() == 0,
{
}

} // verus!
