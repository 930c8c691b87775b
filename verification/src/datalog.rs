//! The relations of the digital garden: which page links to which, and which
//! page sits under which in the hierarchy.
//!
//! Facts are added under string keys (page hrefs) and interned to ids; solving
//! derives the backlinks (the reverse of links), the children (the reverse of
//! parents) and the co-citations (two pages linked from a common page).

use vstd::prelude::*;

use std::collections::HashMap;

use crate::strings::{owned, same_text};

verus! {

/// The names after interning `key`: unchanged when `key` is already there,
/// else `key` appended as the newest name.
pub open spec fn interned(names: Seq<Seq<char>>, key: Seq<char>) -> Seq<Seq<char>> {
    if names.contains(key) {
        names
    } else {
        names.push(key)
    }
}

/// The parent most recently recorded for `child` among `facts` (pairs of
/// parent and child), if any.
pub open spec fn last_parent(facts: Seq<(Seq<char>, Seq<char>)>, child: Seq<char>) -> Option<
    Seq<char>,
>
    decreases facts.len(),
{
    if facts.len() == 0 {
        None
    } else if facts.last().1 == child {
        Some(facts.last().0)
    } else {
        last_parent(facts.drop_last(), child)
    }
}

/// `found` lists, each once, exactly the first components of the pairs in
/// `facts` whose second component is `key`.
pub open spec fn exactly_sources(
    facts: Seq<(Seq<char>, Seq<char>)>,
    key: Seq<char>,
    found: Seq<Seq<char>>,
) -> bool {
    &&& found.no_duplicates()
    &&& forall|s: Seq<char>| found.contains(s) <==> facts.contains((s, key))
}

/// What a backlink query over `links` for `key` may answer: nothing when no
/// link leads to `key`, else each page that links to `key`, once.
pub open spec fn backlinks_answer(
    links: Seq<(Seq<char>, Seq<char>)>,
    key: Seq<char>,
    r: Option<Seq<Seq<char>>>,
) -> bool {
    match r {
        None => forall|s: Seq<char>| !links.contains((s, key)),
        Some(v) => v.len() > 0 && exactly_sources(links, key, v),
    }
}

/// A query's answer as plain values.
pub open spec fn answer_view(r: Option<Vec<&str>>) -> Option<Seq<Seq<char>>> {
    match r {
        Some(v) => Some(str_views(v@)),
        None => None,
    }
}

/// Two answers to the same backlink query over the same links agree: both
/// are nothing, or both list the same pages. Both relation stores answer by
/// this rule, so for the same links they give the same backlinks.
pub proof fn lemma_backlink_answers_agree(
    links: Seq<(Seq<char>, Seq<char>)>,
    key: Seq<char>,
    a: Option<Seq<Seq<char>>>,
    b: Option<Seq<Seq<char>>>,
)
    requires
        backlinks_answer(links, key, a),
        backlinks_answer(links, key, b),
    ensures
        a is None <==> b is None,
        a matches Some(x) ==> (b matches Some(y) && x.to_set() == y.to_set()),
{
    match (a, b) {
        (Some(x), None) => {
            assert(x.contains(x[0]));
        },
        (None, Some(y)) => {
            assert(y.contains(y[0]));
        },
        (Some(x), Some(y)) => {
            assert(x.to_set() =~= y.to_set());
        },
        (None, None) => {},
    }
}

/// `found` lists, each once, exactly the second components of the pairs in
/// `facts` whose first component is `key`.
pub open spec fn exactly_targets(
    facts: Seq<(Seq<char>, Seq<char>)>,
    key: Seq<char>,
    found: Seq<Seq<char>>,
) -> bool {
    &&& found.no_duplicates()
    &&& forall|c: Seq<char>| found.contains(c) <==> facts.contains((key, c))
}

/// Some page links both to `a` and to `b`.
pub open spec fn co_cited(links: Seq<(Seq<char>, Seq<char>)>, a: Seq<char>, b: Seq<char>) -> bool {
    exists|w: Seq<char>| links.contains((w, a)) && links.contains((w, b))
}

/// Exactly `count` distinct pages link both to `a` and to `b`.
pub open spec fn co_citation_count(
    links: Seq<(Seq<char>, Seq<char>)>,
    a: Seq<char>,
    b: Seq<char>,
    count: nat,
) -> bool {
    exists|ws: Seq<Seq<char>>|
        {
            &&& ws.no_duplicates()
            &&& ws.len() == count
            &&& forall|w: Seq<char>| #[trigger]
                ws.contains(w) <==> (links.contains((w, a)) && links.contains((w, b)))
        }
}

/// The views of a sequence of strings.
pub open spec fn views(v: Seq<String>) -> Seq<Seq<char>> {
    v.map_values(|s: String| s@)
}

/// The views of a sequence of string slices.
pub open spec fn str_views(v: Seq<&str>) -> Seq<Seq<char>> {
    v.map_values(|s: &str| s@)
}

/// Facts stored by interned ids, read back as pairs of names.
pub open spec fn named_pairs(names: Seq<Seq<char>>, ids: Seq<(usize, usize)>) -> Seq<
    (Seq<char>, Seq<char>),
> {
    ids.map_values(|p: (usize, usize)| (names[p.0 as int], names[p.1 as int]))
}

/// Every id in `ids` is below `n`.
pub open spec fn ids_below(ids: Seq<(usize, usize)>, n: int) -> bool {
    forall|i: int| #![trigger ids[i]] 0 <= i < ids.len() ==> ids[i].0 < n && ids[i].1 < n
}

/// The parent id most recently recorded for the child id `c`.
pub open spec fn last_parent_id(facts: Seq<(usize, usize)>, c: usize) -> Option<usize>
    decreases facts.len(),
{
    if facts.len() == 0 {
        None
    } else if facts.last().1 == c {
        Some(facts.last().0)
    } else {
        last_parent_id(facts.drop_last(), c)
    }
}

pub(crate) proof fn lemma_named_pairs_extend(
    names: Seq<Seq<char>>,
    names2: Seq<Seq<char>>,
    ids: Seq<(usize, usize)>,
)
    requires
        names.len() <= names2.len(),
        forall|i: int| 0 <= i < names.len() ==> names2[i] == names[i],
        ids_below(ids, names.len() as int),
    ensures
        named_pairs(names2, ids) == named_pairs(names, ids),
{
    assert forall|i: int| 0 <= i < ids.len() implies named_pairs(names2, ids)[i] == named_pairs(
        names,
        ids,
    )[i] by {
        assert(ids[i].0 < names.len() && ids[i].1 < names.len());
    }
    assert(named_pairs(names2, ids) =~= named_pairs(names, ids));
}

/// With distinct names, a named pair is among the named facts exactly when
/// the pair of their ids is among the id facts.
pub(crate) proof fn lemma_named_contains(names: Seq<Seq<char>>, ids: Seq<(usize, usize)>, a: usize, b: usize)
    requires
        names.no_duplicates(),
        ids_below(ids, names.len() as int),
        a < names.len(),
        b < names.len(),
    ensures
        named_pairs(names, ids).contains((names[a as int], names[b as int])) <==> ids.contains(
            (a, b),
        ),
{
    let np = named_pairs(names, ids);
    if ids.contains((a, b)) {
        let i = choose|i: int| 0 <= i < ids.len() && ids[i] == (a, b);
        assert(np[i] == (names[a as int], names[b as int]));
    }
    if np.contains((names[a as int], names[b as int])) {
        let i = choose|i: int| 0 <= i < np.len() && np[i] == (names[a as int], names[b as int]);
        assert(ids[i].0 < names.len() && ids[i].1 < names.len());
        assert(ids[i] == (a, b));
    }
}

/// Every named fact names two of the names.
pub(crate) proof fn lemma_named_in_names(names: Seq<Seq<char>>, ids: Seq<(usize, usize)>, x: Seq<char>, y: Seq<char>)
    requires
        ids_below(ids, names.len() as int),
        named_pairs(names, ids).contains((x, y)),
    ensures
        exists|a: usize, b: usize|
            a < names.len() && b < names.len() && names[a as int] == x && names[b as int] == y
                && ids.contains((a, b)),
{
    let np = named_pairs(names, ids);
    let i = choose|i: int| 0 <= i < np.len() && np[i] == (x, y);
    assert(ids[i].0 < names.len() && ids[i].1 < names.len());
    let a = ids[i].0;
    let b = ids[i].1;
    assert(names[a as int] == x && names[b as int] == y && ids.contains((a, b)));
}

/// The named most recent parent is the name of the most recent parent id.
proof fn lemma_last_parent_named(names: Seq<Seq<char>>, facts: Seq<(usize, usize)>, c: usize)
    requires
        names.no_duplicates(),
        ids_below(facts, names.len() as int),
        c < names.len(),
    ensures
        last_parent(named_pairs(names, facts), names[c as int]) == match last_parent_id(facts, c) {
            Some(p) => Some(names[p as int]),
            None => None::<Seq<char>>,
        },
    decreases facts.len(),
{
    if facts.len() > 0 {
        let np = named_pairs(names, facts);
        assert(np.drop_last() =~= named_pairs(names, facts.drop_last()));
        let f = facts.last();
        assert(facts[facts.len() - 1] == f);
        assert(f.0 < names.len() && f.1 < names.len());
        assert(np.last() == (names[f.0 as int], names[f.1 as int]));
        assert(ids_below(facts.drop_last(), names.len() as int)) by {
            assert forall|i: int| 0 <= i < facts.drop_last().len() implies facts.drop_last()[i].0
                < names.len() && facts.drop_last()[i].1 < names.len() by {
                assert(facts.drop_last()[i] == facts[i]);
            }
        }
        lemma_last_parent_named(names, facts.drop_last(), c);
    }
}

/// A key that is not among the names has no recorded parent.
proof fn lemma_last_parent_absent(names: Seq<Seq<char>>, facts: Seq<(usize, usize)>, c: Seq<char>)
    requires
        ids_below(facts, names.len() as int),
        !names.contains(c),
    ensures
        last_parent(named_pairs(names, facts), c) is None,
    decreases facts.len(),
{
    if facts.len() > 0 {
        let np = named_pairs(names, facts);
        assert(np.drop_last() =~= named_pairs(names, facts.drop_last()));
        let f = facts.last();
        assert(facts[facts.len() - 1] == f);
        assert(f.0 < names.len() && f.1 < names.len());
        assert(np.last().1 == names[f.1 as int]);
        assert(ids_below(facts.drop_last(), names.len() as int)) by {
            assert forall|i: int| 0 <= i < facts.drop_last().len() implies facts.drop_last()[i].0
                < names.len() && facts.drop_last()[i].1 < names.len() by {
                assert(facts.drop_last()[i] == facts[i]);
            }
        }
        lemma_last_parent_absent(names, facts.drop_last(), c);
    }
}

/// The most recent parent id is one of the recorded ids.
proof fn lemma_last_parent_id_below(facts: Seq<(usize, usize)>, c: usize, n: int)
    requires
        ids_below(facts, n),
    ensures
        last_parent_id(facts, c) matches Some(p) ==> p < n,
    decreases facts.len(),
{
    if facts.len() > 0 {
        assert(facts[facts.len() - 1] == facts.last());
        assert(ids_below(facts.drop_last(), n)) by {
            assert forall|i: int| 0 <= i < facts.drop_last().len() implies facts.drop_last()[i].0
                < n && facts.drop_last()[i].1 < n by {
                assert(facts.drop_last()[i] == facts[i]);
            }
        }
        lemma_last_parent_id_below(facts.drop_last(), c, n);
    }
}

/// The first position of `key` among `names`, if it is there.
pub(crate) fn find_name(names: &Vec<String>, key: &str) -> (r: Option<usize>)
    ensures
        match r {
            Some(i) => i < names@.len() && names@[i as int]@ == key@,
            None => !views(names@).contains(key@),
        },
{
    let mut i: usize = 0;
    while i < names.len()
        invariant
            i <= names@.len(),
            forall|j: int| 0 <= j < i ==> names@[j]@ != key@,
        decreases names@.len() - i,
    {
        if same_text(names[i].as_str(), key) {
            return Some(i);
        }
        i = i + 1;
    }
    proof {
        if views(names@).contains(key@) {
            let j = choose|j: int| 0 <= j < views(names@).len() && views(names@)[j] == key@;
            assert(names@[j]@ == key@);
        }
    }
    None
}

/// The id of `key` among `names`, appending `key` first when it is new.
pub(crate) fn intern_name(names: &mut Vec<String>, key: &str) -> (id: usize)
    requires
        views(old(names)@).no_duplicates(),
    ensures
        views(final(names)@) == interned(views(old(names)@), key@),
        views(final(names)@).no_duplicates(),
        old(names)@.len() <= final(names)@.len(),
        forall|i: int| 0 <= i < old(names)@.len() ==> final(names)@[i] == old(names)@[i],
        id < final(names)@.len(),
        final(names)@[id as int]@ == key@,
{
    match find_name(names, key) {
        Some(id) => {
            proof {
                assert(views(names@).contains(key@)) by {
                    assert(views(names@)[id as int] == key@);
                }
            }
            id
        },
        None => {
            let id = names.len();
            let ghost old_names = views(names@);
            names.push(owned(key));
            proof {
                let nv = views(names@);
                assert(nv =~= old_names.push(key@));
                assert forall|i: int, j: int|
                    0 <= i < nv.len() && 0 <= j < nv.len() && i != j implies nv[i] != nv[j] by {
                    if i < old_names.len() && j < old_names.len() {
                        assert(old_names[i] != old_names[j]);
                    } else if i == old_names.len() {
                        assert(nv[j] == old_names[j]);
                    } else {
                        assert(nv[i] == old_names[i]);
                    }
                }
            }
            id
        },
    }
}

/// The pairs of `v`, each once, in the order of their first occurrence.
pub(crate) fn dedup_pairs(v: &Vec<(usize, usize)>) -> (r: Vec<(usize, usize)>)
    ensures
        r@.no_duplicates(),
        forall|p: (usize, usize)| r@.contains(p) <==> v@.contains(p),
{
    let mut r: Vec<(usize, usize)> = Vec::new();
    let mut i: usize = 0;
    while i < v.len()
        invariant
            i <= v@.len(),
            r@.no_duplicates(),
            forall|p: (usize, usize)|
                r@.contains(p) <==> exists|j: int| 0 <= j < i && v@[j] == p,
        decreases v@.len() - i,
    {
        let p = v[i];
        let mut k: usize = 0;
        let mut seen = false;
        while k < r.len()
            invariant
                k <= r@.len(),
                seen <==> exists|m: int| 0 <= m < k && r@[m] == p,
            decreases r@.len() - k,
        {
            if r[k].0 == p.0 && r[k].1 == p.1 {
                seen = true;
            }
            k = k + 1;
        }
        let ghost old_r = r@;
        if !seen {
            r.push(p);
        }
        proof {
            assert forall|q: (usize, usize)|
                r@.contains(q) <==> exists|j: int| 0 <= j < i + 1 && v@[j] == q by {
                if r@.contains(q) {
                    let m = choose|m: int| 0 <= m < r@.len() && r@[m] == q;
                    if m < old_r.len() {
                        assert(old_r[m] == q);
                        assert(old_r.contains(q));
                        let j = choose|j: int| 0 <= j < i && v@[j] == q;
                        assert(0 <= j < i + 1 && v@[j] == q);
                    } else {
                        assert(v@[i as int] == q);
                    }
                }
                if exists|j: int| 0 <= j < i + 1 && v@[j] == q {
                    let j = choose|j: int| 0 <= j < i + 1 && v@[j] == q;
                    if j < i {
                        assert(old_r.contains(q));
                        let m = choose|m: int| 0 <= m < old_r.len() && old_r[m] == q;
                        assert(r@[m] == q);
                    } else if seen {
                        let m = choose|m: int| 0 <= m < k && r@[m] == p;
                        assert(r@[m] == q);
                    } else {
                        assert(r@[r@.len() - 1] == q);
                    }
                }
            }
            if !seen {
                assert forall|a: int, b: int| 0 <= a < r@.len() && 0 <= b < r@.len() && a != b
                    implies r@[a] != r@[b] by {
                    if a < old_r.len() && b < old_r.len() {
                    } else if a == old_r.len() {
                        assert(r@[b] == old_r[b]);
                    } else {
                        assert(r@[a] == old_r[a]);
                    }
                }
            }
        }
        i = i + 1;
    }
    proof {
        assert forall|q: (usize, usize)| r@.contains(q) <==> v@.contains(q) by {
            if v@.contains(q) {
                let j = choose|j: int| 0 <= j < v@.len() && v@[j] == q;
                assert(exists|j: int| 0 <= j < i && v@[j] == q);
            }
        }
    }
    r
}

/// Each pair of `v` with its components swapped.
fn flipped(v: &Vec<(usize, usize)>) -> (r: Vec<(usize, usize)>)
    ensures
        r@.len() == v@.len(),
        forall|i: int| 0 <= i < v@.len() ==> #[trigger] r@[i] == (v@[i].1, v@[i].0),
{
    let mut r: Vec<(usize, usize)> = Vec::new();
    let mut i: usize = 0;
    while i < v.len()
        invariant
            i <= v@.len(),
            r@.len() == i,
            forall|j: int| 0 <= j < i ==> #[trigger] r@[j] == (v@[j].1, v@[j].0),
        decreases v@.len() - i,
    {
        let (a, b) = v[i];
        r.push((b, a));
        i = i + 1;
    }
    r
}

/// A table's entry for `c`, if it has one.
pub open spec fn entry_of(m: Map<usize, usize>, c: usize) -> Option<usize> {
    if m.contains_key(c) {
        Some(m[c])
    } else {
        None
    }
}

/// For each child id, the parent id most recently recorded for it: each
/// fact, in order, sets the entry of its child.
fn last_parents(parents: &Vec<(usize, usize)>) -> (r: HashMap<usize, usize>)
    ensures
        forall|c: usize| entry_of(r@, c) == last_parent_id(parents@, c),
{
    broadcast use vstd::std_specs::hash::group_hash_axioms;

    let mut r: HashMap<usize, usize> = HashMap::new();
    let mut i: usize = 0;
    proof {
        assert(parents@.take(0).len() == 0);
    }
    while i < parents.len()
        invariant
            i <= parents@.len(),
            forall|c: usize| entry_of(r@, c) == last_parent_id(parents@.take(i as int), c),
        decreases parents@.len() - i,
    {
        let (p, c) = parents[i];
        let ghost before = r@;
        r.insert(c, p);
        proof {
            assert(r@ == before.insert(c, p));
            let pre = parents@.take(i as int);
            let post = parents@.take(i + 1);
            assert(post.drop_last() =~= pre);
            assert(post.last() == (p, c));
            assert forall|d: usize| entry_of(r@, d) == last_parent_id(post, d) by {
                if d != c {
                    assert(last_parent_id(post, d) == last_parent_id(pre, d));
                    assert(entry_of(r@, d) == entry_of(before, d));
                } else {
                    assert(r@.contains_key(c) && r@[c] == p);
                }
            }
        }
        i = i + 1;
    }
    proof {
        assert(parents@.take(parents@.len() as int) =~= parents@);
    }
    r
}

/// Collects the relations of the garden under string keys.
pub struct Datalog {
    /// Links as (source id, target id), in the order they were added.
    links: Vec<(usize, usize)>,
    /// Hierarchy as (parent id, child id), in the order it was added.
    parents: Vec<(usize, usize)>,
    /// The name of each id.
    reverser: Vec<String>,
}

impl Datalog {
    /// Every stored id names an interned key, and no key is interned twice.
    pub closed spec fn wf(self) -> bool {
        &&& views(self.reverser@).no_duplicates()
        &&& ids_below(self.links@, self.reverser@.len() as int)
        &&& ids_below(self.parents@, self.reverser@.len() as int)
    }

    /// The interned keys, in the order they were first seen.
    pub closed spec fn names(self) -> Seq<Seq<char>> {
        views(self.reverser@)
    }

    /// The links added so far, as (source, target), in order.
    pub closed spec fn links(self) -> Seq<(Seq<char>, Seq<char>)> {
        named_pairs(self.names(), self.links@)
    }

    /// The hierarchy facts added so far, as (parent, child), in order.
    pub closed spec fn parents(self) -> Seq<(Seq<char>, Seq<char>)> {
        named_pairs(self.names(), self.parents@)
    }

    /// An empty collection of facts.
    pub fn new() -> (r: Self)
        ensures
            r.wf(),
            r.names() == Seq::<Seq<char>>::empty(),
            r.links() == Seq::<(Seq<char>, Seq<char>)>::empty(),
            r.parents() == Seq::<(Seq<char>, Seq<char>)>::empty(),
    {
        let r = Datalog { links: Vec::new(), parents: Vec::new(), reverser: Vec::new() };
        assert(r.names() =~= Seq::<Seq<char>>::empty());
        assert(r.links() =~= Seq::<(Seq<char>, Seq<char>)>::empty());
        assert(r.parents() =~= Seq::<(Seq<char>, Seq<char>)>::empty());
        r
    }

    /// The id of `key`, interning it first when it is new.
    fn intern(&mut self, key: &str) -> (id: usize)
        requires
            old(self).wf(),
        ensures
            final(self).wf(),
            final(self).names() == interned(old(self).names(), key@),
            id < final(self).names().len(),
            final(self).names()[id as int] == key@,
            final(self).links() == old(self).links(),
            final(self).parents() == old(self).parents(),
            final(self).links@ == old(self).links@,
            final(self).parents@ == old(self).parents@,
    {
        let ghost old_names = views(self.reverser@);
        let id = intern_name(&mut self.reverser, key);
        proof {
            lemma_named_pairs_extend(old_names, views(self.reverser@), self.links@);
            lemma_named_pairs_extend(old_names, views(self.reverser@), self.parents@);
        }
        id
    }

    /// Records that the page `source` links to the page `target`.
    pub fn add_link(&mut self, source: &str, target: &str)
        requires
            old(self).wf(),
        ensures
            final(self).wf(),
            final(self).names() == interned(interned(old(self).names(), source@), target@),
            final(self).links() == old(self).links().push((source@, target@)),
            final(self).parents() == old(self).parents(),
    {
        let source_id = self.intern(source);
        let target_id = self.intern(target);
        let ghost mid = self.links();
        self.links.push((source_id, target_id));
        proof {
            assert(self.links() =~= mid.push((source@, target@)));
        }
    }

    /// Derives the backlinks, the children and the co-citations.
    pub fn solve(self) -> (r: Solution)
        requires
            self.wf(),
        ensures
            r.wf(),
            r.names() == self.names(),
            r.links() == self.links(),
            r.parents() == self.parents(),
    {
        let n = self.reverser.len();
        let link_set = dedup_pairs(&self.links);
        let flip = flipped(&self.parents);
        let child_set = dedup_pairs(&flip);
        let parent_of = last_parents(&self.parents);
        proof {
            assert forall|c: usize, p: usize|
                child_set@.contains((c, p)) <==> self.parents@.contains((p, c)) by {
                if flip@.contains((c, p)) {
                    let i = choose|i: int| 0 <= i < flip@.len() && flip@[i] == (c, p);
                    assert(self.parents@[i] == (p, c));
                }
                if self.parents@.contains((p, c)) {
                    let i = choose|i: int| 0 <= i < self.parents@.len() && self.parents@[i] == (p, c);
                    assert(flip@[i] == (c, p));
                }
            }
        }
        Solution {
            names: self.reverser,
            links: self.links,
            parents: self.parents,
            link_set,
            child_set,
            parent_of,
        }
    }

    /// Records that the page `parent` sits directly above the page `child`.
    pub fn add_parent(&mut self, parent: &str, child: &str)
        requires
            old(self).wf(),
        ensures
            final(self).wf(),
            final(self).names() == interned(interned(old(self).names(), parent@), child@),
            final(self).parents() == old(self).parents().push((parent@, child@)),
            final(self).links() == old(self).links(),
    {
        let p_id = self.intern(parent);
        let c_id = self.intern(child);
        let ghost mid = self.parents();
        self.parents.push((p_id, c_id));
        proof {
            assert(self.parents() =~= mid.push((parent@, child@)));
        }
    }
}

} // verus!

verus! {

/// The names of the ids `ids`.
pub open spec fn names_of(names: Seq<Seq<char>>, ids: Seq<usize>) -> Seq<Seq<char>> {
    ids.map_values(|i: usize| names[i as int])
}

/// Distinct ids name distinct keys when the keys are distinct.
proof fn lemma_names_of_no_dup(names: Seq<Seq<char>>, ids: Seq<usize>)
    requires
        names.no_duplicates(),
        ids.no_duplicates(),
        forall|k: int| 0 <= k < ids.len() ==> #[trigger] ids[k] < names.len(),
    ensures
        names_of(names, ids).no_duplicates(),
{
    let m = names_of(names, ids);
    assert forall|a: int, b: int| 0 <= a < m.len() && 0 <= b < m.len() && a != b implies m[a]
        != m[b] by {
        assert(ids[a] != ids[b]);
        assert(ids[a] < names.len() && ids[b] < names.len());
    }
}

/// The names, each once, of the ids `s` with `(s, key)` in `set`.
pub(crate) fn sources_in<'a>(names: &'a Vec<String>, set: &Vec<(usize, usize)>, key: usize) -> (r: Vec<&'a str>)
    requires
        views(names@).no_duplicates(),
        ids_below(set@, names@.len() as int),
        set@.no_duplicates(),
    ensures
        str_views(r@).no_duplicates(),
        forall|x: Seq<char>|
            str_views(r@).contains(x) <==> exists|s: usize|
                s < names@.len() && names@[s as int]@ == x && #[trigger] set@.contains((s, key)),
{
    let mut r: Vec<&'a str> = Vec::new();
    let ghost mut ids: Seq<usize> = Seq::empty();
    let mut i: usize = 0;
    while i < set.len()
        invariant
            i <= set@.len(),
            views(names@).no_duplicates(),
            ids_below(set@, names@.len() as int),
            set@.no_duplicates(),
            r@.len() == ids.len(),
            ids.no_duplicates(),
            forall|k: int| 0 <= k < ids.len() ==> #[trigger] ids[k] < names@.len(),
            forall|k: int| 0 <= k < ids.len() ==> r@[k]@ == #[trigger] names@[ids[k] as int]@,
            forall|s: usize| ids.contains(s) <==> exists|j: int| 0 <= j < i && set@[j] == (s, key),
        decreases set@.len() - i,
    {
        let (s, t) = set[i];
        proof {
            assert(set@[i as int].0 < names@.len());
        }
        if t == key {
            let ghost old_ids = ids;
            r.push(names[s].as_str());
            proof {
                ids = ids.push(s);
                if old_ids.contains(s) {
                    let j = choose|j: int| 0 <= j < i && set@[j] == (s, key);
                    assert(set@[j] == set@[i as int]);
                }
                assert forall|a: int, b: int| 0 <= a < ids.len() && 0 <= b < ids.len() && a != b
                    implies ids[a] != ids[b] by {
                    if a < old_ids.len() && b < old_ids.len() {
                    } else if a == old_ids.len() {
                        assert(ids[b] == old_ids[b]);
                        assert(old_ids.contains(ids[b]));
                    } else {
                        assert(ids[a] == old_ids[a]);
                        assert(old_ids.contains(ids[a]));
                    }
                }
                assert forall|k: int| 0 <= k < ids.len() implies r@[k]@ == #[trigger] names@[ids[k] as int]@ by {
                    if k < old_ids.len() {
                        assert(ids[k] == old_ids[k]);
                    }
                }
                assert forall|q: usize| ids.contains(q) <==> exists|j: int| 0 <= j < i + 1 && set@[j] == (q, key) by {
                    if ids.contains(q) && q != s {
                        let m = choose|m: int| 0 <= m < ids.len() && ids[m] == q;
                        assert(old_ids[m] == q);
                        assert(old_ids.contains(q));
                    }
                    if exists|j: int| 0 <= j < i + 1 && set@[j] == (q, key) {
                        let j = choose|j: int| 0 <= j < i + 1 && set@[j] == (q, key);
                        if j < i {
                            assert(old_ids.contains(q));
                            let m = choose|m: int| 0 <= m < old_ids.len() && old_ids[m] == q;
                            assert(ids[m] == q);
                        } else {
                            assert(ids[ids.len() - 1] == q);
                        }
                    }
                }
            }
        }
        i = i + 1;
    }
    proof {
        let nm = views(names@);
        assert(str_views(r@) =~= names_of(nm, ids));
        lemma_names_of_no_dup(nm, ids);
        assert forall|x: Seq<char>|
            str_views(r@).contains(x) <==> exists|s: usize|
                s < names@.len() && names@[s as int]@ == x && #[trigger] set@.contains((s, key)) by {
            if str_views(r@).contains(x) {
                let k = choose|k: int| 0 <= k < str_views(r@).len() && str_views(r@)[k] == x;
                let s = ids[k];
                assert(ids.contains(s));
                let j = choose|j: int| 0 <= j < i && set@[j] == (s, key);
                assert(set@.contains((s, key)));
                assert(names@[s as int]@ == x);
            }
            if exists|s: usize| s < names@.len() && names@[s as int]@ == x && #[trigger] set@.contains((s, key)) {
                let s = choose|s: usize| s < names@.len() && names@[s as int]@ == x && #[trigger] set@.contains((s, key));
                let j = choose|j: int| 0 <= j < set@.len() && set@[j] == (s, key);
                assert(exists|j: int| 0 <= j < i && set@[j] == (s, key));
                assert(ids.contains(s));
                let k = choose|k: int| 0 <= k < ids.len() && ids[k] == s;
                assert(str_views(r@)[k] == x);
            }
        }
    }
    r
}

/// Some pair among the first `i` of `ls` is `(w, x)`.
pub open spec fn linked_before(ls: Seq<(usize, usize)>, w: usize, x: usize, i: int) -> bool {
    exists|j: int| 0 <= j < i && ls[j] == (w, x)
}

/// The names of the first components of `v`.
pub open spec fn pair_names(v: Seq<(&str, usize)>) -> Seq<Seq<char>> {
    v.map_values(|p: (&str, usize)| p.0@)
}

/// The position of the entry for `o` in `entries`, if there is one.
fn find_entry(entries: &Vec<(usize, usize)>, o: usize) -> (r: Option<usize>)
    ensures
        match r {
            Some(k) => k < entries@.len() && entries@[k as int].0 == o,
            None => forall|k: int| 0 <= k < entries@.len() ==> entries@[k].0 != o,
        },
{
    let mut k: usize = 0;
    while k < entries.len()
        invariant
            k <= entries@.len(),
            forall|j: int| 0 <= j < k ==> entries@[j].0 != o,
        decreases entries@.len() - k,
    {
        if entries[k].0 == o {
            return Some(k);
        }
        k = k + 1;
    }
    None
}

/// For each id `o` other than `x` that some page links to together with
/// `x`, the pair of `o` and the number of such pages; `ls` holds each link
/// once.
fn co_citation_table(ls: &Vec<(usize, usize)>, x: usize) -> (r: (Vec<(usize, usize)>, Ghost<Seq<Seq<usize>>>))
    requires
        ls@.no_duplicates(),
    ensures
        r.0@.len() == r.1@.len(),
        forall|k: int| #![trigger r.0@[k]] 0 <= k < r.0@.len() ==> {
            &&& r.0@[k].0 != x
            &&& r.0@[k].1 > 0
            &&& r.0@[k].1 == r.1@[k].len()
            &&& r.1@[k].no_duplicates()
            &&& forall|w: usize| #[trigger] r.1@[k].contains(w) <==> (ls@.contains((w, x)) && ls@.contains((w, r.0@[k].0)))
        },
        forall|a: int, b: int| 0 <= a < r.0@.len() && 0 <= b < r.0@.len() && a != b ==> r.0@[a].0 != r.0@[b].0,
        forall|o: usize, w: usize| o != x && ls@.contains((w, x)) && #[trigger] ls@.contains((w, o)) ==> exists|k: int|
            0 <= k < r.0@.len() && #[trigger] r.0@[k].0 == o,
{
    let mut entries: Vec<(usize, usize)> = Vec::new();
    let ghost mut wss: Seq<Seq<usize>> = Seq::empty();
    let mut i: usize = 0;
    while i < ls.len()
        invariant
            i <= ls@.len(),
            ls@.no_duplicates(),
            entries@.len() == wss.len(),
            forall|k: int| #![trigger entries@[k]] 0 <= k < entries@.len() ==> {
                &&& entries@[k].0 != x
                &&& entries@[k].1 > 0
                &&& entries@[k].1 <= i
                &&& entries@[k].1 == wss[k].len()
                &&& wss[k].no_duplicates()
                &&& forall|w: usize| #[trigger] wss[k].contains(w) <==> (linked_before(ls@, w, x, i as int) && ls@.contains((w, entries@[k].0)))
            },
            forall|a: int, b: int| 0 <= a < entries@.len() && 0 <= b < entries@.len() && a != b ==> entries@[a].0 != entries@[b].0,
            forall|o: usize, w: usize| o != x && linked_before(ls@, w, x, i as int) && #[trigger] ls@.contains((w, o)) ==> exists|k: int|
                0 <= k < entries@.len() && #[trigger] entries@[k].0 == o,
        decreases ls@.len() - i,
    {
        let (w, t) = ls[i];
        if t == x {
            proof {
                assert forall|j: int| 0 <= j < i implies ls@[j] != (w, x) by {
                    assert(ls@[i as int] == (w, x));
                }
                assert(!linked_before(ls@, w, x, i as int));
            }
            let mut m: usize = 0;
            while m < ls.len()
                invariant
                    i < ls@.len(),
                    m <= ls@.len(),
                    ls@.no_duplicates(),
                    ls@[i as int] == (w, x),
                    !linked_before(ls@, w, x, i as int),
                    entries@.len() == wss.len(),
                    forall|k: int| #![trigger entries@[k]] 0 <= k < entries@.len() ==> {
                        &&& entries@[k].0 != x
                        &&& entries@[k].1 > 0
                        &&& entries@[k].1 <= i + 1
                        &&& (entries@[k].1 == i + 1 ==> wss[k].contains(w))
                        &&& entries@[k].1 == wss[k].len()
                        &&& wss[k].no_duplicates()
                        &&& forall|v: usize| #[trigger] wss[k].contains(v) <==> (
                            (linked_before(ls@, v, x, i as int) && ls@.contains((v, entries@[k].0)))
                            || (v == w && linked_before(ls@, w, entries@[k].0, m as int)))
                    },
                    forall|a: int, b: int| 0 <= a < entries@.len() && 0 <= b < entries@.len() && a != b ==> entries@[a].0 != entries@[b].0,
                    forall|o: usize, v: usize| o != x && linked_before(ls@, v, x, i as int) && #[trigger] ls@.contains((v, o)) ==> exists|k: int|
                        0 <= k < entries@.len() && #[trigger] entries@[k].0 == o,
                    forall|o: usize| o != x && #[trigger] linked_before(ls@, w, o, m as int) ==> exists|k: int|
                        0 <= k < entries@.len() && #[trigger] entries@[k].0 == o,
                decreases ls@.len() - m,
            {
                let (w2, o) = ls[m];
                if w2 == w && o != x {
                    proof {
                        assert(!linked_before(ls@, w, o, m as int)) by {
                            assert forall|j: int| 0 <= j < m implies ls@[j] != (w, o) by {
                                assert(ls@[m as int] == (w, o));
                            }
                        }
                    }
                    let ghost old_entries = entries@;
                    let ghost old_wss = wss;
                    let ghost mut kk: int = 0;
                    match find_entry(&entries, o) {
                        Some(k) => {
                            let c = entries[k].1;
                            proof {
                                assert(!wss[k as int].contains(w));
                                assert(c <= i);
                            }
                            entries.set(k, (o, c + 1));
                            proof {
                                wss = wss.update(k as int, wss[k as int].push(w));
                                kk = k as int;
                            }
                        },
                        None => {
                            entries.push((o, 1));
                            proof {
                                wss = wss.push(seq![w]);
                                kk = old_entries.len() as int;
                            }
                        },
                    }
                    proof {
                        assert forall|k: int| #![trigger entries@[k]] 0 <= k < entries@.len() implies {
                            &&& entries@[k].0 != x
                            &&& entries@[k].1 > 0
                            &&& entries@[k].1 <= i + 1
                            &&& (entries@[k].1 == i + 1 ==> wss[k].contains(w))
                            &&& entries@[k].1 == wss[k].len()
                            &&& wss[k].no_duplicates()
                            &&& forall|v: usize| #[trigger] wss[k].contains(v) <==> (
                                (linked_before(ls@, v, x, i as int) && ls@.contains((v, entries@[k].0)))
                                || (v == w && linked_before(ls@, w, entries@[k].0, m + 1)))
                        } by {
                            if k < old_entries.len() && old_entries[k].0 != o {
                                assert(entries@[k] == old_entries[k]);
                                assert(wss[k] == old_wss[k]);
                                assert forall|v: usize| #[trigger] wss[k].contains(v) <==> (
                                    (linked_before(ls@, v, x, i as int) && ls@.contains((v, entries@[k].0)))
                                    || (v == w && linked_before(ls@, w, entries@[k].0, m + 1))) by {
                                    if v == w && linked_before(ls@, w, entries@[k].0, m + 1) {
                                        let j = choose|j: int| 0 <= j < m + 1 && ls@[j] == (w, entries@[k].0);
                                        assert(j != m);
                                    }
                                    if v == w && linked_before(ls@, w, entries@[k].0, m as int) {
                                        let j = choose|j: int| 0 <= j < m && ls@[j] == (w, entries@[k].0);
                                        assert(linked_before(ls@, w, entries@[k].0, m + 1));
                                    }
                                }
                            } else {
                                assert(entries@[k].0 == o);
                                let ws = wss[k];
                                if k < old_entries.len() {
                                    let ows = old_wss[k];
                                    assert(ws == ows.push(w));
                                    assert(!ows.contains(w));
                                    assert forall|a: int, b: int| 0 <= a < ws.len() && 0 <= b < ws.len() && a != b
                                        implies ws[a] != ws[b] by {
                                        if a < ows.len() && b < ows.len() {
                                        } else if a == ows.len() {
                                            assert(ws[b] == ows[b]);
                                            assert(ows.contains(ws[b]));
                                        } else {
                                            assert(ws[a] == ows[a]);
                                            assert(ows.contains(ws[a]));
                                        }
                                    }
                                    assert forall|v: usize| #[trigger] ws.contains(v) <==> (
                                        (linked_before(ls@, v, x, i as int) && ls@.contains((v, o)))
                                        || (v == w && linked_before(ls@, w, o, m + 1))) by {
                                        if ws.contains(v) && v != w {
                                            let a = choose|a: int| 0 <= a < ws.len() && ws[a] == v;
                                            assert(ows[a] == v);
                                            assert(ows.contains(v));
                                        }
                                        if v == w {
                                            assert(ls@[m as int] == (w, o));
                                            assert(linked_before(ls@, w, o, m + 1));
                                            assert(ws[ws.len() - 1] == w);
                                        }
                                        if linked_before(ls@, v, x, i as int) && ls@.contains((v, o)) {
                                            assert(ows.contains(v));
                                            let a = choose|a: int| 0 <= a < ows.len() && ows[a] == v;
                                            assert(ws[a] == v);
                                        }
                                    }
                                } else {
                                    assert(ws == seq![w]);
                                    assert forall|v: usize| #[trigger] ws.contains(v) <==> (
                                        (linked_before(ls@, v, x, i as int) && ls@.contains((v, o)))
                                        || (v == w && linked_before(ls@, w, o, m + 1))) by {
                                        if ws.contains(v) {
                                            assert(ws[0] == w);
                                        }
                                        if v == w {
                                            assert(ls@[m as int] == (w, o));
                                            assert(linked_before(ls@, w, o, m + 1));
                                            assert(ws[0] == w);
                                        }
                                        if linked_before(ls@, v, x, i as int) && ls@.contains((v, o)) {
                                            assert(v != w);
                                            let kk = choose|kk: int| 0 <= kk < old_entries.len() && #[trigger] old_entries[kk].0 == o;
                                        }
                                    }
                                }
                            }
                        }
                        assert forall|a: int, b: int| 0 <= a < entries@.len() && 0 <= b < entries@.len() && a != b implies entries@[a].0 != entries@[b].0 by {
                            if a < old_entries.len() && b < old_entries.len() {
                                assert(old_entries[a].0 != old_entries[b].0);
                            }
                        }
                        assert forall|q: usize, v: usize| q != x && linked_before(ls@, v, x, i as int) && #[trigger] ls@.contains((v, q)) implies exists|k: int|
                            0 <= k < entries@.len() && #[trigger] entries@[k].0 == q by {
                            let k = choose|k: int| 0 <= k < old_entries.len() && #[trigger] old_entries[k].0 == q;
                            assert(entries@[k].0 == q);
                        }
                        assert forall|q: usize| q != x && #[trigger] linked_before(ls@, w, q, m + 1) implies exists|k: int|
                            0 <= k < entries@.len() && #[trigger] entries@[k].0 == q by {
                            if q == o {
                                assert(0 <= kk < entries@.len() && entries@[kk].0 == o);
                            } else {
                                let j = choose|j: int| 0 <= j < m + 1 && ls@[j] == (w, q);
                                assert(j != m);
                                assert(linked_before(ls@, w, q, m as int));
                                let k = choose|k: int| 0 <= k < old_entries.len() && #[trigger] old_entries[k].0 == q;
                                assert(entries@[k].0 == q);
                            }
                        }
                    }
                } else {
                    proof {
                        assert forall|q: usize| linked_before(ls@, w, q, m + 1) implies (q == x || linked_before(ls@, w, q, m as int)) by {
                            let j = choose|j: int| 0 <= j < m + 1 && ls@[j] == (w, q);
                            if j == m {
                                assert(w2 != w || o == x);
                            }
                        }
                        assert forall|q: usize| linked_before(ls@, w, q, m as int) implies linked_before(ls@, w, q, m + 1) by {
                            let j = choose|j: int| 0 <= j < m && ls@[j] == (w, q);
                        }
                        assert forall|k: int| 0 <= k < entries@.len() && entries@[k].0 != x implies
                            (linked_before(ls@, w, entries@[k].0, m + 1) <==> linked_before(ls@, w, entries@[k].0, m as int)) by {
                        }
                        assert forall|q: usize| q != x && #[trigger] linked_before(ls@, w, q, m + 1) implies exists|k: int|
                            0 <= k < entries@.len() && #[trigger] entries@[k].0 == q by {
                            assert(linked_before(ls@, w, q, m as int));
                        }
                    }
                }
                m = m + 1;
            }
            proof {
                assert forall|v: usize, q: usize| linked_before(ls@, v, q, i + 1) <==> (linked_before(ls@, v, q, i as int) || (v == w && q == x)) by {
                    if linked_before(ls@, v, q, i + 1) {
                        let j = choose|j: int| 0 <= j < i + 1 && ls@[j] == (v, q);
                    }
                    if v == w && q == x {
                        assert(ls@[i as int] == (v, q));
                    }
                    if linked_before(ls@, v, q, i as int) {
                        let j = choose|j: int| 0 <= j < i && ls@[j] == (v, q);
                    }
                }
                assert forall|q: usize| linked_before(ls@, w, q, ls@.len() as int) <==> ls@.contains((w, q)) by {
                    if ls@.contains((w, q)) {
                        let j = choose|j: int| 0 <= j < ls@.len() && ls@[j] == (w, q);
                    }
                }
                assert forall|k: int| #![trigger entries@[k]] 0 <= k < entries@.len() implies
                    forall|v: usize| #[trigger] wss[k].contains(v) <==> (linked_before(ls@, v, x, i + 1) && ls@.contains((v, entries@[k].0))) by {
                    assert forall|v: usize| #[trigger] wss[k].contains(v) <==> (linked_before(ls@, v, x, i + 1) && ls@.contains((v, entries@[k].0))) by {
                        if v == w {
                            assert(linked_before(ls@, w, entries@[k].0, ls@.len() as int) <==> ls@.contains((w, entries@[k].0)));
                        }
                    }
                }
                assert forall|q: usize, v: usize| q != x && linked_before(ls@, v, x, i + 1) && #[trigger] ls@.contains((v, q)) implies exists|k: int|
                    0 <= k < entries@.len() && #[trigger] entries@[k].0 == q by {
                    if !linked_before(ls@, v, x, i as int) {
                        assert(v == w);
                        assert(linked_before(ls@, w, q, ls@.len() as int));
                    }
                }
            }
        } else {
            proof {
                assert forall|v: usize| linked_before(ls@, v, x, i + 1) <==> linked_before(ls@, v, x, i as int) by {
                    if linked_before(ls@, v, x, i + 1) {
                        let j = choose|j: int| 0 <= j < i + 1 && ls@[j] == (v, x);
                        assert(j != i);
                    }
                    if linked_before(ls@, v, x, i as int) {
                        let j = choose|j: int| 0 <= j < i && ls@[j] == (v, x);
                    }
                }
            }
        }
        i = i + 1;
    }
    proof {
        assert forall|v: usize| linked_before(ls@, v, x, ls@.len() as int) <==> ls@.contains((v, x)) by {
            if ls@.contains((v, x)) {
                let j = choose|j: int| 0 <= j < ls@.len() && ls@[j] == (v, x);
            }
        }
    }
    (entries, Ghost(wss))
}

/// The relations derived from the facts of a [`Datalog`].
pub struct Solution {
    /// The name of each id.
    names: Vec<String>,
    /// The links as added, (source id, target id).
    links: Vec<(usize, usize)>,
    /// The hierarchy as added, (parent id, child id).
    parents: Vec<(usize, usize)>,
    /// Each link once.
    link_set: Vec<(usize, usize)>,
    /// Each hierarchy fact once, flipped to (child id, parent id).
    child_set: Vec<(usize, usize)>,
    /// For each child id, the parent id recorded last.
    parent_of: HashMap<usize, usize>,
}

impl Solution {
    /// The derived tables agree with the facts, and names are distinct.
    pub closed spec fn wf(self) -> bool {
        let n = self.names@.len() as int;
        &&& views(self.names@).no_duplicates()
        &&& ids_below(self.links@, n)
        &&& ids_below(self.parents@, n)
        &&& self.link_set@.no_duplicates()
        &&& forall|p: (usize, usize)| self.link_set@.contains(p) <==> self.links@.contains(p)
        &&& self.child_set@.no_duplicates()
        &&& forall|c: usize, p: usize|
            self.child_set@.contains((c, p)) <==> self.parents@.contains((p, c))
        &&& forall|c: usize| entry_of(self.parent_of@, c) == last_parent_id(self.parents@, c)
    }

    /// The interned keys, in the order they were first seen.
    pub closed spec fn names(self) -> Seq<Seq<char>> {
        views(self.names@)
    }

    /// The links, as (source, target), in the order they were added.
    pub closed spec fn links(self) -> Seq<(Seq<char>, Seq<char>)> {
        named_pairs(self.names(), self.links@)
    }

    /// The hierarchy facts, as (parent, child), in the order they were added.
    pub closed spec fn parents(self) -> Seq<(Seq<char>, Seq<char>)> {
        named_pairs(self.names(), self.parents@)
    }

    /// Whether every page sits under a shorter path than its own, as pages
    /// placed by the hierarchy of their paths do.
    pub fn parents_deepen(&self) -> (r: bool)
        requires
            self.wf(),
        ensures
            r == crate::plugin::wiki::deepening(self.parents()),
    {
        let ghost pp = self.parents();
        let mut i: usize = 0;
        while i < self.parents.len()
            invariant
                self.wf(),
                pp == self.parents(),
                i <= self.parents@.len(),
                forall|k: int| 0 <= k < i ==> (#[trigger] pp[k]).0.len() < pp[k].1.len(),
            decreases self.parents@.len() - i,
        {
            let (a, b) = self.parents[i];
            proof {
                assert(self.parents@[i as int].0 < self.names@.len());
                assert(pp[i as int] == (self.names@[a as int]@, self.names@[b as int]@));
            }
            let la = crate::strings::chars_of(self.names[a].as_str()).len();
            let lb = crate::strings::chars_of(self.names[b].as_str()).len();
            if la >= lb {
                proof {
                    assert(pp.contains(pp[i as int]));
                }
                return false;
            }
            i = i + 1;
        }
        proof {
            assert forall|p: Seq<char>, c: Seq<char>| pp.contains((p, c)) implies p.len() < c.len() by {
                let k = choose|k: int| 0 <= k < pp.len() && pp[k] == (p, c);
            }
        }
        true
    }

    /// The page most recently recorded as the parent of `child_href`.
    pub fn get_parent(&self, child_href: &str) -> (r: Option<&str>)
        requires
            self.wf(),
        ensures
            match r {
                Some(p) => last_parent(self.parents(), child_href@) == Some(p@),
                None => last_parent(self.parents(), child_href@) is None,
            },
    {
        let nm = Ghost(self.names());
        let child_id = match find_name(&self.names, child_href) {
            Some(i) => i,
            None => {
                proof {
                    lemma_last_parent_absent(nm@, self.parents@, child_href@);
                }
                return None;
            },
        };
        proof {
            lemma_last_parent_named(nm@, self.parents@, child_id);
            assert(nm@[child_id as int] == child_href@);
        }
        match self.parent_of.get(&child_id) {
            Some(p) => {
                let p = *p;
                proof {
                    assert(entry_of(self.parent_of@, child_id) == last_parent_id(self.parents@, child_id));
                    lemma_last_parent_id_below(self.parents@, child_id, nm@.len() as int);
                }
                Some(self.names[p].as_str())
            },
            None => {
                proof {
                    assert(entry_of(self.parent_of@, child_id) == last_parent_id(self.parents@, child_id));
                }
                None
            },
        }
    }

    /// For each other page that some page links to together with `href`,
    /// that page and the number of distinct pages that link to both; `None`
    /// when there is no such page.
    #[verifier::spinoff_prover]
    pub fn get_co_citations(&self, href: &str) -> (r: Option<Vec<(&str, usize)>>)
        requires
            self.wf(),
        ensures
            match r {
                None => forall|o: Seq<char>| o != href@ ==> !co_cited(self.links(), href@, o),
                Some(v) => {
                    &&& v@.len() > 0
                    &&& pair_names(v@).no_duplicates()
                    &&& forall|k: int| #![trigger v@[k]] 0 <= k < v@.len() ==> {
                        &&& v@[k].0@ != href@
                        &&& v@[k].1 > 0
                        &&& co_citation_count(self.links(), href@, v@[k].0@, v@[k].1 as nat)
                    }
                    &&& forall|o: Seq<char>|
                        o != href@ && co_cited(self.links(), href@, o) ==> pair_names(v@).contains(o)
                },
            },
    {
        let nm = Ghost(self.names());
        let id = match find_name(&self.names, href) {
            Some(i) => i,
            None => {
                proof {
                    assert forall|o: Seq<char>| o != href@ implies !co_cited(self.links(), href@, o) by {
                        if co_cited(self.links(), href@, o) {
                            let w = choose|w: Seq<char>| self.links().contains((w, href@)) && self.links().contains((w, o));
                            lemma_named_in_names(nm@, self.links@, w, href@);
                            let (a, b) = choose|a: usize, b: usize|
                                a < nm@.len() && b < nm@.len() && nm@[a as int] == w
                                    && nm@[b as int] == href@ && self.links@.contains((a, b));
                            assert(nm@[b as int] == href@);
                        }
                    }
                }
                return None;
            },
        };
        let (entries, wss) = co_citation_table(&self.link_set, id);
        let mut out: Vec<(&str, usize)> = Vec::new();
        let mut k: usize = 0;
        #[verifier::loop_isolation(false)]
        while k < entries.len()
            invariant
                k <= entries@.len(),
                out@.len() == k,
                forall|j: int| #![trigger out@[j]] 0 <= j < k ==> out@[j].1 == entries@[j].1 && entries@[j].0 < nm@.len() && out@[j].0@ == nm@[entries@[j].0 as int],
                nm@ == views(self.names@),
                self.wf(),
            decreases entries@.len() - k,
        {
            let (o, c) = entries[k];
            proof {
                assert(entries@[k as int].1 > 0);
                assert(wss@[k as int].contains(wss@[k as int][0]));
                let w = wss@[k as int][0];
                assert(self.link_set@.contains((w, o)));
                assert(self.links@.contains((w, o)));
                let j = choose|j: int| 0 <= j < self.links@.len() && self.links@[j] == (w, o);
                assert(o < nm@.len());
            }
            let ghost old_out = out@;
            out.push((self.names[o].as_str(), c));
            proof {
                assert forall|j: int| #![trigger out@[j]] 0 <= j < k + 1 implies out@[j].1 == entries@[j].1
                    && entries@[j].0 < nm@.len() && out@[j].0@ == nm@[entries@[j].0 as int] by {
                    if j < k {
                        assert(out@[j] == old_out[j]);
                    } else {
                        assert(out@[j].1 == c);
                        assert(out@[j].0@ == self.names@[o as int]@);
                    }
                }
            }
            k = k + 1;
        }
        proof {
            let links = self.links();
            let ls = self.link_set@;
            // each entry's other id names a page distinct from `href`
            assert forall|j: int| 0 <= j < entries@.len() implies #[trigger] entries@[j].0 < nm@.len() by {
                assert(out@[j].1 == entries@[j].1);
            }
            // reading one co-citation of ids as one of names
            assert forall|j: int| #![trigger out@[j]] 0 <= j < out@.len() implies {
                &&& out@[j].0@ != href@
                &&& out@[j].1 > 0
                &&& co_citation_count(links, href@, out@[j].0@, out@[j].1 as nat)
            } by {
                let o = entries@[j].0;
                assert(entries@[j].0 != id);
                assert(nm@[o as int] != nm@[id as int]);
                let wsj = wss@[j];
                let names_ws = names_of(nm@, wsj);
                assert forall|t: int| 0 <= t < wsj.len() implies #[trigger] wsj[t] < nm@.len() by {
                    assert(wsj.contains(wsj[t]));
                    assert(ls.contains((wsj[t], id)));
                    assert(self.links@.contains((wsj[t], id)));
                    let q = choose|q: int| 0 <= q < self.links@.len() && self.links@[q] == (wsj[t], id);
                }
                lemma_names_of_no_dup(nm@, wsj);
                assert forall|wn: Seq<char>| #[trigger] names_ws.contains(wn) <==> (links.contains((wn, href@)) && links.contains((wn, nm@[o as int]))) by {
                    if names_ws.contains(wn) {
                        let t = choose|t: int| 0 <= t < names_ws.len() && names_ws[t] == wn;
                        let w = wsj[t];
                        assert(wsj.contains(w));
                        assert(self.links@.contains((w, id)));
                        assert(self.links@.contains((w, o)));
                        lemma_named_contains(nm@, self.links@, w, id);
                        lemma_named_contains(nm@, self.links@, w, o);
                    }
                    if links.contains((wn, href@)) && links.contains((wn, nm@[o as int])) {
                        lemma_named_in_names(nm@, self.links@, wn, href@);
                        let (a, b) = choose|a: usize, b: usize|
                            a < nm@.len() && b < nm@.len() && nm@[a as int] == wn
                                && nm@[b as int] == href@ && self.links@.contains((a, b));
                        assert(nm@[b as int] == nm@[id as int]);
                        assert(b == id);
                        lemma_named_in_names(nm@, self.links@, wn, nm@[o as int]);
                        let (a2, b2) = choose|a2: usize, b2: usize|
                            a2 < nm@.len() && b2 < nm@.len() && nm@[a2 as int] == wn
                                && nm@[b2 as int] == nm@[o as int] && self.links@.contains((a2, b2));
                        assert(a2 == a);
                        assert(b2 == o);
                        assert(ls.contains((a, id)));
                        assert(ls.contains((a, o)));
                        assert(wsj.contains(a));
                        let t = choose|t: int| 0 <= t < wsj.len() && wsj[t] == a;
                        assert(names_ws[t] == wn);
                    }
                }
                assert(out@[j].0@ == nm@[o as int]);
                assert(names_ws.len() == out@[j].1);
            }
            assert forall|a: int, b: int| 0 <= a < out@.len() && 0 <= b < out@.len() && a != b implies pair_names(out@)[a] != pair_names(out@)[b] by {
                assert(entries@[a].0 != entries@[b].0);
                assert(pair_names(out@)[a] == nm@[entries@[a].0 as int]);
                assert(pair_names(out@)[b] == nm@[entries@[b].0 as int]);
            }
            assert forall|o: Seq<char>| o != href@ && co_cited(links, href@, o) implies pair_names(out@).contains(o) by {
                let w = choose|w: Seq<char>| links.contains((w, href@)) && links.contains((w, o));
                lemma_named_in_names(nm@, self.links@, w, href@);
                let (a, b) = choose|a: usize, b: usize|
                    a < nm@.len() && b < nm@.len() && nm@[a as int] == w
                        && nm@[b as int] == href@ && self.links@.contains((a, b));
                assert(nm@[b as int] == nm@[id as int]);
                assert(b == id);
                lemma_named_in_names(nm@, self.links@, w, o);
                let (a2, b2) = choose|a2: usize, b2: usize|
                    a2 < nm@.len() && b2 < nm@.len() && nm@[a2 as int] == w
                        && nm@[b2 as int] == o && self.links@.contains((a2, b2));
                assert(a2 == a);
                assert(b2 != id);
                assert(ls.contains((a, id)));
                assert(ls.contains((a, b2)));
                let j = choose|j: int| 0 <= j < entries@.len() && #[trigger] entries@[j].0 == b2;
                assert(pair_names(out@)[j] == o);
            }
        }
        if out.len() == 0 {
            proof {
                assert forall|o: Seq<char>| o != href@ implies !co_cited(self.links(), href@, o) by {
                    if co_cited(self.links(), href@, o) {
                        assert(pair_names(out@).contains(o));
                    }
                }
            }
            None
        } else {
            Some(out)
        }
    }

    /// The pages that link to `target_href`, each once; `None` when no page
    /// links to it.
    pub fn get_backlinks(&self, target_href: &str) -> (r: Option<Vec<&str>>)
        requires
            self.wf(),
        ensures
            backlinks_answer(self.links(), target_href@, answer_view(r)),
    {
        let nm = Ghost(self.names());
        let target_id = match find_name(&self.names, target_href) {
            Some(i) => i,
            None => {
                proof {
                    assert forall|s: Seq<char>| !self.links().contains((s, target_href@)) by {
                        if self.links().contains((s, target_href@)) {
                            lemma_named_in_names(nm@, self.links@, s, target_href@);
                            let (a, b) = choose|a: usize, b: usize|
                                a < nm@.len() && b < nm@.len() && nm@[a as int] == s
                                    && nm@[b as int] == target_href@ && self.links@.contains((a, b));
                            assert(nm@[b as int] == target_href@);
                        }
                    }
                }
                return None;
            },
        };
        proof {
            assert(ids_below(self.link_set@, nm@.len() as int)) by {
                assert forall|i: int| 0 <= i < self.link_set@.len() implies self.link_set@[i].0
                    < nm@.len() && self.link_set@[i].1 < nm@.len() by {
                    assert(self.link_set@.contains(self.link_set@[i]));
                    let j = choose|j: int| 0 <= j < self.links@.len() && self.links@[j] == self.link_set@[i];
                }
            }
        }
        let out = sources_in(&self.names, &self.link_set, target_id);
        proof {
            assert forall|x: Seq<char>|
                str_views(out@).contains(x) <==> self.links().contains((x, target_href@)) by {
                if self.links().contains((x, target_href@)) {
                    lemma_named_in_names(nm@, self.links@, x, target_href@);
                    let (a, b) = choose|a: usize, b: usize|
                        a < nm@.len() && b < nm@.len() && nm@[a as int] == x
                            && nm@[b as int] == target_href@ && self.links@.contains((a, b));
                    assert(nm@[b as int] == nm@[target_id as int]);
                    assert(b == target_id);
                    assert(self.link_set@.contains((a, target_id)));
                }
                if str_views(out@).contains(x) {
                    let s = choose|s: usize|
                        s < self.names@.len() && self.names@[s as int]@ == x
                            && #[trigger] self.link_set@.contains((s, target_id));
                    assert(self.links@.contains((s, target_id)));
                    lemma_named_contains(nm@, self.links@, s, target_id);
                    assert(nm@[s as int] == x);
                }
            }
        }
        if out.len() == 0 {
            proof {
                assert forall|s: Seq<char>| !self.links().contains((s, target_href@)) by {
                    if self.links().contains((s, target_href@)) {
                        assert(str_views(out@).contains(s));
                    }
                }
            }
            None
        } else {
            Some(out)
        }
    }

    /// The pages directly under `parent_href`, each once; `None` when there
    /// are none.
    pub fn get_children(&self, parent_href: &str) -> (r: Option<Vec<&str>>)
        requires
            self.wf(),
        ensures
            match r {
                None => forall|c: Seq<char>| !self.parents().contains((parent_href@, c)),
                Some(v) => v@.len() > 0 && exactly_targets(
                    self.parents(),
                    parent_href@,
                    str_views(v@),
                ),
            },
    {
        let nm = Ghost(self.names());
        let parent_id = match find_name(&self.names, parent_href) {
            Some(i) => i,
            None => {
                proof {
                    assert forall|c: Seq<char>| !self.parents().contains((parent_href@, c)) by {
                        if self.parents().contains((parent_href@, c)) {
                            lemma_named_in_names(nm@, self.parents@, parent_href@, c);
                            let (a, b) = choose|a: usize, b: usize|
                                a < nm@.len() && b < nm@.len() && nm@[a as int] == parent_href@
                                    && nm@[b as int] == c && self.parents@.contains((a, b));
                            assert(nm@[a as int] == parent_href@);
                        }
                    }
                }
                return None;
            },
        };
        proof {
            assert(ids_below(self.child_set@, nm@.len() as int)) by {
                assert forall|i: int| 0 <= i < self.child_set@.len() implies self.child_set@[i].0
                    < nm@.len() && self.child_set@[i].1 < nm@.len() by {
                    let (c, p) = self.child_set@[i];
                    assert(self.child_set@.contains((c, p)));
                    assert(self.parents@.contains((p, c)));
                    let j = choose|j: int| 0 <= j < self.parents@.len() && self.parents@[j] == (p, c);
                }
            }
        }
        let out = sources_in(&self.names, &self.child_set, parent_id);
        proof {
            assert forall|x: Seq<char>|
                str_views(out@).contains(x) <==> self.parents().contains((parent_href@, x)) by {
                if self.parents().contains((parent_href@, x)) {
                    lemma_named_in_names(nm@, self.parents@, parent_href@, x);
                    let (a, b) = choose|a: usize, b: usize|
                        a < nm@.len() && b < nm@.len() && nm@[a as int] == parent_href@
                            && nm@[b as int] == x && self.parents@.contains((a, b));
                    assert(nm@[a as int] == nm@[parent_id as int]);
                    assert(a == parent_id);
                    assert(self.child_set@.contains((b, parent_id)));
                }
                if str_views(out@).contains(x) {
                    let s = choose|s: usize|
                        s < self.names@.len() && self.names@[s as int]@ == x
                            && #[trigger] self.child_set@.contains((s, parent_id));
                    assert(self.parents@.contains((parent_id, s)));
                    lemma_named_contains(nm@, self.parents@, parent_id, s);
                    assert(nm@[s as int] == x);
                }
            }
        }
        if out.len() == 0 {
            proof {
                assert forall|c: Seq<char>| !self.parents().contains((parent_href@, c)) by {
                    if self.parents().contains((parent_href@, c)) {
                        assert(str_views(out@).contains(c));
                    }
                }
            }
            None
        } else {
            Some(out)
        }
    }
}

} // verus!

verus! {

/// Co-citation is symmetric: the pages that link both to `a` and to `b` are
/// those that link both to `b` and to `a`, so the count is the same either
/// way round.
pub proof fn lemma_co_citation_symmetric(
    links: Seq<(Seq<char>, Seq<char>)>,
    a: Seq<char>,
    b: Seq<char>,
    count: nat,
)
    requires
        co_citation_count(links, a, b, count),
    ensures
        co_citation_count(links, b, a, count),
{
    let ws = choose|ws: Seq<Seq<char>>|
        {
            &&& ws.no_duplicates()
            &&& ws.len() == count
            &&& forall|w: Seq<char>| #[trigger]
                ws.contains(w) <==> (links.contains((w, a)) && links.contains((w, b)))
        };
    assert forall|w: Seq<char>| #[trigger] ws.contains(w) <==> (links.contains((w, b))
        && links.contains((w, a))) by {}
}

/// A co-citation count is unique: two counts of the pages linking both to
/// `a` and to `b` are equal.
pub proof fn lemma_co_citation_count_unique(
    links: Seq<(Seq<char>, Seq<char>)>,
    a: Seq<char>,
    b: Seq<char>,
    c1: nat,
    c2: nat,
)
    requires
        co_citation_count(links, a, b, c1),
        co_citation_count(links, a, b, c2),
    ensures
        c1 == c2,
{
    let ws1 = choose|ws: Seq<Seq<char>>|
        {
            &&& ws.no_duplicates()
            &&& ws.len() == c1
            &&& forall|w: Seq<char>| #[trigger]
                ws.contains(w) <==> (links.contains((w, a)) && links.contains((w, b)))
        };
    let ws2 = choose|ws: Seq<Seq<char>>|
        {
            &&& ws.no_duplicates()
            &&& ws.len() == c2
            &&& forall|w: Seq<char>| #[trigger]
                ws.contains(w) <==> (links.contains((w, a)) && links.contains((w, b)))
        };
    ws1.unique_seq_to_set();
    ws2.unique_seq_to_set();
    assert(ws1.to_set() =~= ws2.to_set());
}

/// A page's most recent parent is one of its recorded parents, so the page
/// is among that parent's children.
pub proof fn lemma_last_parent_is_parent(facts: Seq<(Seq<char>, Seq<char>)>, child: Seq<char>)
    ensures
        last_parent(facts, child) matches Some(p) ==> facts.contains((p, child)),
    decreases facts.len(),
{
    if facts.len() > 0 {
        lemma_last_parent_is_parent(facts.drop_last(), child);
        if facts.last().1 == child {
            assert(facts[facts.len() - 1] == facts.last());
        } else if let Some(p) = last_parent(facts.drop_last(), child) {
            let i = choose|i: int| 0 <= i < facts.drop_last().len() && facts.drop_last()[i] == (p, child);
            assert(facts[i] == (p, child));
        }
    }
}

} // verus!
