//! A smaller relation store that knows only links and their backlinks.

use vstd::prelude::*;

use crate::datalog::{
    answer_view, backlinks_answer, dedup_pairs, exactly_sources, find_name, ids_below, intern_name, interned,
    lemma_named_contains, lemma_named_in_names, lemma_named_pairs_extend, named_pairs, sources_in,
    str_views, views,
};

verus! {

/// Collects links between pages under string keys.
pub struct Datalog {
    /// Links as (source id, target id), in the order they were added.
    links: Vec<(usize, usize)>,
    /// The name of each id.
    reverser: Vec<String>,
}

impl Datalog {
    /// Every stored id names an interned key, and no key is interned twice.
    pub closed spec fn wf(self) -> bool {
        &&& views(self.reverser@).no_duplicates()
        &&& ids_below(self.links@, self.reverser@.len() as int)
    }

    /// The interned keys, in the order they were first seen.
    pub closed spec fn names(self) -> Seq<Seq<char>> {
        views(self.reverser@)
    }

    /// The links added so far, as (source, target), in order.
    pub closed spec fn links(self) -> Seq<(Seq<char>, Seq<char>)> {
        named_pairs(self.names(), self.links@)
    }

    /// An empty collection of links.
    pub fn new() -> (r: Self)
        ensures
            r.wf(),
            r.names() == Seq::<Seq<char>>::empty(),
            r.links() == Seq::<(Seq<char>, Seq<char>)>::empty(),
    {
        let r = Datalog { links: Vec::new(), reverser: Vec::new() };
        assert(r.names() =~= Seq::<Seq<char>>::empty());
        assert(r.links() =~= Seq::<(Seq<char>, Seq<char>)>::empty());
        r
    }

    /// The id of `key`, interning it first when it is new.
    fn intern(&mut self, key: &str) -> (id: usize)
        requires
            old(self).wf(),
        ensures
            final(self).wf(),
            final(self).names() == interned(old(self).names(), key@),
            id < final(self).names().len(),
            final(self).names()[id as int] == key@,
            final(self).links() == old(self).links(),
            final(self).links@ == old(self).links@,
    {
        let ghost old_names = views(self.reverser@);
        let id = intern_name(&mut self.reverser, key);
        proof {
            lemma_named_pairs_extend(old_names, views(self.reverser@), self.links@);
        }
        id
    }

    /// Records that the page `source` links to the page `target`.
    pub fn add_link(&mut self, source: &str, target: &str)
        requires
            old(self).wf(),
        ensures
            final(self).wf(),
            final(self).names() == interned(interned(old(self).names(), source@), target@),
            final(self).links() == old(self).links().push((source@, target@)),
    {
        let source_id = self.intern(source);
        let target_id = self.intern(target);
        let ghost mid = self.links();
        self.links.push((source_id, target_id));
        proof {
            assert(self.links() =~= mid.push((source@, target@)));
        }
    }

    /// Derives the backlinks.
    pub fn solve(self) -> (r: Solution)
        requires
            self.wf(),
        ensures
            r.wf(),
            r.names() == self.names(),
            r.links() == self.links(),
    {
        let link_set = dedup_pairs(&self.links);
        Solution { names: self.reverser, links: self.links, link_set }
    }
}

/// The backlinks derived from the links of a [`Datalog`].
pub struct Solution {
    /// The name of each id.
    names: Vec<String>,
    /// The links as added, (source id, target id).
    links: Vec<(usize, usize)>,
    /// Each link once.
    link_set: Vec<(usize, usize)>,
}

impl Solution {
    /// The table of distinct links agrees with the links, and names are
    /// distinct.
    pub closed spec fn wf(self) -> bool {
        &&& views(self.names@).no_duplicates()
        &&& ids_below(self.links@, self.names@.len() as int)
        &&& self.link_set@.no_duplicates()
        &&& forall|p: (usize, usize)| self.link_set@.contains(p) <==> self.links@.contains(p)
    }

    /// The interned keys, in the order they were first seen.
    pub closed spec fn names(self) -> Seq<Seq<char>> {
        views(self.names@)
    }

    /// The links, as (source, target), in the order they were added.
    pub closed spec fn links(self) -> Seq<(Seq<char>, Seq<char>)> {
        named_pairs(self.names(), self.links@)
    }

    /// Returns the list of source `hrefs` that link to the target `href`,
    /// each once; `None` when no page links to it.
    pub fn get_backlinks(&self, target_href: &str) -> (r: Option<Vec<&str>>)
        requires
            self.wf(),
        ensures
            backlinks_answer(self.links(), target_href@, answer_view(r)),
    {
        let nm = Ghost(self.names());
        let target_id = match find_name(&self.names, target_href) {
            Some(i) => i,
            None => {
                proof {
                    assert forall|s: Seq<char>| !self.links().contains((s, target_href@)) by {
                        if self.links().contains((s, target_href@)) {
                            lemma_named_in_names(nm@, self.links@, s, target_href@);
                            let (a, b) = choose|a: usize, b: usize|
                                a < nm@.len() && b < nm@.len() && nm@[a as int] == s
                                    && nm@[b as int] == target_href@ && self.links@.contains((a, b));
                            assert(nm@[b as int] == target_href@);
                        }
                    }
                }
                return None;
            },
        };
        proof {
            assert(ids_below(self.link_set@, nm@.len() as int)) by {
                assert forall|i: int| 0 <= i < self.link_set@.len() implies self.link_set@[i].0
                    < nm@.len() && self.link_set@[i].1 < nm@.len() by {
                    assert(self.link_set@.contains(self.link_set@[i]));
                    let j = choose|j: int| 0 <= j < self.links@.len() && self.links@[j] == self.link_set@[i];
                }
            }
        }
        let out = sources_in(&self.names, &self.link_set, target_id);
        proof {
            assert forall|x: Seq<char>|
                str_views(out@).contains(x) <==> self.links().contains((x, target_href@)) by {
                if self.links().contains((x, target_href@)) {
                    lemma_named_in_names(nm@, self.links@, x, target_href@);
                    let (a, b) = choose|a: usize, b: usize|
                        a < nm@.len() && b < nm@.len() && nm@[a as int] == x
                            && nm@[b as int] == target_href@ && self.links@.contains((a, b));
                    assert(nm@[b as int] == nm@[target_id as int]);
                    assert(b == target_id);
                    assert(self.link_set@.contains((a, target_id)));
                }
                if str_views(out@).contains(x) {
                    let s = choose|s: usize|
                        s < self.names@.len() && self.names@[s as int]@ == x
                            && #[trigger] self.link_set@.contains((s, target_id));
                    assert(self.links@.contains((s, target_id)));
                    lemma_named_contains(nm@, self.links@, s, target_id);
                    assert(nm@[s as int] == x);
                }
            }
        }
        if out.len() == 0 {
            proof {
                assert forall|s: Seq<char>| !self.links().contains((s, target_href@)) by {
                    if self.links().contains((s, target_href@)) {
                        assert(str_views(out@).contains(s));
                    }
                }
            }
            None
        } else {
            Some(out)
        }
    }
}

} // verus!
