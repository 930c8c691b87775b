//! The order of strings (`Ord` on `str`: byte by byte, which for UTF-8 is
//! code point by code point) and stable sorting by string keys.

use vstd::prelude::*;

use crate::strings::chars_of;

verus! {

/// Whether `a` comes strictly before `b`: at the first position where they
/// differ `a` has the smaller code point, or `a` is a proper prefix of `b`.
pub open spec fn text_less(a: Seq<char>, b: Seq<char>) -> bool
    decreases a.len(),
{
    if a.len() == 0 {
        b.len() > 0
    } else if b.len() == 0 {
        false
    } else if a[0] != b[0] {
        a[0] < b[0]
    } else {
        text_less(a.drop_first(), b.drop_first())
    }
}

/// No text comes before itself.
pub proof fn lemma_text_less_irreflexive(a: Seq<char>)
    ensures
        !text_less(a, a),
    decreases a.len(),
{
    if a.len() > 0 {
        lemma_text_less_irreflexive(a.drop_first());
    }
}

/// The order of texts is transitive.
pub proof fn lemma_text_less_transitive(a: Seq<char>, b: Seq<char>, c: Seq<char>)
    requires
        text_less(a, b),
        text_less(b, c),
    ensures
        text_less(a, c),
    decreases a.len(),
{
    if a.len() > 0 && b.len() > 0 && c.len() > 0 && a[0] == b[0] && b[0] == c[0] {
        lemma_text_less_transitive(a.drop_first(), b.drop_first(), c.drop_first());
    }
}

/// Of two different texts, one comes before the other.
pub proof fn lemma_text_less_total(a: Seq<char>, b: Seq<char>)
    ensures
        a == b || text_less(a, b) || text_less(b, a),
    decreases a.len(),
{
    if a.len() > 0 && b.len() > 0 {
        if a[0] == b[0] {
            lemma_text_less_total(a.drop_first(), b.drop_first());
            if a.drop_first() == b.drop_first() {
                assert(a =~= seq![a[0]] + a.drop_first());
                assert(b =~= seq![b[0]] + b.drop_first());
            }
        }
    } else if a.len() == 0 && b.len() == 0 {
        assert(a =~= b);
    }
}

proof fn lemma_text_less_skip(a: Seq<char>, b: Seq<char>, i: int)
    requires
        0 <= i < a.len(),
        i < b.len(),
        a[i] == b[i],
    ensures
        text_less(a.skip(i), b.skip(i)) == text_less(a.skip(i + 1), b.skip(i + 1)),
{
    assert(a.skip(i).drop_first() =~= a.skip(i + 1));
    assert(b.skip(i).drop_first() =~= b.skip(i + 1));
}

/// Whether `a` comes strictly before `b`.
pub fn is_text_less(a: &str, b: &str) -> (r: bool)
    ensures
        r == text_less(a@, b@),
{
    let x = chars_of(a);
    let y = chars_of(b);
    let mut i: usize = 0;
    proof {
        assert(a@.skip(0) =~= a@);
        assert(b@.skip(0) =~= b@);
    }
    while i < x.len() && i < y.len() && x[i] == y[i]
        invariant
            x@ == a@,
            y@ == b@,
            i <= x@.len(),
            i <= y@.len(),
            text_less(a@, b@) == text_less(a@.skip(i as int), b@.skip(i as int)),
        decreases x@.len() - i,
    {
        proof {
            lemma_text_less_skip(a@, b@, i as int);
        }
        i = i + 1;
    }
    if i == x.len() {
        i < y.len()
    } else if i == y.len() {
        false
    } else {
        assert(a@.skip(i as int)[0] == a@[i as int]);
        assert(b@.skip(i as int)[0] == b@[i as int]);
        x[i] < y[i]
    }
}

/// The views of string slices.
pub open spec fn text_views(v: Seq<&str>) -> Seq<Seq<char>> {
    v.map_values(|s: &str| s@)
}

/// `p` lists the indices of `keys`, each once, so that the keys do not
/// decrease, equal keys keeping their order.
pub open spec fn is_sorted_order(keys: Seq<Seq<char>>, p: Seq<int>) -> bool {
    &&& p.len() == keys.len()
    &&& forall|k: int| 0 <= k < p.len() ==> 0 <= #[trigger] p[k] < keys.len()
    &&& forall|k: int, l: int| 0 <= k < l < p.len() ==> p[k] != p[l]
    &&& forall|k: int, l: int| 0 <= k < l < p.len() ==> !text_less(keys[p[l]], keys[p[k]])
    &&& forall|k: int, l: int| 0 <= k < l < p.len() && keys[p[k]] == keys[p[l]] ==> p[k] < p[l]
}

/// The indices held in `v`, as integers.
pub open spec fn index_ints(v: Seq<usize>) -> Seq<int> {
    v.map_values(|u: usize| u as int)
}

/// The indices of `keys` in the order of their keys, found by a stable
/// insertion sort.
pub fn sorted_order(keys: &[&str]) -> (order: Vec<usize>)
    ensures
        is_sorted_order(text_views(keys@), index_ints(order@)),
{
    let ghost ks = text_views(keys@);
    let n = keys.len();
    let mut order: Vec<usize> = Vec::new();
    for i in 0..n
        invariant
            n == keys@.len(),
            ks == text_views(keys@),
            order@.len() == i,
            forall|k: int| 0 <= k < order@.len() ==> #[trigger] order@[k] < i,
            forall|k: int, l: int| 0 <= k < l < order@.len() ==> order@[k] != order@[l],
            forall|k: int, l: int|
                0 <= k < l < order@.len() ==> !text_less(ks[order@[l] as int], ks[order@[k] as int]),
            forall|k: int, l: int|
                0 <= k < l < order@.len() && ks[order@[k] as int] == ks[order@[l] as int]
                    ==> order@[k] < order@[l],
    {
        let mut pos: usize = 0;
        while pos < order.len() && !is_text_less(keys[i], keys[order[pos]])
            invariant
                n == keys@.len(),
                ks == text_views(keys@),
                i < n,
                order@.len() == i,
                pos <= order@.len(),
                forall|k: int| 0 <= k < order@.len() ==> #[trigger] order@[k] < i,
                forall|k: int| 0 <= k < pos ==> !text_less(ks[i as int], ks[#[trigger] order@[k] as int]),
            decreases order@.len() - pos,
        {
            pos = pos + 1;
        }
        proof {
            assert forall|k: int| pos <= k < order@.len() implies text_less(
                ks[i as int],
                ks[#[trigger] order@[k] as int],
            ) by {
                let kp = ks[order@[pos as int] as int];
                let kk = ks[order@[k] as int];
                assert(text_less(ks[i as int], kp));
                if k > pos {
                    assert(!text_less(kk, kp));
                    lemma_text_less_total(kp, kk);
                    if kp != kk {
                        lemma_text_less_transitive(ks[i as int], kp, kk);
                    }
                }
            }
        }
        let ghost old_order = order@;
        order.insert(pos, i);
        proof {
            assert forall|k: int| 0 <= k < order@.len() implies #[trigger] order@[k] < i + 1 by {
                if k < pos {
                    assert(order@[k] == old_order[k]);
                } else if k > pos {
                    assert(order@[k] == old_order[k - 1]);
                }
            }
            assert forall|k: int, l: int| 0 <= k < l < order@.len() implies order@[k]
                != order@[l] && !text_less(ks[order@[l] as int], ks[order@[k] as int]) && (
            ks[order@[k] as int] == ks[order@[l] as int] ==> order@[k] < order@[l]) by {
                let ok = if k < pos { old_order[k] } else if k == pos { i } else { old_order[k - 1] };
                let ol = if l < pos { old_order[l] } else if l == pos { i } else { old_order[l - 1] };
                assert(order@[k] == ok);
                assert(order@[l] == ol);
                if k == pos {
                    let kl = ks[old_order[l - 1] as int];
                    assert(text_less(ks[i as int], kl));
                    if text_less(kl, ks[i as int]) {
                        lemma_text_less_transitive(kl, ks[i as int], kl);
                        lemma_text_less_irreflexive(kl);
                    }
                    if kl == ks[i as int] {
                        lemma_text_less_irreflexive(kl);
                    }
                } else if l == pos {
                    assert(!text_less(ks[i as int], ks[old_order[k] as int]));
                    assert(old_order[k] < i);
                } else if k < pos && l > pos {
                    assert(l - 1 > k);
                } else if k > pos {
                    assert(l - 1 > k - 1);
                }
            }
        }
    }
    proof {
        let p = index_ints(order@);
        assert forall|k: int| 0 <= k < p.len() implies p[k] == order@[k] as int by {}
    }
    order
}

} // verus!
