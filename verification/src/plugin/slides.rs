//! Slideshows: a markdown file cut into stacks of slides, and the HTML
//! sections that reveal.js reads them from.

use vstd::prelude::*;

use crate::strings::{chars_of, owned, push_str, string_of};

verus! {

/// Whether `sep` occurs in `s` at `i`.
pub open spec fn occurs_at(s: Seq<char>, sep: Seq<char>, i: int) -> bool {
    0 <= i && i + sep.len() <= s.len() && s.subrange(i, i + sep.len()) == sep
}

/// The first occurrence of `sep` in `s` at or after `from`.
pub open spec fn find_from(s: Seq<char>, sep: Seq<char>, from: int) -> Option<int>
    decreases s.len() - from,
{
    if from < 0 || from >= s.len() || from + sep.len() > s.len() {
        None
    } else if occurs_at(s, sep, from) {
        Some(from)
    } else {
        find_from(s, sep, from + 1)
    }
}

/// The first occurrence found at or after `from` lies at or after `from`.
pub proof fn lemma_find_from(s: Seq<char>, sep: Seq<char>, from: int)
    requires
        0 <= from,
    ensures
        match find_from(s, sep, from) {
            Some(f) => from <= f && occurs_at(s, sep, f),
            None => true,
        },
    decreases s.len() - from,
{
    if from < s.len() && from + sep.len() <= s.len() && !occurs_at(s, sep, from) {
        lemma_find_from(s, sep, from + 1);
    }
}

/// The pieces of `s` from `from` on between the occurrences of `sep`, found
/// left to right without overlap, as `str::split` gives them.
pub open spec fn split_from(s: Seq<char>, sep: Seq<char>, from: int) -> Seq<Seq<char>>
    decreases s.len() - from,
{
    if from < 0 || from > s.len() || sep.len() == 0 {
        Seq::empty()
    } else {
        match find_from(s, sep, from) {
            Some(f) => {
                proof {
                    lemma_find_from(s, sep, from);
                }
                seq![s.subrange(from, f)] + split_from(s, sep, f + sep.len())
            },
            None => seq![s.subrange(from, s.len() as int)],
        }
    }
}

/// Whether `sep` occurs in `cs` at `i`.
fn occurs(cs: &Vec<char>, sep: &Vec<char>, i: usize) -> (r: bool)
    requires
        i + sep@.len() <= cs@.len(),
    ensures
        r == occurs_at(cs@, sep@, i as int),
{
    let n = cs.len();
    let mut k: usize = 0;
    while k < sep.len()
        invariant
            n == cs@.len(),
            i + sep@.len() <= cs@.len(),
            k <= sep@.len(),
            forall|j: int| 0 <= j < k ==> cs@[i + j] == sep@[j],
        decreases sep@.len() - k,
    {
        assert(i + k < cs@.len());
        if cs[i + k] != sep[k] {
            assert(cs@.subrange(i as int, i + sep@.len())[k as int] != sep@[k as int]);
            return false;
        }
        k = k + 1;
    }
    assert(cs@.subrange(i as int, i + sep@.len()) =~= sep@);
    true
}

/// The pieces of `s` between the occurrences of the nonempty `sep`.
pub fn split_on(s: &str, sep: &str) -> (r: Vec<String>)
    requires
        sep@.len() > 0,
    ensures
        r@.map_values(|p: String| p@) == split_from(s@, sep@, 0),
{
    let cs = chars_of(s);
    let sp = chars_of(sep);
    let n = cs.len();
    let m = sp.len();
    let mut out: Vec<String> = Vec::new();
    let mut start: usize = 0;
    let mut i: usize = 0;
    while m <= n && i <= n - m
        invariant
            cs@ == s@,
            sp@ == sep@,
            n == cs@.len(),
            m == sp@.len(),
            m > 0,
            start <= i <= n,
            find_from(s@, sep@, start as int) == find_from(s@, sep@, i as int),
            split_from(s@, sep@, 0) == out@.map_values(|p: String| p@) + split_from(
                s@,
                sep@,
                start as int,
            ),
        decreases n + 1 - i,
    {
        if occurs(&cs, &sp, i) {
            let piece = string_of(&cs, start, i);
            let ghost before = out@;
            proof {
                assert(find_from(s@, sep@, i as int) == Some(i as int));
                assert(split_from(s@, sep@, start as int) == seq![piece@] + split_from(
                    s@,
                    sep@,
                    i + m,
                ));
            }
            out.push(piece);
            proof {
                assert(out@.map_values(|p: String| p@) =~= before.map_values(|p: String| p@)
                    + seq![piece@]);
                assert(split_from(s@, sep@, 0) =~= out@.map_values(|p: String| p@) + split_from(
                    s@,
                    sep@,
                    i + m,
                ));
            }
            start = i + m;
            i = i + m;
        } else {
            i = i + 1;
        }
    }
    let piece = string_of(&cs, start, n);
    let ghost before = out@;
    proof {
        assert(find_from(s@, sep@, i as int) is None);
        assert(split_from(s@, sep@, start as int) == seq![piece@]);
    }
    out.push(piece);
    proof {
        assert(out@.map_values(|p: String| p@) =~= before.map_values(|p: String| p@) + seq![
            piece@,
        ]);
    }
    out
}

/// The stacks of a slideshow and the slides in each: stacks are separated
/// by a line of five dashes, slides within a stack by a line of three.
pub fn slide_sources(text: &str) -> (r: Vec<Vec<String>>)
    ensures
        r@.len() == split_from(text@, "\n-----\n"@, 0).len(),
        forall|k: int|
            0 <= k < r@.len() ==> (#[trigger] r@[k])@.map_values(|p: String| p@) == split_from(
                split_from(text@, "\n-----\n"@, 0)[k],
                "\n---\n"@,
                0,
            ),
{
    proof {
        reveal_strlit("\n-----\n");
        reveal_strlit("\n---\n");
    }
    let stacks = split_on(text, "\n-----\n");
    let ghost sv = stacks@.map_values(|p: String| p@);
    let mut r: Vec<Vec<String>> = Vec::new();
    for k in 0..stacks.len()
        invariant
            sv == stacks@.map_values(|p: String| p@),
            sv == split_from(text@, "\n-----\n"@, 0),
            "\n---\n"@.len() > 0,
            r@.len() == k,
            forall|j: int|
                0 <= j < k ==> (#[trigger] r@[j])@.map_values(|p: String| p@) == split_from(
                    sv[j],
                    "\n---\n"@,
                    0,
                ),
    {
        assert(sv[k as int] == stacks@[k as int]@);
        r.push(split_on(stacks[k].as_str(), "\n---\n"));
    }
    r
}

/// The HTML of a stack of slides: each slide's HTML in a section, the stack
/// in a section around them.
pub open spec fn stack_html(slides: Seq<Seq<char>>) -> Seq<char>
    decreases slides.len(),
{
    if slides.len() == 0 {
        "<section>"@
    } else {
        stack_html(slides.drop_last()) + "<section>"@ + slides.last() + "</section>"@
    }
}

/// The HTML of a slideshow: the stacks one after another.
pub open spec fn slides_html(stacks: Seq<Seq<Seq<char>>>) -> Seq<char>
    decreases stacks.len(),
{
    if stacks.len() == 0 {
        Seq::empty()
    } else {
        slides_html(stacks.drop_last()) + stack_html(stacks.last()) + "</section>"@
    }
}

/// The HTML of the slides of each stack.
pub open spec fn stacks_view(stacks: Seq<Vec<String>>) -> Seq<Seq<Seq<char>>> {
    stacks.map_values(|v: Vec<String>| v@.map_values(|p: String| p@))
}

/// Puts rendered slides together: each stack in a section, each slide in a
/// section within it.
pub fn assemble_slides(stacks: &[Vec<String>]) -> (r: String)
    ensures
        r@ == slides_html(stacks_view(stacks@)),
{
    let ghost sv = stacks_view(stacks@);
    let mut buff = String::new();
    for k in 0..stacks.len()
        invariant
            sv == stacks_view(stacks@),
            buff@ == slides_html(sv.take(k as int)),
    {
        let slides = &stacks[k];
        let ghost inner = slides@.map_values(|p: String| p@);
        let ghost prefix = buff@;
        push_str(&mut buff, "<section>");
        for j in 0..slides.len()
            invariant
                slides == stacks@[k as int],
                inner == slides@.map_values(|p: String| p@),
                buff@ == prefix + stack_html(inner.take(j as int)),
        {
            proof {
                assert(inner.take(j + 1).drop_last() =~= inner.take(j as int));
                assert(inner.take(j + 1).last() == slides@[j as int]@);
            }
            push_str(&mut buff, "<section>");
            push_str(&mut buff, slides[j].as_str());
            push_str(&mut buff, "</section>");
            proof {
                assert(buff@ =~= prefix + stack_html(inner.take(j + 1)));
            }
        }
        push_str(&mut buff, "</section>");
        proof {
            assert(inner.take(inner.len() as int) =~= inner);
            assert(sv.take(k + 1).drop_last() =~= sv.take(k as int));
            assert(sv.take(k + 1).last() == inner);
            assert(buff@ =~= slides_html(sv.take(k + 1)));
        }
    }
    proof {
        assert(sv.take(sv.len() as int) =~= sv);
    }
    buff
}

} // verus!

verus! {

/// The pieces joined again, with `sep` between each two.
pub open spec fn joined(pieces: Seq<Seq<char>>, sep: Seq<char>) -> Seq<char>
    decreases pieces.len(),
{
    if pieces.len() == 0 {
        Seq::empty()
    } else if pieces.len() == 1 {
        pieces[0]
    } else {
        pieces[0] + sep + joined(pieces.drop_first(), sep)
    }
}

/// Cutting a text at a separator loses nothing: joining the pieces with the
/// separator gives the text back.
pub proof fn lemma_split_joins_back(s: Seq<char>, sep: Seq<char>, from: int)
    requires
        sep.len() > 0,
        0 <= from <= s.len(),
    ensures
        joined(split_from(s, sep, from), sep) == s.subrange(from, s.len() as int),
    decreases s.len() - from,
{
    match find_from(s, sep, from) {
        Some(f) => {
            lemma_find_from(s, sep, from);
            let rest = split_from(s, sep, f + sep.len());
            lemma_split_joins_back(s, sep, f + sep.len());
            let pieces = split_from(s, sep, from);
            assert(pieces == seq![s.subrange(from, f)] + rest);
            assert(pieces.drop_first() =~= rest);
            assert(rest.len() > 0);
            assert(s.subrange(f, f + sep.len()) == sep);
            assert(s.subrange(from, s.len() as int) =~= s.subrange(from, f) + sep + s.subrange(
                f + sep.len(),
                s.len() as int,
            ));
        },
        None => {
            assert(split_from(s, sep, from) =~= seq![s.subrange(from, s.len() as int)]);
        },
    }
}

} // verus!
