//! Ruby annotations: `[text]{reading}` marks a reading placed above a text,
//! as in `[漢字]{かんじ}`.
//!
//! A mark is a `[`, one or more characters other than `]`, the `]`, a `{`,
//! one or more characters other than `}`, and the `}`. Marks are found from
//! left to right; each search resumes after the mark found last.

use vstd::prelude::*;

use crate::strings::chars_of;

verus! {

/// The position of the first `c` in `s` at or after `from`, or the length of
/// `s` when there is none.
pub open spec fn first_from(s: Seq<char>, c: char, from: int) -> int
    decreases s.len() - from,
{
    if from >= s.len() {
        s.len() as int
    } else if from >= 0 && s[from] == c {
        from
    } else {
        first_from(s, c, from + 1)
    }
}

/// The mark that starts at `i`, as the positions of its `]` and its `}`.
pub open spec fn ruby_at(s: Seq<char>, i: int) -> Option<(int, int)> {
    if 0 <= i < s.len() && s[i] == '[' {
        let j = first_from(s, ']', i + 1);
        if i + 1 < j && j + 1 < s.len() && s[j + 1] == '{' {
            let k = first_from(s, '}', j + 2);
            if j + 2 < k < s.len() {
                Some((j, k))
            } else {
                None
            }
        } else {
            None
        }
    } else {
        None
    }
}

/// A piece of annotated text: plain text, or a text with its reading.
pub enum Piece {
    Text(Seq<char>),
    Ruby(Seq<char>, Seq<char>),
}

/// The pieces of `s` from the search position `p` on, where the text not yet
/// emitted starts at `last`.
pub open spec fn pieces_from(s: Seq<char>, last: int, p: int) -> Seq<Piece>
    decreases s.len() - p,
{
    if p >= s.len() {
        if last < s.len() {
            seq![Piece::Text(s.subrange(last, s.len() as int))]
        } else {
            seq![]
        }
    } else {
        match ruby_at(s, p) {
            Some((j, k)) => {
                let before = if last < p {
                    seq![Piece::Text(s.subrange(last, p))]
                } else {
                    seq![]
                };
                before + seq![Piece::Ruby(s.subrange(p + 1, j), s.subrange(j + 2, k))]
                    + pieces_from(s, k + 1, k + 1)
            },
            None => pieces_from(s, last, p + 1),
        }
    }
}

/// The pieces of `s`: the marks in order, with the text between them.
pub open spec fn pieces(s: Seq<char>) -> Seq<Piece> {
    pieces_from(s, 0, 0)
}

/// The text a piece stands for in the source: a mark is written back with
/// its brackets.
pub open spec fn piece_source(p: Piece) -> Seq<char> {
    match p {
        Piece::Text(t) => t,
        Piece::Ruby(t, r) => seq!['['] + t + seq![']', '{'] + r + seq!['}'],
    }
}

/// The source text of a sequence of pieces.
pub open spec fn source_of(ps: Seq<Piece>) -> Seq<char>
    decreases ps.len(),
{
    if ps.len() == 0 {
        seq![]
    } else {
        source_of(ps.drop_last()) + piece_source(ps.last())
    }
}

/// A piece of annotated text, borrowing from the input.
#[derive(Debug)]
pub enum Annotated<'a> {
    Text(&'a str),
    Ruby(&'a str, &'a str),
}

impl<'a> View for Annotated<'a> {
    type V = Piece;

    open spec fn view(&self) -> Piece {
        match self {
            Annotated::Text(t) => Piece::Text(t@),
            Annotated::Ruby(t, r) => Piece::Ruby(t@, r@),
        }
    }
}

/// The views of a sequence of pieces.
pub open spec fn annotated_views(v: Seq<Annotated>) -> Seq<Piece> {
    v.map_values(|a: Annotated| a@)
}

/// The position of the first `c` in `s` at or after `from`, or the length of
/// `s`.
fn find_from(s: &Vec<char>, c: char, from: usize) -> (r: usize)
    requires
        from <= s@.len(),
    ensures
        r as int == first_from(s@, c, from as int),
{
    let mut i = from;
    while i < s.len()
        invariant
            from <= i <= s@.len(),
            first_from(s@, c, from as int) == first_from(s@, c, i as int),
        decreases s@.len() - i,
    {
        if s[i] == c {
            return i;
        }
        i = i + 1;
    }
    i
}

/// The mark that starts at `i`, if any.
fn ruby_match(s: &Vec<char>, i: usize) -> (r: Option<(usize, usize)>)
    requires
        i < s@.len(),
    ensures
        match r {
            Some((j, k)) => ruby_at(s@, i as int) == Some((j as int, k as int)),
            None => ruby_at(s@, i as int) is None,
        },
{
    let n = s.len();
    if s[i] != '[' {
        return None;
    }
    let j = find_from(s, ']', i + 1);
    if !(i + 1 < j && j < n - 1 && s[j + 1] == '{') {
        return None;
    }
    let k = find_from(s, '}', j + 2);
    if j + 2 < k && k < n {
        Some((j, k))
    } else {
        None
    }
}

/// Splits `input` into plain text and ruby marks, in order; the marks keep
/// the text and the reading without their brackets.
pub fn annotate(input: &str) -> (parts: Vec<Annotated<'_>>)
    ensures
        annotated_views(parts@) == pieces(input@),
{
    let cs = chars_of(input);
    let n = cs.len();
    let mut parts: Vec<Annotated> = Vec::new();
    let mut last: usize = 0;
    let mut p: usize = 0;
    while p < n
        invariant
            n == cs@.len(),
            cs@ == input@,
            last <= p <= n,
            pieces(input@) == annotated_views(parts@) + pieces_from(input@, last as int, p as int),
        decreases n - p,
    {
        let ghost before = annotated_views(parts@);
        match ruby_match(&cs, p) {
            Some((j, k)) => {
                if last < p {
                    parts.push(Annotated::Text(input.substring_char(last, p)));
                }
                parts.push(Annotated::Ruby(input.substring_char(p + 1, j), input.substring_char(j + 2, k)));
                proof {
                    let b = if last < p {
                        seq![Piece::Text(input@.subrange(last as int, p as int))]
                    } else {
                        seq![]
                    };
                    assert(annotated_views(parts@) =~= before + b + seq![
                        Piece::Ruby(input@.subrange(p + 1, j as int), input@.subrange(j + 2, k as int)),
                    ]);
                }
                last = k + 1;
                p = k + 1;
            },
            None => {
                p = p + 1;
            },
        }
    }
    let ghost before = annotated_views(parts@);
    if last < n {
        parts.push(Annotated::Text(input.substring_char(last, n)));
        proof {
            assert(annotated_views(parts@) =~= before + seq![
                Piece::Text(input@.subrange(last as int, n as int)),
            ]);
        }
    } else {
        assert(annotated_views(parts@) =~= before + seq![]);
    }
    parts
}

} // verus!

verus! {

/// The first occurrence lies at or after the start, and holds the character
/// when it lies inside the text.
pub proof fn lemma_first_from(s: Seq<char>, c: char, from: int)
    requires
        0 <= from,
    ensures
        from <= first_from(s, c, from) || from > s.len(),
        first_from(s, c, from) <= s.len() || from > s.len(),
        first_from(s, c, from) < s.len() ==> s[first_from(s, c, from)] == c,
        forall|i: int| from <= i < first_from(s, c, from) && i < s.len() ==> s[i] != c,
    decreases s.len() - from,
{
    if from < s.len() && s[from] != c {
        lemma_first_from(s, c, from + 1);
    }
}

/// The source of two sequences of pieces put together is the two sources put
/// together.
pub proof fn lemma_source_of_add(a: Seq<Piece>, b: Seq<Piece>)
    ensures
        source_of(a + b) == source_of(a) + source_of(b),
    decreases b.len(),
{
    if b.len() == 0 {
        assert(a + b =~= a);
        assert(source_of(b) =~= seq![]);
        assert(source_of(a) + source_of(b) =~= source_of(a));
    } else {
        assert((a + b).drop_last() =~= a + b.drop_last());
        assert((a + b).last() == b.last());
        lemma_source_of_add(a, b.drop_last());
        assert(source_of(a + b) =~= source_of(a) + source_of(b));
    }
}

proof fn lemma_source_of_single(p: Piece)
    ensures
        source_of(seq![p]) == piece_source(p),
{
    let ps = seq![p];
    assert(ps.drop_last() =~= Seq::<Piece>::empty());
    assert(source_of(Seq::<Piece>::empty()) == Seq::<char>::empty());
    assert(ps.last() == p);
    assert(source_of(ps) == source_of(ps.drop_last()) + piece_source(ps.last()));
    assert(source_of(ps) =~= piece_source(p));
}

proof fn lemma_source_of_pieces_from(s: Seq<char>, last: int, p: int)
    requires
        0 <= last <= p <= s.len(),
    ensures
        source_of(pieces_from(s, last, p)) == s.subrange(last, s.len() as int),
    decreases s.len() - p,
{
    if p >= s.len() {
        if last < s.len() {
            lemma_source_of_single(Piece::Text(s.subrange(last, s.len() as int)));
        } else {
            assert(s.subrange(last, s.len() as int) =~= Seq::<char>::empty());
        }
    } else {
        match ruby_at(s, p) {
            Some((j, k)) => {
                lemma_first_from(s, ']', p + 1);
                lemma_first_from(s, '}', j + 2);
                let before = if last < p {
                    seq![Piece::Text(s.subrange(last, p))]
                } else {
                    seq![]
                };
                let mark = seq![Piece::Ruby(s.subrange(p + 1, j), s.subrange(j + 2, k))];
                let rest = pieces_from(s, k + 1, k + 1);
                lemma_source_of_pieces_from(s, k + 1, k + 1);
                lemma_source_of_add(before + mark, rest);
                lemma_source_of_add(before, mark);
                assert(source_of(before) =~= s.subrange(last, p)) by {
                    if last < p {
                        lemma_source_of_single(Piece::Text(s.subrange(last, p)));
                    } else {
                        assert(source_of(Seq::<Piece>::empty()) == Seq::<char>::empty());
                    }
                }
                lemma_source_of_single(Piece::Ruby(s.subrange(p + 1, j), s.subrange(j + 2, k)));
                assert(source_of(mark) =~= s.subrange(p, k + 1));
                assert(s.subrange(last, p) + s.subrange(p, k + 1) + s.subrange(k + 1, s.len() as int)
                    =~= s.subrange(last, s.len() as int));
            },
            None => {
                lemma_source_of_pieces_from(s, last, p + 1);
            },
        }
    }
}

/// Writing the pieces back, each mark with its brackets, gives the input
/// again: annotating loses nothing.
pub proof fn lemma_annotate_round_trip(s: Seq<char>)
    ensures
        source_of(pieces(s)) == s,
{
    lemma_source_of_pieces_from(s, 0, 0);
    assert(s.subrange(0, s.len() as int) =~= s);
}


/// The shape of annotated text: no text piece is empty, no two text pieces
/// are next to each other, and each mark has a nonempty text without `]`
/// and a nonempty reading without `}`.
pub open spec fn well_shaped(ps: Seq<Piece>) -> bool {
    &&& forall|i: int| 0 <= i < ps.len() ==> (#[trigger] ps[i] matches Piece::Text(t) ==> t.len() > 0)
    &&& forall|i: int| 0 <= i < ps.len() - 1 ==> (#[trigger] ps[i] is Text ==> ps[i + 1] is Ruby)
    &&& forall|i: int|
        0 <= i < ps.len() ==> (#[trigger] ps[i] matches Piece::Ruby(t, r) ==> t.len() > 0 && r.len() > 0
            && !t.contains(']') && !r.contains('}'))
}

proof fn lemma_shaped_join(a: Seq<Piece>, b: Seq<Piece>)
    requires
        well_shaped(a),
        well_shaped(b),
        a.len() > 0 && a.last() is Text ==> b.len() == 0 || b[0] is Ruby,
    ensures
        well_shaped(a + b),
{
    let ab = a + b;
    assert forall|i: int| 0 <= i < ab.len() - 1 && #[trigger] ab[i] is Text implies ab[i + 1] is Ruby by {
        if i < a.len() - 1 {
            assert(ab[i] == a[i] && ab[i + 1] == a[i + 1]);
        } else if i == a.len() - 1 {
            assert(ab[i] == a.last());
            assert(ab[i + 1] == b[0]);
        } else {
            assert(ab[i] == b[i - a.len()] && ab[i + 1] == b[i - a.len() + 1]);
        }
    }
    assert forall|i: int| 0 <= i < ab.len() implies (#[trigger] ab[i] matches Piece::Text(t) ==> t.len() > 0) by {
        if i < a.len() {
            assert(ab[i] == a[i]);
        } else {
            assert(ab[i] == b[i - a.len()]);
        }
    }
    assert forall|i: int| 0 <= i < ab.len() implies (#[trigger] ab[i] matches Piece::Ruby(t, r) ==> t.len() > 0
        && r.len() > 0 && !t.contains(']') && !r.contains('}')) by {
        if i < a.len() {
            assert(ab[i] == a[i]);
        } else {
            assert(ab[i] == b[i - a.len()]);
        }
    }
}

proof fn lemma_pieces_from_shaped(s: Seq<char>, last: int, p: int)
    requires
        0 <= last <= p,
    ensures
        well_shaped(pieces_from(s, last, p)),
    decreases s.len() - p,
{
    if p >= s.len() {
    } else {
        match ruby_at(s, p) {
            Some((j, k)) => {
                lemma_first_from(s, ']', p + 1);
                lemma_first_from(s, '}', j + 2);
                let t = s.subrange(p + 1, j);
                let r = s.subrange(j + 2, k);
                assert(!t.contains(']')) by {
                    if t.contains(']') {
                        let i = choose|i: int| 0 <= i < t.len() && t[i] == ']';
                        assert(s[p + 1 + i] == ']');
                    }
                }
                assert(!r.contains('}')) by {
                    if r.contains('}') {
                        let i = choose|i: int| 0 <= i < r.len() && r[i] == '}';
                        assert(s[j + 2 + i] == '}');
                    }
                }
                let before = if last < p {
                    seq![Piece::Text(s.subrange(last, p))]
                } else {
                    seq![]
                };
                let mark = seq![Piece::Ruby(t, r)];
                lemma_pieces_from_shaped(s, k + 1, k + 1);
                lemma_shaped_join(mark, pieces_from(s, k + 1, k + 1));
                lemma_shaped_join(before, mark + pieces_from(s, k + 1, k + 1));
                assert(before + mark + pieces_from(s, k + 1, k + 1) =~= before + (mark + pieces_from(s, k + 1, k + 1)));
            },
            None => {
                lemma_pieces_from_shaped(s, last, p + 1);
            },
        }
    }
}

/// Annotated text is well shaped: text pieces are nonempty and never next
/// to each other, and each mark holds a nonempty text without `]` and a
/// nonempty reading without `}`.
pub proof fn lemma_annotate_shape(s: Seq<char>)
    ensures
        well_shaped(pieces(s)),
{
    lemma_pieces_from_shaped(s, 0, 0);
}

} // verus!

verus! {

/// The HTML of a ruby mark: the text with its reading above it, and the
/// reading in parentheses where ruby is not supported.
pub open spec fn ruby_html_of(text: Seq<char>, ruby: Seq<char>) -> Seq<char> {
    "<ruby>"@ + text + "<rp>(</rp><rt>"@ + ruby + "</rt><rp>)</rp></ruby>"@
}

/// The HTML of a ruby mark with the text `text` and the reading `ruby`.
pub fn ruby_html(text: &str, ruby: &str) -> (r: String)
    ensures
        r@ == ruby_html_of(text@, ruby@),
{
    let mut r = String::new();
    crate::strings::push_str(&mut r, "<ruby>");
    crate::strings::push_str(&mut r, text);
    crate::strings::push_str(&mut r, "<rp>(</rp><rt>");
    crate::strings::push_str(&mut r, ruby);
    crate::strings::push_str(&mut r, "</rt><rp>)</rp></ruby>");
    proof {
        assert(r@ =~= ruby_html_of(text@, ruby@));
    }
    r
}

} // verus!
