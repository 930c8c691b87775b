//! What the text of a markdown document becomes around ruby marks and inline
//! directives.
//!
//! An inline directive is written `:name[content]`: a `:`, one or more word
//! characters, a `[`, the content up to the first `]` (on one line), and the
//! `]`. Directives are found from left to right; each search resumes after
//! the directive found last.

use vstd::prelude::*;

use crate::strings::{chars_of, is_word_char, push_str, string_of, word_char};
use crate::text::ruby::{annotate, annotated_views, first_from, pieces, ruby_html, ruby_html_of, Annotated, Piece};

verus! {

/// An inline node of a rendered document.
#[derive(Debug)]
pub enum Inline {
    /// Plain text.
    Text(String),
    /// Raw HTML.
    HtmlInline(String),
    /// Inline math; a citation key is carried in one too.
    Math(String),
}

/// An inline node as plain values.
pub enum InlineView {
    Text(Seq<char>),
    HtmlInline(Seq<char>),
    Math(Seq<char>),
}

impl View for Inline {
    type V = InlineView;

    open spec fn view(&self) -> InlineView {
        match self {
            Inline::Text(t) => InlineView::Text(t@),
            Inline::HtmlInline(h) => InlineView::HtmlInline(h@),
            Inline::Math(m) => InlineView::Math(m@),
        }
    }
}

/// The plain values of a sequence of inline nodes.
pub open spec fn inline_views(v: Seq<Inline>) -> Seq<InlineView> {
    v.map_values(|n: Inline| n@)
}

/// The node a piece of annotated text becomes: text stays text, a ruby mark
/// becomes its HTML.
pub open spec fn ruby_node(p: Piece) -> InlineView {
    match p {
        Piece::Text(t) => InlineView::Text(t),
        Piece::Ruby(t, r) => InlineView::HtmlInline(ruby_html_of(t, r)),
    }
}

/// Some piece is a ruby mark.
pub open spec fn has_ruby(ps: Seq<Piece>) -> bool {
    exists|i: int| 0 <= i < ps.len() && ps[i] is Ruby
}

/// The nodes that replace a text node holding ruby marks: its plain text
/// and the HTML of each mark, in order; `None` when the text holds no mark
/// and stays as it is.
pub fn ruby_nodes(text: &str) -> (r: Option<Vec<Inline>>)
    ensures
        match r {
            None => !has_ruby(pieces(text@)),
            Some(v) => has_ruby(pieces(text@)) && inline_views(v@) == pieces(text@).map_values(
                |p: Piece| ruby_node(p),
            ),
        },
{
    let parts = annotate(text);
    let ghost ps = pieces(text@);
    let mut out: Vec<Inline> = Vec::new();
    let mut any = false;
    let mut i: usize = 0;
    while i < parts.len()
        invariant
            i <= parts@.len(),
            annotated_views(parts@) == ps,
            inline_views(out@) == ps.take(i as int).map_values(|p: Piece| ruby_node(p)),
            any <==> exists|j: int| 0 <= j < i && ps[j] is Ruby,
        decreases parts@.len() - i,
    {
        let ghost before = inline_views(out@);
        match &parts[i] {
            Annotated::Text(t) => {
                out.push(Inline::Text(crate::strings::owned(t)));
            },
            Annotated::Ruby(t, f) => {
                out.push(Inline::HtmlInline(ruby_html(t, f)));
                any = true;
            },
        }
        proof {
            assert(ps[i as int] == parts@[i as int]@);
            assert(ps.take(i + 1).map_values(|p: Piece| ruby_node(p)) =~= ps.take(i as int).map_values(
                |p: Piece| ruby_node(p),
            ).push(ruby_node(ps[i as int])));
            assert(inline_views(out@) =~= before.push(ruby_node(ps[i as int])));
        }
        i = i + 1;
    }
    proof {
        assert(ps.take(parts@.len() as int) =~= ps);
    }
    if any {
        Some(out)
    } else {
        None
    }
}

} // verus!

verus! {

/// The position of the first character at or after `from` that is not a
/// word character, or the length of `s`.
pub open spec fn first_non_word(s: Seq<char>, from: int) -> int
    decreases s.len() - from,
{
    if from >= s.len() {
        s.len() as int
    } else if from >= 0 && !word_char(s[from]) {
        from
    } else {
        first_non_word(s, from + 1)
    }
}

/// The directive that starts at `i`, as the positions of its `[` and its
/// `]`.
pub open spec fn directive_at(s: Seq<char>, i: int) -> Option<(int, int)> {
    if 0 <= i < s.len() && s[i] == ':' {
        let w = first_non_word(s, i + 1);
        if i + 1 < w < s.len() && s[w] == '[' {
            let c = first_from(s, ']', w + 1);
            if w < c < s.len() && first_from(s, '\n', w + 1) > c {
                Some((w, c))
            } else {
                None
            }
        } else {
            None
        }
    } else {
        None
    }
}

/// A piece of text around inline directives.
pub enum Segment {
    Text(Seq<char>),
    Directive(Seq<char>, Seq<char>),
}

/// The segments of `s` from the search position `p` on, where the text not
/// yet emitted starts at `last`.
pub open spec fn segments_from(s: Seq<char>, last: int, p: int) -> Seq<Segment>
    decreases s.len() - p,
{
    if p >= s.len() {
        if last < s.len() {
            seq![Segment::Text(s.subrange(last, s.len() as int))]
        } else {
            seq![]
        }
    } else {
        match directive_at(s, p) {
            Some((w, c)) => {
                let before = if last < p {
                    seq![Segment::Text(s.subrange(last, p))]
                } else {
                    seq![]
                };
                before + seq![Segment::Directive(s.subrange(p + 1, w), s.subrange(w + 1, c))]
                    + segments_from(s, c + 1, c + 1)
            },
            None => segments_from(s, last, p + 1),
        }
    }
}

/// The segments of `s`: its directives in order, with the text between them.
pub open spec fn segments(s: Seq<char>) -> Seq<Segment> {
    segments_from(s, 0, 0)
}

/// The node an inline directive becomes: `icon` an inline image, `cite` a
/// citation key carried in an inline math node, and any other name its own
/// text again.
pub open spec fn directive_node(name: Seq<char>, content: Seq<char>) -> InlineView {
    if name == "icon"@ {
        InlineView::HtmlInline("<img class=\"inline-icon\" src=\""@ + content + "\">"@)
    } else if name == "cite"@ {
        InlineView::Math(content)
    } else {
        InlineView::Text(":"@ + name + "["@ + content + "]"@)
    }
}

/// The node a segment becomes.
pub open spec fn segment_node(g: Segment) -> InlineView {
    match g {
        Segment::Text(t) => InlineView::Text(t),
        Segment::Directive(n, c) => directive_node(n, c),
    }
}

/// Some segment is a directive.
pub open spec fn has_directive(gs: Seq<Segment>) -> bool {
    exists|i: int| 0 <= i < gs.len() && gs[i] is Directive
}

/// The node for the inline directive `:name[content]`.
pub fn render_directive_inline(name: &str, content: &str) -> (r: Inline)
    ensures
        r@ == directive_node(name@, content@),
{
    if crate::strings::same_text(name, "icon") {
        let mut h = String::new();
        push_str(&mut h, "<img class=\"inline-icon\" src=\"");
        push_str(&mut h, content);
        push_str(&mut h, "\">");
        proof {
            assert(h@ =~= "<img class=\"inline-icon\" src=\""@ + content@ + "\">"@);
        }
        Inline::HtmlInline(h)
    } else if crate::strings::same_text(name, "cite") {
        Inline::Math(crate::strings::owned(content))
    } else {
        let mut t = String::new();
        push_str(&mut t, ":");
        push_str(&mut t, name);
        push_str(&mut t, "[");
        push_str(&mut t, content);
        push_str(&mut t, "]");
        proof {
            assert(t@ =~= ":"@ + name@ + "["@ + content@ + "]"@);
        }
        Inline::Text(t)
    }
}

/// The position of the first non-word character at or after `from`.
fn find_non_word(s: &Vec<char>, from: usize) -> (r: usize)
    requires
        from <= s@.len(),
    ensures
        r as int == first_non_word(s@, from as int),
{
    let mut i = from;
    while i < s.len()
        invariant
            from <= i <= s@.len(),
            first_non_word(s@, from as int) == first_non_word(s@, i as int),
        decreases s@.len() - i,
    {
        if !is_word_char(s[i]) {
            return i;
        }
        i = i + 1;
    }
    i
}

fn find_char(s: &Vec<char>, c: char, from: usize) -> (r: usize)
    requires
        from <= s@.len(),
    ensures
        r as int == first_from(s@, c, from as int),
{
    let mut i = from;
    while i < s.len()
        invariant
            from <= i <= s@.len(),
            first_from(s@, c, from as int) == first_from(s@, c, i as int),
        decreases s@.len() - i,
    {
        if s[i] == c {
            return i;
        }
        i = i + 1;
    }
    i
}

/// The directive that starts at `i`, if any.
fn directive_match(s: &Vec<char>, i: usize) -> (r: Option<(usize, usize)>)
    requires
        i < s@.len(),
    ensures
        match r {
            Some((w, c)) => directive_at(s@, i as int) == Some((w as int, c as int)),
            None => directive_at(s@, i as int) is None,
        },
{
    let n = s.len();
    if s[i] != ':' {
        return None;
    }
    let w = find_non_word(s, i + 1);
    if !(i + 1 < w && w < n && s[w] == '[') {
        return None;
    }
    let c = find_char(s, ']', w + 1);
    if w < c && c < n && find_char(s, '\n', w + 1) > c {
        Some((w, c))
    } else {
        None
    }
}

/// The nodes that replace a text node holding inline directives: its plain
/// text and the node of each directive, in order; `None` when the text
/// holds no directive and stays as it is.
pub fn directive_nodes(text: &str) -> (r: Option<Vec<Inline>>)
    ensures
        match r {
            None => !has_directive(segments(text@)),
            Some(v) => has_directive(segments(text@)) && inline_views(v@) == segments(text@).map_values(
                |g: Segment| segment_node(g),
            ),
        },
{
    let cs = chars_of(text);
    let n = cs.len();
    let ghost s = text@;
    let mut out: Vec<Inline> = Vec::new();
    let ghost mut segs: Seq<Segment> = Seq::empty();
    let mut any = false;
    let mut last: usize = 0;
    let mut p: usize = 0;
    while p < n
        invariant
            n == cs@.len(),
            cs@ == s,
            last <= p <= n,
            segments(s) == segs + segments_from(s, last as int, p as int),
            inline_views(out@) == segs.map_values(|g: Segment| segment_node(g)),
            any <==> has_directive(segs),
        decreases n - p,
    {
        match directive_match(&cs, p) {
            Some((w, c)) => {
                proof {
                    crate::text::ruby::lemma_first_from(s, ']', w + 1);
                }
                let ghost before = segs;
                if last < p {
                    let ghost ob = out@;
                    out.push(Inline::Text(string_of(&cs, last, p)));
                    proof {
                        let x = Segment::Text(s.subrange(last as int, p as int));
                        assert(inline_views(out@) =~= inline_views(ob).push(segment_node(x)));
                        assert(segs.push(x).map_values(|g: Segment| segment_node(g)) =~= segs.map_values(|g: Segment| segment_node(g)).push(segment_node(x)));
                        segs = segs.push(x);
                    }
                }
                let ghost ob2 = out@;
                let name = string_of(&cs, p + 1, w);
                let content = string_of(&cs, w + 1, c);
                out.push(render_directive_inline(name.as_str(), content.as_str()));
                proof {
                    let d = Segment::Directive(s.subrange(p + 1, w as int), s.subrange(w + 1, c as int));
                    let b = if last < p {
                        seq![Segment::Text(s.subrange(last as int, p as int))]
                    } else {
                        seq![]
                    };
                    assert(segs =~= before + b);
                    assert(inline_views(out@) =~= inline_views(ob2).push(segment_node(d)));
                    assert(segs.push(d).map_values(|g: Segment| segment_node(g)) =~= segs.map_values(|g: Segment| segment_node(g)).push(segment_node(d)));
                    segs = segs.push(d);
                    assert(segs =~= before + b + seq![d]);
                    assert(segs[segs.len() - 1] is Directive);
                    assert(has_directive(segs));
                }
                any = true;
                last = c + 1;
                p = c + 1;
            },
            None => {
                p = p + 1;
            },
        }
    }
    if last < n {
        let ghost before = segs;
        let ghost ob = out@;
        out.push(Inline::Text(string_of(&cs, last, n)));
        proof {
            let x = Segment::Text(s.subrange(last as int, n as int));
            assert(inline_views(out@) =~= inline_views(ob).push(segment_node(x)));
            assert(segs.push(x).map_values(|g: Segment| segment_node(g)) =~= segs.map_values(|g: Segment| segment_node(g)).push(segment_node(x)));
            segs = segs.push(x);
            if has_directive(segs) {
                let j = choose|j: int| 0 <= j < segs.len() && segs[j] is Directive;
                assert(j < before.len());
                assert(before[j] is Directive);
            }
            if has_directive(before) {
                let j = choose|j: int| 0 <= j < before.len() && before[j] is Directive;
                assert(segs[j] is Directive);
            }
            assert(segments_from(s, last as int, p as int) =~= seq![x]);
        }
    } else {
        assert(segments_from(s, last as int, p as int) =~= Seq::<Segment>::empty());
        assert(segs =~= segs + Seq::<Segment>::empty());
    }
    proof {
        assert(segments(s) =~= segs);
    }
    if any {
        Some(out)
    } else {
        None
    }
}

} // verus!

verus! {

/// The text a segment stands for in the source.
pub open spec fn segment_source(g: Segment) -> Seq<char> {
    match g {
        Segment::Text(t) => t,
        Segment::Directive(n, c) => ":"@ + n + "["@ + c + "]"@,
    }
}

/// The source text of a sequence of segments.
pub open spec fn segments_source(gs: Seq<Segment>) -> Seq<char>
    decreases gs.len(),
{
    if gs.len() == 0 {
        seq![]
    } else {
        segments_source(gs.drop_last()) + segment_source(gs.last())
    }
}

proof fn lemma_segments_source_add(a: Seq<Segment>, b: Seq<Segment>)
    ensures
        segments_source(a + b) == segments_source(a) + segments_source(b),
    decreases b.len(),
{
    if b.len() == 0 {
        assert(a + b =~= a);
        assert(segments_source(b) =~= seq![]);
        assert(segments_source(a) + segments_source(b) =~= segments_source(a));
    } else {
        assert((a + b).drop_last() =~= a + b.drop_last());
        assert((a + b).last() == b.last());
        lemma_segments_source_add(a, b.drop_last());
        assert(segments_source(a + b) =~= segments_source(a) + segments_source(b));
    }
}

proof fn lemma_segments_source_single(g: Segment)
    ensures
        segments_source(seq![g]) == segment_source(g),
{
    let gs = seq![g];
    assert(gs.drop_last() =~= Seq::<Segment>::empty());
    assert(segments_source(Seq::<Segment>::empty()) == Seq::<char>::empty());
    assert(gs.last() == g);
    assert(segments_source(gs) =~= segment_source(g));
}

proof fn lemma_segments_source_from(s: Seq<char>, last: int, p: int)
    requires
        0 <= last <= p <= s.len(),
    ensures
        segments_source(segments_from(s, last, p)) == s.subrange(last, s.len() as int),
    decreases s.len() - p,
{
    if p >= s.len() {
        if last < s.len() {
            lemma_segments_source_single(Segment::Text(s.subrange(last, s.len() as int)));
        } else {
            assert(s.subrange(last, s.len() as int) =~= Seq::<char>::empty());
        }
    } else {
        match directive_at(s, p) {
            Some((w, c)) => {
                crate::text::ruby::lemma_first_from(s, ']', w + 1);
                let before = if last < p {
                    seq![Segment::Text(s.subrange(last, p))]
                } else {
                    seq![]
                };
                let d = Segment::Directive(s.subrange(p + 1, w), s.subrange(w + 1, c));
                let mark = seq![d];
                let rest = segments_from(s, c + 1, c + 1);
                lemma_segments_source_from(s, c + 1, c + 1);
                lemma_segments_source_add(before + mark, rest);
                lemma_segments_source_add(before, mark);
                assert(segments_source(before) =~= s.subrange(last, p)) by {
                    if last < p {
                        lemma_segments_source_single(Segment::Text(s.subrange(last, p)));
                    } else {
                        assert(segments_source(Seq::<Segment>::empty()) == Seq::<char>::empty());
                    }
                }
                lemma_segments_source_single(d);
                reveal_strlit(":");
                reveal_strlit("[");
                reveal_strlit("]");
                assert(segments_source(mark) =~= s.subrange(p, c + 1));
                assert(s.subrange(last, p) + s.subrange(p, c + 1) + s.subrange(c + 1, s.len() as int)
                    =~= s.subrange(last, s.len() as int));
            },
            None => {
                lemma_segments_source_from(s, last, p + 1);
            },
        }
    }
}

/// Writing the segments back, each directive as `:name[content]`, gives
/// the input again: finding directives loses nothing.
pub proof fn lemma_directives_round_trip(s: Seq<char>)
    ensures
        segments_source(segments(s)) == s,
{
    lemma_segments_source_from(s, 0, 0);
    assert(s.subrange(0, s.len() as int) =~= s);
}

/// An unknown directive is left as the text it was written as.
pub proof fn lemma_unknown_directive_kept(name: Seq<char>, content: Seq<char>)
    requires
        name != "icon"@,
        name != "cite"@,
    ensures
        directive_node(name, content) == InlineView::Text(segment_source(Segment::Directive(name, content))),
{
}

} // verus!
