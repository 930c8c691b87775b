//! A markdown document as the list of its nodes in document order, each with
//! its depth, and the passes that turn it into a page: ruby marks, pictures,
//! math, wiki links, inline directives, citations and headings.
//!
//! comrak parses the text and writes the HTML; every rewrite in between is
//! decided here. A node's depth is the number of its ancestors below the
//! document root, so its subtree is the run of nodes after it that are
//! deeper than it.

use comrak::nodes::{NodeHtmlBlock, NodeMath, NodeValue, NodeWikiLink};
use hayagriva::archive::ArchivedStyle;
use hayagriva::citationberg::Style;
use hayagriva::{BibliographyDriver, BibliographyRequest, BufWriteFormat, CitationItem, CitationRequest};
use pulldown_latex::{config::DisplayMode, push_mathml, Parser, RenderConfig, Storage};
use vstd::prelude::*;

use crate::datalog::views;
use crate::md::inline::{directive_nodes, has_directive, has_ruby, ruby_nodes, segment_node, segments, Inline, InlineView, Segment};
use crate::md::{flat_view, heading_slugs, indexed, matching, outline_of, slugs_of, HeadingView, MarkdownError, Outline, Parsed, WikiLinkResolver};
use crate::md::is_external_url;
use crate::paths::{path_ends_with, path_file_stem, path_with_extension};
use crate::plugin::slides::find_from;
use crate::strings::{decimal, decimal_string, lowercase, push_str};
use crate::text::ruby::{pieces, Piece};

verus! {

/// comrak's value of a node.
#[verifier::external_type_specification]
#[verifier::external_body]
pub struct ExNodeValue(NodeValue);

/// comrak's options for writing a document.
#[verifier::external_type_specification]
#[verifier::external_body]
pub struct ExOptions<'c>(comrak::Options<'c>);

/// A node of a markdown document: the kinds the passes read or write, with
/// their fields; every other kind is carried as comrak's value.
pub enum MdNode {
    /// Plain text.
    Text(String),
    /// A code span: its text, and comrak's node.
    Code { literal: String, node: NodeValue },
    /// A wiki link: its target, and whether it embeds the page.
    WikiLink { url: String, embed: bool },
    /// A formula, in display or inline mode, written with `$` or not.
    Math { literal: String, display: bool, dollar: bool },
    /// A heading: its level, and comrak's node.
    Heading { level: u8, node: NodeValue },
    /// An image: its address, and comrak's node.
    Image { url: String, node: NodeValue },
    /// A paragraph.
    Paragraph,
    /// Inline HTML written by a pass.
    HtmlInline(String),
    /// A block of HTML written by a pass.
    HtmlBlock { literal: String },
    /// Any other node, as comrak has it.
    Other(NodeValue),
}

/// A node as plain values.
pub enum MdView {
    Text(Seq<char>),
    Code { literal: Seq<char>, node: NodeValue },
    WikiLink { url: Seq<char>, embed: bool },
    Math { literal: Seq<char>, display: bool, dollar: bool },
    Heading { level: u8, node: NodeValue },
    Image { url: Seq<char>, node: NodeValue },
    Paragraph,
    HtmlInline(Seq<char>),
    HtmlBlock { literal: Seq<char> },
    Other(NodeValue),
}

impl View for MdNode {
    type V = MdView;

    open spec fn view(&self) -> MdView {
        match self {
            MdNode::Text(t) => MdView::Text(t@),
            MdNode::Code { literal, node } => MdView::Code { literal: literal@, node: *node },
            MdNode::WikiLink { url, embed } => MdView::WikiLink { url: url@, embed: *embed },
            MdNode::Math { literal, display, dollar } => MdView::Math {
                literal: literal@,
                display: *display,
                dollar: *dollar,
            },
            MdNode::Heading { level, node } => MdView::Heading { level: *level, node: *node },
            MdNode::Image { url, node } => MdView::Image { url: url@, node: *node },
            MdNode::Paragraph => MdView::Paragraph,
            MdNode::HtmlInline(h) => MdView::HtmlInline(h@),
            MdNode::HtmlBlock { literal } => MdView::HtmlBlock { literal: literal@ },
            MdNode::Other(v) => MdView::Other(*v),
        }
    }
}

/// A node with its depth, as plain values.
pub type Item = (nat, MdView);

/// The plain values of a document's nodes.
pub open spec fn items_view(v: Seq<(usize, MdNode)>) -> Seq<Item> {
    v.map_values(|p: (usize, MdNode)| (p.0 as nat, p.1@))
}

/// The nodes, in document order with their depths, that comrak parses a
/// page's text into.
pub uninterp spec fn markdown_tree(text: Seq<char>) -> Seq<Item>;

/// The HTML that comrak, with its default options, writes for a fragment
/// made of these nodes.
pub uninterp spec fn rendered_fragment(items: Seq<Item>) -> Seq<char>;

/// The MathML that pulldown-latex writes for a LaTeX formula.
pub uninterp spec fn mathml_of(latex: Seq<char>, display: bool) -> Seq<char>;

/// A comrak value as a node of this module: the fields the passes read
/// are copied out, and what they do not rewrite keeps comrak's value.
#[verifier::external_body]
fn md_node(v: NodeValue) -> (r: MdNode) {
    match v {
        NodeValue::Text(t) => MdNode::Text(t.into_owned()),
        NodeValue::Code(c) => MdNode::Code { literal: c.literal.clone(), node: NodeValue::Code(c) },
        NodeValue::WikiLink(w) => MdNode::WikiLink { url: w.url, embed: w.embed },
        NodeValue::Math(m) => MdNode::Math { literal: m.literal, display: m.display_math, dollar: m.dollar_math },
        NodeValue::Heading(h) => MdNode::Heading { level: h.level, node: NodeValue::Heading(h) },
        NodeValue::Image(l) => MdNode::Image { url: l.url.clone(), node: NodeValue::Image(l) },
        NodeValue::Paragraph => MdNode::Paragraph,
        other => MdNode::Other(other),
    }
}

/// A node of this module as comrak's value.
#[verifier::external_body]
fn comrak_value(n: &MdNode) -> (r: NodeValue) {
    match n {
        MdNode::Text(t) => NodeValue::Text(t.clone().into()),
        MdNode::Code { node, .. } | MdNode::Heading { node, .. } | MdNode::Image { node, .. } => node.clone(),
        MdNode::WikiLink { url, embed } => NodeValue::WikiLink(NodeWikiLink { url: url.clone(), embed: *embed }),
        MdNode::Math { literal, display, dollar } => NodeValue::Math(NodeMath { dollar_math: *dollar, display_math: *display, literal: literal.clone() }),
        MdNode::Paragraph => NodeValue::Paragraph,
        MdNode::HtmlInline(h) => NodeValue::HtmlInline(h.clone()),
        MdNode::HtmlBlock { literal } => NodeValue::HtmlBlock(NodeHtmlBlock { block_type: 0, literal: literal.clone() }),
        MdNode::Other(v) => v.clone(),
    }
}

/// comrak's `parse_document` with the options of a page (smart
/// punctuation, `$` math, emoji shortcodes, strikethrough, tables, task lists, wiki links with
/// the title after the pipe): the nodes below the root in document order,
/// each with the number of its ancestors below the root.
#[verifier::external_body]
fn parse_tree(text: &str) -> (r: Vec<(usize, MdNode)>)
    ensures
        items_view(r@) == markdown_tree(text@),
{
    let mut o = comrak::Options::default();
    o.parse.smart = true;
    o.extension.math_dollars = true;
    o.extension.shortcodes = true;
    o.extension.strikethrough = true;
    o.extension.table = true;
    o.extension.tasklist = true;
    o.extension.wikilinks_title_after_pipe = true;
    let arena = comrak::Arena::new();
    let root = comrak::parse_document(&arena, text, &o);
    root.descendants().skip(1).map(|n| (n.ancestors().skip(2).count(), md_node(n.data().value.clone()))).collect()
}

/// comrak's `format_html_with_plugins`, with the options the caller gives
/// and no plugin, on the tree that the nodes and their depths describe.
/// Writing into a `String` cannot fail (comrak's own `markdown_to_html`
/// unwraps the same call). What it writes depends on the options, which come
/// from the caller (for a page they keep raw HTML), so nothing is claimed of
/// the text.
#[verifier::external_body]
fn render_page(items: &Vec<(usize, MdNode)>, options: &comrak::Options<'static>) -> (r: String) {
    let arena = comrak::Arena::new();
    let root = arena.alloc(NodeValue::Document.into());
    let mut stack: Vec<comrak::Node> = Vec::new();
    for (depth, node) in items {
        let n = arena.alloc(comrak_value(node).into());
        stack.truncate(*depth);
        stack.last().copied().unwrap_or(root).append(n);
        stack.push(n);
    }
    let mut html = String::new();
    comrak::format_html_with_plugins(root, options, &mut html, &Default::default()).expect("writing to a String");
    html
}

/// comrak's `format_html_with_plugins`, with the default options and no
/// plugin, on the fragment made of the nodes `from..to`, whose depths count
/// from `base`. Writing into a `String` cannot fail (comrak's own
/// `markdown_to_html` unwraps the same call).
#[verifier::external_body]
fn render_fragment(items: &Vec<(usize, MdNode)>, from: usize, to: usize, base: usize) -> (r: String)
    requires
        from <= to <= items@.len(),
        forall|i: int| from <= i < to ==> items@[i].0 >= base,
    ensures
        r@ == rendered_fragment(shift(items_view(items@).subrange(from as int, to as int), base as nat)),
{
    let arena = comrak::Arena::new();
    let root = arena.alloc(NodeValue::Document.into());
    let mut stack: Vec<comrak::Node> = vec![root; base];
    for (depth, node) in &items[from..to] {
        let n = arena.alloc(comrak_value(node).into());
        stack.truncate(*depth);
        stack.last().copied().unwrap_or(root).append(n);
        stack.push(n);
    }
    let mut html = String::new();
    comrak::format_html_with_plugins(root, &Default::default(), &mut html, &Default::default()).expect("writing to a String");
    html
}

/// pulldown-latex's `push_mathml` on a formula, in display or inline mode.
/// It writes into a `String`, whose writes never fail, so its `expect`
/// never fires.
#[verifier::external_body]
fn mathml(latex: &str, display: bool) -> (r: String)
    ensures
        r@ == mathml_of(latex@, display),
{
    let mode = if display { DisplayMode::Block } else { DisplayMode::Inline };
    let storage = Storage::new();
    let mut buffer = String::new();
    push_mathml(&mut buffer, Parser::new(latex, &storage), RenderConfig { display_mode: mode, ..Default::default() }).expect("MathML fail");
    buffer
}


/// The node an inline node of a text rewrite becomes, at a depth.
pub open spec fn inline_item(d: nat, v: InlineView) -> Item {
    (d, match v {
        InlineView::Text(t) => MdView::Text(t),
        InlineView::HtmlInline(h) => MdView::HtmlInline(h),
        InlineView::Math(m) => MdView::Math { literal: m, display: false, dollar: false },
    })
}

/// What a node becomes where ruby marks are turned into HTML: a text
/// holding marks becomes its pieces, in order, at its depth.
pub open spec fn ruby_item(it: Item) -> Seq<Item> {
    match it.1 {
        MdView::Text(t) => if has_ruby(pieces(t)) {
            pieces(t).map_values(|p: Piece| inline_item(it.0, crate::md::inline::ruby_node(p)))
        } else {
            seq![it]
        },
        _ => seq![it],
    }
}

/// The nodes with every text's ruby marks turned into HTML.
pub open spec fn ruby_pass(s: Seq<Item>) -> Seq<Item>
    decreases s.len(),
{
    if s.len() == 0 {
        seq![]
    } else {
        ruby_item(s[0]) + ruby_pass(s.skip(1))
    }
}

/// What a node becomes where inline directives are rendered: a text
/// holding directives becomes its segments, in order, at its depth.
pub open spec fn directive_item(it: Item) -> Seq<Item> {
    match it.1 {
        MdView::Text(t) => if has_directive(segments(t)) {
            segments(t).map_values(|g: Segment| inline_item(it.0, segment_node(g)))
        } else {
            seq![it]
        },
        _ => seq![it],
    }
}

/// The nodes with every text's inline directives rendered.
pub open spec fn directive_pass(s: Seq<Item>) -> Seq<Item>
    decreases s.len(),
{
    if s.len() == 0 {
        seq![]
    } else {
        directive_item(s[0]) + directive_pass(s.skip(1))
    }
}

/// Appends the nodes of a text rewrite at a depth.
fn push_inlines(out: &mut Vec<(usize, MdNode)>, d: usize, parts: Vec<Inline>)
    ensures
        items_view(final(out)@) == items_view(old(out)@) + crate::md::inline::inline_views(parts@).map_values(
            |v: InlineView| inline_item(d as nat, v),
        ),
{
    let ghost start = items_view(out@);
    let ghost want = crate::md::inline::inline_views(parts@).map_values(|v: InlineView| inline_item(d as nat, v));
    let mut rest = parts;
    let ghost all = rest@;
    let n = rest.len();
    let mut k: usize = 0;
    while rest.len() > 0
        invariant
            all.len() == n,
            k + rest@.len() == all.len(),
            rest@ == all.skip(k as int),
            want == crate::md::inline::inline_views(all).map_values(|v: InlineView| inline_item(d as nat, v)),
            items_view(out@) == start + want.take(k as int),
        decreases rest.len(),
    {
        let ghost before = rest@;
        let part = rest.remove(0);
        assert(part == all[k as int]);
        let node = match part {
            Inline::Text(t) => MdNode::Text(t),
            Inline::HtmlInline(h) => MdNode::HtmlInline(h),
            Inline::Math(m) => MdNode::Math { literal: m, display: false, dollar: false },
        };
        assert((d as nat, node@) == want[k as int]);
        let ghost prev = out@;
        out.push((d, node));
        proof {
            assert(out@ == prev.push(out@.last()));
            assert(items_view(out@) =~= items_view(prev).push(want[k as int]));
            assert(rest@ =~= all.skip(k + 1));
            assert(want.take(k + 1) =~= want.take(k as int).push(want[k as int]));
            assert(items_view(out@) =~= start + want.take(k + 1));
        }
        k = k + 1;
    }
    proof {
        assert(want.take(k as int) =~= want);
    }
}

/// Turns the ruby marks of every text node into HTML.
pub fn with_ruby(items: Vec<(usize, MdNode)>) -> (r: Vec<(usize, MdNode)>)
    ensures
        items_view(r@) == ruby_pass(items_view(items@)),
{
    let ghost orig = items_view(items@);
    let mut rest = items;
    let mut out: Vec<(usize, MdNode)> = Vec::new();
    proof {
        assert(items_view(out@) =~= seq![]);
    }
    while rest.len() > 0
        invariant
            ruby_pass(orig) == items_view(out@) + ruby_pass(items_view(rest@)),
        decreases rest.len(),
    {
        let ghost before = items_view(rest@);
        let ghost out0 = items_view(out@);
        let (d, n) = rest.remove(0);
        proof {
            assert(items_view(rest@) =~= before.skip(1));
            assert(before[0] == (d as nat, n@));
        }
        match n {
            MdNode::Text(t) => match ruby_nodes(t.as_str()) {
                Some(parts) => {
                    push_inlines(&mut out, d, parts);
                    proof {
                        let ps = pieces(t@);
                        assert(crate::md::inline::inline_views(parts@).map_values(|v: InlineView| inline_item(d as nat, v))
                            =~= ps.map_values(|p: Piece| inline_item(d as nat, crate::md::inline::ruby_node(p))));
                    }
                },
                None => out.push((d, MdNode::Text(t))),
            },
            other => out.push((d, other)),
        }
        proof {
            assert(items_view(out@) =~= out0 + ruby_item(before[0]));
            assert(ruby_pass(before) == ruby_item(before[0]) + ruby_pass(before.skip(1)));
            assert(ruby_pass(orig) =~= items_view(out@) + ruby_pass(items_view(rest@)));
        }
    }
    proof {
        assert(ruby_pass(items_view(rest@)) =~= seq![]);
        assert(ruby_pass(orig) =~= items_view(out@));
    }
    out
}

/// Renders the inline directives of every text node.
pub fn with_directives(items: Vec<(usize, MdNode)>) -> (r: Vec<(usize, MdNode)>)
    ensures
        items_view(r@) == directive_pass(items_view(items@)),
{
    let ghost orig = items_view(items@);
    let mut rest = items;
    let mut out: Vec<(usize, MdNode)> = Vec::new();
    proof {
        assert(items_view(out@) =~= seq![]);
    }
    while rest.len() > 0
        invariant
            directive_pass(orig) == items_view(out@) + directive_pass(items_view(rest@)),
        decreases rest.len(),
    {
        let ghost before = items_view(rest@);
        let ghost out0 = items_view(out@);
        let (d, n) = rest.remove(0);
        proof {
            assert(items_view(rest@) =~= before.skip(1));
            assert(before[0] == (d as nat, n@));
        }
        match n {
            MdNode::Text(t) => match directive_nodes(t.as_str()) {
                Some(parts) => {
                    push_inlines(&mut out, d, parts);
                    proof {
                        let gs = segments(t@);
                        assert(crate::md::inline::inline_views(parts@).map_values(|v: InlineView| inline_item(d as nat, v))
                            =~= gs.map_values(|g: Segment| inline_item(d as nat, segment_node(g))));
                    }
                },
                None => out.push((d, MdNode::Text(t))),
            },
            other => out.push((d, other)),
        }
        proof {
            assert(items_view(out@) =~= out0 + directive_item(before[0]));
            assert(directive_pass(before) == directive_item(before[0]) + directive_pass(before.skip(1)));
            assert(directive_pass(orig) =~= items_view(out@) + directive_pass(items_view(rest@)));
        }
    }
    proof {
        assert(directive_pass(items_view(rest@)) =~= seq![]);
        assert(directive_pass(orig) =~= items_view(out@));
    }
    out
}


/// What a wiki link resolves to among the indexed pages: the one page that
/// matches it, or no page, or several.
pub enum LinkOutcome {
    Found(Seq<char>),
    NotFound,
    Ambiguous(Seq<Seq<char>>),
}

/// The outcome of resolving a wiki link among indexed pages, as
/// `WikiLinkResolver::resolve` decides it.
pub open spec fn link_outcome(entries: Seq<(Seq<char>, Seq<char>)>, link: Seq<char>) -> LinkOutcome {
    match path_file_stem(link) {
        None => LinkOutcome::NotFound,
        Some(stem) => {
            let m = matching(entries, lowercase(stem), link);
            if m.len() == 1 {
                LinkOutcome::Found(m[0])
            } else if m.len() == 0 {
                LinkOutcome::NotFound
            } else {
                LinkOutcome::Ambiguous(m)
            }
        },
    }
}

/// The HTML node that a formula becomes: a block for display math, inline
/// HTML otherwise.
pub open spec fn math_html(literal: Seq<char>, display: bool) -> MdView {
    if display {
        MdView::HtmlBlock { literal: mathml_of(literal, true) }
    } else {
        MdView::HtmlInline(mathml_of(literal, false))
    }
}

/// Puts a node and a list of hrefs in front of a pass's result.
pub open spec fn prepend(
    it: Item,
    refs: Seq<Seq<char>>,
    rest: Result<(Seq<Item>, Seq<Seq<char>>), (Seq<char>, LinkOutcome)>,
) -> Result<(Seq<Item>, Seq<Seq<char>>), (Seq<char>, LinkOutcome)> {
    match rest {
        Ok((items, hrefs)) => Ok((seq![it] + items, refs + hrefs)),
        Err(e) => Err(e),
    }
}

/// The nodes with every formula turned into MathML and, where pages are
/// indexed, every wiki link pointed at the page it resolves to, with those
/// hrefs in document order; or the first wiki link that does not resolve,
/// with its outcome.
pub open spec fn link_pass(s: Seq<Item>, entries: Option<Seq<(Seq<char>, Seq<char>)>>) -> Result<
    (Seq<Item>, Seq<Seq<char>>),
    (Seq<char>, LinkOutcome),
>
    decreases s.len(),
{
    if s.len() == 0 {
        Ok((seq![], seq![]))
    } else {
        let d = s[0].0;
        match s[0].1 {
            MdView::Math { literal, display, dollar } => prepend(
                (d, math_html(literal, display)),
                seq![],
                link_pass(s.skip(1), entries),
            ),
            MdView::WikiLink { url, embed } => match entries {
                None => prepend(s[0], seq![], link_pass(s.skip(1), entries)),
                Some(e) => match link_outcome(e, url) {
                    LinkOutcome::Found(href) => prepend(
                        (d, MdView::WikiLink { url: href, embed }),
                        seq![href],
                        link_pass(s.skip(1), entries),
                    ),
                    other => Err((url, other)),
                },
            },
            _ => prepend(s[0], seq![], link_pass(s.skip(1), entries)),
        }
    }
}

/// A pass's result with nodes and hrefs already produced put in front.
pub open spec fn combine(
    out: Seq<Item>,
    refs: Seq<Seq<char>>,
    rest: Result<(Seq<Item>, Seq<Seq<char>>), (Seq<char>, LinkOutcome)>,
) -> Result<(Seq<Item>, Seq<Seq<char>>), (Seq<char>, LinkOutcome)> {
    match rest {
        Ok((o2, r2)) => Ok((out + o2, refs + r2)),
        Err(e) => Err(e),
    }
}

proof fn lemma_combine_prepend(
    out: Seq<Item>,
    refs: Seq<Seq<char>>,
    it: Item,
    r: Seq<Seq<char>>,
    rest: Result<(Seq<Item>, Seq<Seq<char>>), (Seq<char>, LinkOutcome)>,
)
    ensures
        combine(out, refs, prepend(it, r, rest)) == combine(out.push(it), refs + r, rest),
{
    match rest {
        Ok((o2, r2)) => {
            assert(out + (seq![it] + o2) =~= out.push(it) + o2);
            assert(refs + (r + r2) =~= (refs + r) + r2);
        },
        Err(e) => {},
    }
}

/// The error `resolve` gives for a wiki link with this outcome.
pub open spec fn link_error(e: MarkdownError, link: Seq<char>, outcome: LinkOutcome) -> bool {
    match e {
        MarkdownError::WikiLinkNotFound(l) => l@ == link && outcome is NotFound,
        MarkdownError::WikiLinkAmbiguous(l, hrefs) => l@ == link && outcome == LinkOutcome::Ambiguous(
            views(hrefs@),
        ),
        MarkdownError::Format => false,
    }
}

/// The page entries of a resolver, if there is one.
pub open spec fn resolver_entries(resolver: Option<&WikiLinkResolver>) -> Option<Seq<(Seq<char>, Seq<char>)>> {
    match resolver {
        Some(r) => Some(r.entries()),
        None => None,
    }
}

/// Turns every formula into MathML and, with a resolver, points every wiki
/// link at the page it resolves to, collecting those hrefs in order; fails
/// with the error of the first wiki link that does not resolve.
pub fn with_math_and_links(items: Vec<(usize, MdNode)>, resolver: Option<&WikiLinkResolver>) -> (r: Result<
    (Vec<(usize, MdNode)>, Vec<String>),
    MarkdownError,
>)
    ensures
        match link_pass(items_view(items@), resolver_entries(resolver)) {
            Ok((out, refs)) => r matches Ok((v, hrefs)) && items_view(v@) == out && views(hrefs@) == refs,
            Err((link, outcome)) => r matches Err(e) && link_error(e, link, outcome),
        },
{
    let ghost orig = items_view(items@);
    let ghost entries = resolver_entries(resolver);
    let mut rest = items;
    let mut out: Vec<(usize, MdNode)> = Vec::new();
    let mut refs: Vec<String> = Vec::new();
    proof {
        assert(items_view(out@) =~= seq![]);
        assert(views(refs@) =~= seq![]);
    }
    while rest.len() > 0
        invariant
            entries == resolver_entries(resolver),
            orig == items_view(items@),
            link_pass(orig, entries) == combine(items_view(out@), views(refs@), link_pass(items_view(rest@), entries)),
        decreases rest.len(),
    {
        let ghost before = items_view(rest@);
        let ghost out0 = items_view(out@);
        let ghost refs0 = views(refs@);
        let (d, n) = rest.remove(0);
        proof {
            assert(items_view(rest@) =~= before.skip(1));
            assert(before[0] == (d as nat, n@));
        }
        match n {
            MdNode::Math { literal, display, dollar } => {
                let html = mathml(literal.as_str(), display);
                if display {
                    out.push((d, MdNode::HtmlBlock { literal: html }));
                } else {
                    out.push((d, MdNode::HtmlInline(html)));
                }
                proof {
                    assert(items_view(out@) =~= out0.push((d as nat, math_html(literal@, display))));
                    lemma_combine_prepend(out0, refs0, (d as nat, math_html(literal@, display)), seq![], link_pass(items_view(rest@), entries));
                    assert(refs0 + seq![] =~= refs0);
                }
            },
            MdNode::WikiLink { url, embed } => match resolver {
                None => {
                    out.push((d, MdNode::WikiLink { url, embed }));
                    proof {
                        assert(items_view(out@) =~= out0.push(before[0]));
                        lemma_combine_prepend(out0, refs0, before[0], seq![], link_pass(items_view(rest@), entries));
                        assert(refs0 + seq![] =~= refs0);
                    }
                },
                Some(res) => {
                    let found = res.resolve(url.as_str());
                    match found {
                        Ok(href) => {
                            refs.push(href.clone());
                            out.push((d, MdNode::WikiLink { url: href, embed }));
                            proof {
                                assert(link_outcome(res.entries(), url@) == LinkOutcome::Found(href@));
                                assert(items_view(out@) =~= out0.push(
                                    (d as nat, MdView::WikiLink { url: href@, embed }),
                                ));
                                assert(views(refs@) =~= refs0 + seq![href@]);
                                lemma_combine_prepend(out0, refs0, (d as nat, MdView::WikiLink { url: href@, embed }), seq![href@], link_pass(items_view(rest@), entries));
                            }
                        },
                        Err(e) => {
                            proof {
                                let o = link_outcome(res.entries(), url@);
                                assert(!(o is Found));
                                assert(link_error(e, url@, o));
                                assert(entries == Some(res.entries()));
                                assert(link_pass(before, entries) == Err::<(Seq<Item>, Seq<Seq<char>>), (Seq<char>, LinkOutcome)>((url@, o)));
                                assert(link_pass(orig, entries) == Err::<(Seq<Item>, Seq<Seq<char>>), (Seq<char>, LinkOutcome)>((url@, o)));
                            }
                            return Err(e);
                        },
                    }
                },
            },
            other => {
                out.push((d, other));
                proof {
                    assert(items_view(out@) =~= out0.push(before[0]));
                    lemma_combine_prepend(out0, refs0, before[0], seq![], link_pass(items_view(rest@), entries));
                    assert(refs0 + seq![] =~= refs0);
                }
            },
        }
    }
    proof {
        assert(items_view(rest@) =~= seq![]);
        assert(items_view(out@) + seq![] =~= items_view(out@));
        assert(views(refs@) + seq![] =~= views(refs@));
    }
    Ok((out, refs))
}


/// The number of nodes at the front that are deeper than `d`: the subtree
/// of a node of depth `d` that they follow.
pub open spec fn lead(s: Seq<Item>, d: nat) -> nat
    decreases s.len(),
{
    if s.len() > 0 && s[0].0 > d {
        1 + lead(s.skip(1), d)
    } else {
        0
    }
}

/// A subtree is no longer than what follows its node.
pub proof fn lemma_lead_bound(s: Seq<Item>, d: nat)
    ensures
        lead(s, d) <= s.len(),
    decreases s.len(),
{
    if s.len() > 0 && s[0].0 > d {
        lemma_lead_bound(s.skip(1), d);
    }
}

/// The nodes with their depths lowered by `k`.
pub open spec fn shift(s: Seq<Item>, k: nat) -> Seq<Item> {
    s.map_values(|it: Item| ((it.0 - k) as nat, it.1))
}

/// Takes the subtree that follows a node of depth `d` off the front of
/// `rest`, with its depths made relative to that node's children.
fn take_subtree(rest: &mut Vec<(usize, MdNode)>, d: usize) -> (children: Vec<(usize, MdNode)>)
    ensures
        lead(items_view(old(rest)@), d as nat) <= old(rest)@.len(),
        items_view(children@) == shift(
            items_view(old(rest)@).take(lead(items_view(old(rest)@), d as nat) as int),
            d as nat + 1,
        ),
        items_view(final(rest)@) == items_view(old(rest)@).skip(lead(items_view(old(rest)@), d as nat) as int),
{
    let ghost s = items_view(rest@);
    let mut children: Vec<(usize, MdNode)> = Vec::new();
    let ghost mut k: int = 0;
    proof {
        assert(s.skip(0) =~= s);
        assert(shift(s.take(0), d as nat + 1) =~= items_view(children@));
    }
    while rest.len() > 0 && rest[0].0 > d
        invariant
            0 <= k <= s.len(),
            items_view(rest@) == s.skip(k),
            lead(s, d as nat) == k + lead(s.skip(k), d as nat),
            items_view(children@) == shift(s.take(k), d as nat + 1),
        decreases rest.len(),
    {
        let ghost before = items_view(rest@);
        let (e, n) = rest.remove(0);
        proof {
            assert(before[0] == (e as nat, n@));
            assert(before.skip(1) =~= s.skip(k + 1));
            assert(items_view(rest@) =~= before.skip(1));
        }
        let ghost prev = children@;
        children.push((e - d - 1, n));
        proof {
            assert(items_view(children@) =~= items_view(prev).push(((e - d - 1) as nat, before[0].1)));
            assert(s.take(k + 1) =~= s.take(k).push(s[k]));
            assert(shift(s.take(k + 1), d as nat + 1) =~= shift(s.take(k), d as nat + 1).push(((s[k].0 - (d + 1)) as nat, s[k].1)));
            k = k + 1;
        }
    }
    proof {
        lemma_lead_bound(s, d as nat);
    }
    children
}

/// The text a node adds to its heading's title: a text's, or a code span's.
pub open spec fn text_of(it: Item) -> Seq<char> {
    match it.1 {
        MdView::Text(t) => t,
        MdView::Code { literal, node } => literal,
        _ => seq![],
    }
}

/// The texts and code spans of the nodes, joined.
pub open spec fn plain_text(s: Seq<Item>) -> Seq<char>
    decreases s.len(),
{
    if s.len() == 0 {
        seq![]
    } else {
        plain_text(s.drop_last()) + text_of(s.last())
    }
}

/// The headings of the nodes in document order, each as its title (the
/// texts and code spans below it) and its level.
pub open spec fn heading_texts(s: Seq<Item>) -> Seq<(Seq<char>, u8)>
    decreases s.len(),
{
    if s.len() == 0 {
        seq![]
    } else {
        match s[0].1 {
            MdView::Heading { level, node } => {
                let n = lead(s.skip(1), s[0].0);
                proof {
                    lemma_lead_bound(s.skip(1), s[0].0);
                }
                seq![(plain_text(s.subrange(1, 1 + n as int)), level)] + heading_texts(s.skip(1 + n as int))
            },
            _ => heading_texts(s.skip(1)),
        }
    }
}

/// The titles and levels of the headings, in document order.
fn collect_headings(items: &Vec<(usize, MdNode)>) -> (r: (Vec<String>, Vec<u8>))
    ensures
        r.0@.len() == r.1@.len(),
        heading_texts(items_view(items@)) == Seq::new(r.0@.len(), |i: int| (r.0@[i]@, r.1@[i])),
{
    let ghost s = items_view(items@);
    let mut texts: Vec<String> = Vec::new();
    let mut levels: Vec<u8> = Vec::new();
    let mut i: usize = 0;
    proof {
        assert(s.skip(0) =~= s);
    }
    while i < items.len()
        invariant
            s == items_view(items@),
            i <= items@.len(),
            texts@.len() == levels@.len(),
            heading_texts(s) == Seq::new(texts@.len(), |k: int| (texts@[k]@, levels@[k])) + heading_texts(s.skip(i as int)),
        decreases items@.len() - i,
    {
        let d = items[i].0;
        let ghost rest = s.skip(i as int);
        proof {
            assert(rest[0] == s[i as int]);
            assert(rest.skip(1) =~= s.skip(i + 1));
        }
        match &items[i].1 {
            MdNode::Heading { level, node } => {
                let mut text = String::new();
                let mut j: usize = i + 1;
                proof {
                    assert(s.subrange(i + 1, j as int) =~= seq![]);
                    assert(text@ =~= plain_text(s.subrange(i + 1, j as int)));
                }
                while j < items.len() && items[j].0 > d
                    invariant
                        s == items_view(items@),
                        i < j <= items@.len(),
                        d as nat == s[i as int].0,
                        text@ == plain_text(s.subrange(i + 1, j as int)),
                        lead(s.skip(i + 1), d as nat) == (j - i - 1) + lead(s.skip(j as int), d as nat),
                    decreases items@.len() - j,
                {
                    let ghost t0 = text@;
                    match &items[j].1 {
                        MdNode::Text(t) => crate::strings::push_str(&mut text, t.as_str()),
                        MdNode::Code { literal, node } => crate::strings::push_str(&mut text, literal.as_str()),
                        _ => {},
                    }
                    proof {
                        let sub = s.subrange(i + 1, j + 1);
                        assert(sub.drop_last() =~= s.subrange(i + 1, j as int));
                        assert(sub.last() == s[j as int]);
                        assert(text@ =~= t0 + text_of(s[j as int]));
                        assert(s.skip(j as int)[0] == s[j as int]);
                        assert(s.skip(j as int).skip(1) =~= s.skip(j + 1));
                    }
                    j = j + 1;
                }
                proof {
                    lemma_lead_bound(s.skip(j as int), d as nat);
                    assert(lead(s.skip(j as int), d as nat) == 0);
                    let n = lead(rest.skip(1), d as nat);
                    assert(n == j - i - 1);
                    assert(rest.subrange(1, 1 + n as int) =~= s.subrange(i + 1, j as int));
                    assert(rest.skip(1 + n as int) =~= s.skip(j as int));
                }
                let ghost tv = Seq::new(texts@.len(), |k: int| (texts@[k]@, levels@[k]));
                texts.push(text);
                levels.push(*level);
                proof {
                    assert(Seq::new(texts@.len(), |k: int| (texts@[k]@, levels@[k])) =~= tv + seq![(texts@.last()@, *level)]);
                }
                i = j;
            },
            _ => {
                i = i + 1;
            },
        }
    }
    proof {
        assert(s.skip(i as int) =~= seq![]);
    }
    (texts, levels)
}


/// The HTML a heading becomes: its level, its anchor id and the HTML of
/// what it holds.
pub open spec fn heading_html(level: u8, id: Seq<char>, inner: Seq<char>) -> Seq<char> {
    "<h"@ + decimal(level as nat) + " id=\""@ + id + "\">"@ + inner + "</h"@ + decimal(level as nat) + ">"@
}

/// The nodes with the `k`-th heading onward each replaced, subtree and all,
/// by an HTML block of its HTML, with the ids `ids` from the `k`-th on.
pub open spec fn heading_pass(s: Seq<Item>, ids: Seq<Seq<char>>, k: int) -> Seq<Item>
    decreases s.len(),
{
    if s.len() == 0 {
        seq![]
    } else {
        let d = s[0].0;
        match s[0].1 {
            MdView::Heading { level, node } => {
                let n = lead(s.skip(1), d);
                proof {
                    lemma_lead_bound(s.skip(1), d);
                }
                let inner = rendered_fragment(shift(s.subrange(1, 1 + n as int), d + 1));
                seq![(d, MdView::HtmlBlock { literal: heading_html(level, ids[k], inner) })]
                    + heading_pass(s.skip(1 + n as int), ids, k + 1)
            },
            _ => seq![s[0]] + heading_pass(s.skip(1), ids, k),
        }
    }
}

/// The titles of the headings, in order.
pub open spec fn heading_titles(s: Seq<Item>) -> Seq<Seq<char>> {
    heading_texts(s).map_values(|t: (Seq<char>, u8)| t.0)
}

/// The outline entries of the headings: title, id and level.
pub open spec fn heading_entries(s: Seq<Item>) -> Seq<(Seq<char>, Seq<char>, nat)> {
    let t = heading_texts(s);
    let ids = slugs_of(heading_titles(s));
    Seq::new(t.len(), |i: int| (t[i].0, ids[i], t[i].1 as nat))
}

proof fn lemma_slugs_len(texts: Seq<Seq<char>>)
    ensures
        slugs_of(texts).len() == texts.len(),
    decreases texts.len(),
{
    if texts.len() > 0 {
        lemma_slugs_len(texts.drop_last());
    }
}

proof fn lemma_heading_texts_step(s: Seq<Item>)
    requires
        s.len() > 0,
    ensures
        heading_texts(s).len() == (if s[0].1 is Heading {
            1 + heading_texts(s.skip(1 + lead(s.skip(1), s[0].0) as int)).len()
        } else {
            heading_texts(s.skip(1)).len()
        }),
{
}

/// Replaces every heading, subtree and all, by an HTML block
/// `<hN id="ID">...</hN>` whose id is the heading's slug and whose content
/// is what the heading holds, written with comrak's default options; gives
/// the outline of the headings too.
pub fn with_headings(items: Vec<(usize, MdNode)>) -> (r: (Vec<(usize, MdNode)>, Outline))
    ensures
        items_view(r.0@) == heading_pass(items_view(items@), slugs_of(heading_titles(items_view(items@))), 0),
        r.1@ == outline_of(heading_entries(items_view(items@))),
{
    let ghost orig = items_view(items@);
    let (texts, levels) = collect_headings(&items);
    let ids = heading_slugs(&texts);
    let ghost ts = heading_texts(orig);
    let ghost idv = slugs_of(heading_titles(orig));
    proof {
        assert(views(texts@) =~= heading_titles(orig));
        lemma_slugs_len(heading_titles(orig));
    }
    let mut flat: Vec<(String, String, usize)> = Vec::new();
    let mut i: usize = 0;
    while i < texts.len()
        invariant
            texts@.len() == levels@.len(),
            ids@.len() == texts@.len(),
            views(ids@) == idv,
            ts == Seq::new(texts@.len(), |k: int| (texts@[k]@, levels@[k])),
            ts == heading_texts(orig),
            idv == slugs_of(heading_titles(orig)),
            i <= texts@.len(),
            flat_view(flat@) == heading_entries(orig).take(i as int),
        decreases texts@.len() - i,
    {
        let ghost prev = flat@;
        let t = texts[i].clone();
        let id = ids[i].clone();
        proof {
            assert(heading_entries(orig)[i as int] == (t@, id@, levels@[i as int] as nat));
        }
        flat.push((t, id, levels[i] as usize));
        proof {
            assert(heading_entries(orig).take(i + 1) =~= heading_entries(orig).take(i as int).push(
                heading_entries(orig)[i as int],
            ));
            assert(flat_view(flat@) =~= flat_view(prev).push(flat_view(flat@).last()));
        }
        i = i + 1;
    }
    proof {
        assert(heading_entries(orig).take(i as int) =~= heading_entries(orig));
    }
    let outline = Outline::from_headings(flat);
    let mut rest = items;
    let mut out: Vec<(usize, MdNode)> = Vec::new();
    let mut k: usize = 0;
    proof {
        assert(items_view(out@) =~= seq![]);
    }
    while rest.len() > 0
        invariant
            heading_pass(orig, idv, 0) == items_view(out@) + heading_pass(items_view(rest@), idv, k as int),
            ts.len() == k + heading_texts(items_view(rest@)).len(),
            ts == heading_texts(orig),
            ids@.len() == ts.len(),
            views(ids@) == idv,
        decreases rest.len(),
    {
        let ghost before = items_view(rest@);
        let ghost out0 = items_view(out@);
        let (d, n) = rest.remove(0);
        proof {
            assert(items_view(rest@) =~= before.skip(1));
            assert(before[0] == (d as nat, n@));
            lemma_heading_texts_step(before);
        }
        match n {
            MdNode::Heading { level, node } => {
                let nids = ids.len();
                let children = take_subtree(&mut rest, d);
                let nc = children.len();
                let inner = render_fragment(&children, 0, nc, 0);
                let mut html = String::new();
                push_str(&mut html, "<h");
                let digits = decimal_string(level as u64);
                push_str(&mut html, digits.as_str());
                push_str(&mut html, " id=\"");
                push_str(&mut html, ids[k].as_str());
                push_str(&mut html, "\">");
                push_str(&mut html, inner.as_str());
                push_str(&mut html, "</h");
                push_str(&mut html, digits.as_str());
                push_str(&mut html, ">");
                out.push((d, MdNode::HtmlBlock { literal: html }));
                proof {
                    let nn = lead(before.skip(1), d as nat);
                    assert(items_view(children@).subrange(0, nc as int) =~= items_view(children@));
                    assert(shift(items_view(children@), 0) =~= items_view(children@));
                    assert(before.skip(1).take(nn as int) =~= before.subrange(1, 1 + nn as int));
                    assert(before.skip(1).skip(nn as int) =~= before.skip(1 + nn as int));
                    assert(html@ =~= heading_html(level, idv[k as int], rendered_fragment(shift(before.subrange(1, 1 + nn as int), d as nat + 1))));
                    assert(items_view(out@) =~= out0 + seq![(d as nat, MdView::HtmlBlock { literal: html@ })]);
                }
                assert(k < nids);
                k = k + 1;
            },
            other => {
                out.push((d, other));
                proof {
                    assert(items_view(out@) =~= out0 + seq![before[0]]);
                }
            },
        }
        proof {
            assert(heading_pass(orig, idv, 0) =~= items_view(out@) + heading_pass(items_view(rest@), idv, k as int));
        }
    }
    proof {
        assert(items_view(rest@) =~= seq![]);
        assert(items_view(out@) + seq![] =~= items_view(out@));
    }
    (out, outline)
}


/// Whether an image address points off the site.
pub open spec fn external(url: Seq<char>) -> bool {
    find_from(url, "://"@, 0) is Some
}

/// Whether a node is an image on the site, which a picture can replace.
pub open spec fn is_local_image(it: Item) -> bool {
    it.1 matches MdView::Image { url, node } && !external(url)
}

/// The number of images on the site among the nodes.
pub open spec fn image_count(s: Seq<Item>) -> nat
    decreases s.len(),
{
    if s.len() == 0 {
        0
    } else {
        (if is_local_image(s[0]) { 1nat } else { 0nat }) + image_count(s.skip(1))
    }
}

/// The picture given for the `k`-th image on the site, if any.
pub open spec fn picture_at(pictures: Seq<Option<String>>, k: int) -> Option<Seq<char>> {
    if 0 <= k < pictures.len() {
        match pictures[k] {
            Some(p) => Some(p@),
            None => None,
        }
    } else {
        None
    }
}

/// The images on the site, in document order, each as its address and the
/// HTML of its caption (what the image holds, written with comrak's default
/// options).
pub open spec fn picture_requests(s: Seq<Item>) -> Seq<(Seq<char>, Seq<char>)>
    decreases s.len(),
{
    if s.len() == 0 {
        seq![]
    } else {
        let rest = picture_requests(s.skip(1));
        match s[0].1 {
            MdView::Image { url, node } => if !external(url) {
                let n = lead(s.skip(1), s[0].0);
                proof {
                    lemma_lead_bound(s.skip(1), s[0].0);
                }
                seq![(url, rendered_fragment(shift(s.subrange(1, 1 + n as int), s[0].0 + 1)))] + rest
            } else {
                rest
            },
            _ => rest,
        }
    }
}

/// The nodes with each image on the site that has a picture replaced, with
/// its caption, by an HTML block of the picture; where the image is the
/// only child of a paragraph, the paragraph is replaced. The `k`-th image on
/// the site gets the `k`-th picture; images inside a replaced one are
/// counted but gone.
pub open spec fn picture_pass(s: Seq<Item>, pictures: Seq<Option<String>>, k: int) -> Seq<Item>
    decreases s.len(),
{
    if s.len() == 0 {
        seq![]
    } else {
        let d = s[0].0;
        let n = lead(s.skip(1), d);
        proof {
            lemma_lead_bound(s.skip(1), d);
        }
        if s[0].1 is Paragraph && s.len() > 1 && s[1].0 == d + 1 && is_local_image(s[1])
            && picture_at(pictures, k) is Some && n == 1 + lead(s.skip(2), d + 1) {
            seq![(d, MdView::HtmlBlock { literal: picture_at(pictures, k)->0 })]
                + picture_pass(s.skip(1 + n as int), pictures, k + image_count(s.subrange(1, 1 + n as int)))
        } else if is_local_image(s[0]) && picture_at(pictures, k) is Some {
            seq![(d, MdView::HtmlBlock { literal: picture_at(pictures, k)->0 })]
                + picture_pass(s.skip(1 + n as int), pictures, k + 1 + image_count(s.subrange(1, 1 + n as int)))
        } else {
            seq![s[0]] + picture_pass(s.skip(1), pictures, k + (if is_local_image(s[0]) { 1int } else { 0int }))
        }
    }
}

/// The length of the subtree that follows position `from`, for a node of
/// depth `d`.
fn lead_len(items: &Vec<(usize, MdNode)>, from: usize, d: usize) -> (n: usize)
    requires
        from <= items@.len(),
    ensures
        n == lead(items_view(items@).skip(from as int), d as nat),
        from + n <= items@.len(),
{
    let ghost s = items_view(items@);
    let mut j: usize = from;
    while j < items.len() && items[j].0 > d
        invariant
            s == items_view(items@),
            from <= j <= items@.len(),
            lead(s.skip(from as int), d as nat) == (j - from) + lead(s.skip(j as int), d as nat),
        decreases items@.len() - j,
    {
        proof {
            assert(s.skip(j as int)[0] == s[j as int]);
            assert(s.skip(j as int).skip(1) =~= s.skip(j + 1));
        }
        j = j + 1;
    }
    proof {
        if j < items@.len() {
            assert(s.skip(j as int)[0] == s[j as int]);
        }
    }
    j - from
}

proof fn lemma_image_count_push(s: Seq<Item>, it: Item)
    ensures
        image_count(s.push(it)) == image_count(s) + (if is_local_image(it) { 1nat } else { 0nat }),
    decreases s.len(),
{
    if s.len() == 0 {
        assert(s.push(it).skip(1) =~= seq![]);
        assert(image_count(s.push(it).skip(1)) == 0);
        assert(s.push(it)[0] == it);
    } else {
        assert(s.push(it).skip(1) =~= s.skip(1).push(it));
        assert(s.push(it)[0] == s[0]);
        lemma_image_count_push(s.skip(1), it);
    }
}

/// The number of images on the site among the nodes.
fn count_images(items: &Vec<(usize, MdNode)>) -> (r: usize)
    ensures
        r == image_count(items_view(items@)),
{
    let ghost s = items_view(items@);
    let mut c: usize = 0;
    let mut i: usize = 0;
    proof {
        assert(s.take(0) =~= seq![]);
    }
    while i < items.len()
        invariant
            s == items_view(items@),
            i <= items@.len(),
            c <= i,
            c == image_count(s.take(i as int)),
        decreases items@.len() - i,
    {
        proof {
            assert(s.take(i + 1) =~= s.take(i as int).push(s[i as int]));
            lemma_image_count_push(s.take(i as int), s[i as int]);
        }
        if let MdNode::Image { url, node } = &items[i].1 {
            if !is_external_url(url.as_str()) {
                c = c + 1;
            }
        }
        i = i + 1;
    }
    proof {
        assert(s.take(i as int) =~= s);
    }
    c
}

/// The picture given for the `k`-th image on the site, if any.
fn picture_for(pictures: &Vec<Option<String>>, k: usize) -> (r: Option<String>)
    ensures
        match r {
            Some(p) => picture_at(pictures@, k as int) == Some(p@),
            None => picture_at(pictures@, k as int) is None,
        },
{
    if k < pictures.len() {
        match &pictures[k] {
            Some(p) => Some(p.clone()),
            None => None,
        }
    } else {
        None
    }
}


proof fn lemma_image_count_split(s: Seq<Item>, m: int)
    requires
        0 <= m <= s.len(),
    ensures
        image_count(s) == image_count(s.take(m)) + image_count(s.skip(m)),
        image_count(s) <= s.len(),
    decreases s.len(),
{
    if s.len() == 0 {
        assert(s.take(m) =~= s);
        assert(s.skip(m) =~= s);
    } else if m == 0 {
        assert(s.skip(0) =~= s);
        assert(image_count(s.take(0)) == 0);
        lemma_image_count_split(s.skip(1), 0);
    } else {
        lemma_image_count_split(s.skip(1), m - 1);
        assert(s.skip(1).skip(m - 1) =~= s.skip(m));
        assert(s.take(m).skip(1) =~= s.skip(1).take(m - 1));
        assert(s.take(m)[0] == s[0]);
    }
}

proof fn lemma_image_count_shift(s: Seq<Item>, b: nat)
    ensures
        image_count(shift(s, b)) == image_count(s),
    decreases s.len(),
{
    if s.len() > 0 {
        assert(shift(s, b).skip(1) =~= shift(s.skip(1), b));
        lemma_image_count_shift(s.skip(1), b);
    }
}

/// Whether a node is an image on the site.
fn local_image(n: &MdNode) -> (r: bool)
    ensures
        r == is_local_image((0nat, n@)),
{
    match n {
        MdNode::Image { url, node } => !is_external_url(url.as_str()),
        _ => false,
    }
}

/// Replaces each image on the site that has a picture by an HTML block of
/// the picture, caption and all; where the image is the only child of a
/// paragraph, the paragraph is replaced. `pictures` holds a picture, or
/// none, for each image on the site in document order.
pub fn with_pictures(items: Vec<(usize, MdNode)>, pictures: &Vec<Option<String>>) -> (r: Vec<(usize, MdNode)>)
    ensures
        items_view(r@) == picture_pass(items_view(items@), pictures@, 0),
{
    let ghost orig = items_view(items@);
    let mut rest = items;
    let mut out: Vec<(usize, MdNode)> = Vec::new();
    let mut k: usize = 0;
    let total = rest.len();
    proof {
        assert(items_view(out@) =~= seq![]);
        lemma_image_count_split(orig, 0);
    }
    while rest.len() > 0
        invariant
            orig.len() == total,
            picture_pass(orig, pictures@, 0) == items_view(out@) + picture_pass(items_view(rest@), pictures@, k as int),
            k + image_count(items_view(rest@)) == image_count(orig),
            image_count(orig) <= orig.len(),
            orig.len() <= usize::MAX,
        decreases rest.len(),
    {
        let ghost before = items_view(rest@);
        let ghost out0 = items_view(out@);
        let ghost k0 = k as int;
        let d = rest[0].0;
        let n = lead_len(&rest, 1, d);
        let pic = picture_for(pictures, k);
        let is_para = match &rest[0].1 {
            MdNode::Paragraph => true,
            _ => false,
        };
        assert(is_para == (before[0].1 is Paragraph));
        let mut para_case = false;
        if is_para && rest.len() > 1 && rest[1].0 > d && rest[1].0 - d == 1 && local_image(&rest[1].1) && pic.is_some() {
            let m = lead_len(&rest, 2, rest[1].0);
            para_case = n == 1 + m;
        }
        assert(para_case == (before[0].1 is Paragraph && before.len() > 1 && before[1].0 == d + 1 && is_local_image(before[1])
            && picture_at(pictures@, k0) is Some && n == 1 + lead(before.skip(2), d as nat + 1)));
        proof {
            lemma_lead_bound(before.skip(1), d as nat);
            lemma_image_count_split(before, 1);
            lemma_image_count_split(before.skip(1), n as int);
            assert(before.take(1) =~= seq![before[0]]);
            assert(before.skip(1).skip(n as int) =~= before.skip(1 + n as int));
            assert(before.skip(1).take(n as int) =~= before.subrange(1, 1 + n as int));
            assert(image_count(seq![before[0]].skip(1)) == 0) by {
                assert(seq![before[0]].skip(1) =~= seq![]);
            }
        }
        if para_case {
            let _para = rest.remove(0);
            proof {
                assert(items_view(rest@) =~= before.skip(1));
                assert(before.skip(1).take(n as int) =~= before.subrange(1, 1 + n as int));
            }
            let sub = take_subtree(&mut rest, d);
            let c = count_images(&sub);
            proof {
                lemma_image_count_shift(before.subrange(1, 1 + n as int), d as nat + 1);
                assert(c == image_count(before.subrange(1, 1 + n as int)));
                assert(!is_local_image(before[0]));
            }
            let html = match pic {
                Some(p) => p,
                None => String::new(),
            };
            out.push((d, MdNode::HtmlBlock { literal: html }));
            k = k + c;
            proof {
                let it = (d as nat, MdView::HtmlBlock { literal: picture_at(pictures@, k0)->0 });
                assert(items_view(out@) =~= out0 + seq![it]);
                assert(picture_pass(before, pictures@, k0) == seq![it] + picture_pass(before.skip(1 + n as int), pictures@, k as int));
            }
        } else if local_image(&rest[0].1) && pic.is_some() {
            let _image = rest.remove(0);
            proof {
                assert(items_view(rest@) =~= before.skip(1));
                assert(before.skip(1).take(n as int) =~= before.subrange(1, 1 + n as int));
            }
            let sub = take_subtree(&mut rest, d);
            let c = count_images(&sub);
            proof {
                lemma_image_count_shift(before.subrange(1, 1 + n as int), d as nat + 1);
                assert(c == image_count(before.subrange(1, 1 + n as int)));
            }
            let html = match pic {
                Some(p) => p,
                None => String::new(),
            };
            out.push((d, MdNode::HtmlBlock { literal: html }));
            k = k + 1 + c;
            proof {
                let it = (d as nat, MdView::HtmlBlock { literal: picture_at(pictures@, k0)->0 });
                assert(items_view(out@) =~= out0 + seq![it]);
                assert(picture_pass(before, pictures@, k0) == seq![it] + picture_pass(before.skip(1 + n as int), pictures@, k as int));
            }
        } else {
            let (e, node) = rest.remove(0);
            let l = local_image(&node);
            out.push((e, node));
            if l {
                k = k + 1;
            }
            proof {
                assert(items_view(rest@) =~= before.skip(1));
                assert(items_view(out@) =~= out0 + seq![before[0]]);
                assert(picture_pass(before, pictures@, k0) == seq![before[0]] + picture_pass(before.skip(1), pictures@, k as int));
            }
        }
        proof {
            assert(picture_pass(orig, pictures@, 0) =~= items_view(out@) + picture_pass(items_view(rest@), pictures@, k as int));
        }
    }
    proof {
        assert(items_view(rest@) =~= seq![]);
        assert(items_view(out@) + seq![] =~= items_view(out@));
    }
    out
}


/// The nodes of a subtree are deeper than the node it follows.
pub proof fn lemma_lead_deep(s: Seq<Item>, d: nat, j: int)
    requires
        0 <= j < lead(s, d),
    ensures
        s[j].0 > d,
    decreases j,
{
    lemma_lead_bound(s, d);
    assert(lead(s, d) == 1 + lead(s.skip(1), d));
    if j > 0 {
        lemma_lead_deep(s.skip(1), d, j - 1);
        assert(s.skip(1)[j - 1] == s[j]);
    }
}

/// The images on the site, in document order, as (address, caption HTML).
fn collect_pictures(items: &Vec<(usize, MdNode)>) -> (r: Vec<(String, String)>)
    ensures
        r@.map_values(|p: (String, String)| (p.0@, p.1@)) == picture_requests(items_view(items@)),
{
    let ghost s = items_view(items@);
    let mut out: Vec<(String, String)> = Vec::new();
    let mut i: usize = 0;
    proof {
        assert(s.skip(0) =~= s);
        assert(out@.map_values(|p: (String, String)| (p.0@, p.1@)) =~= seq![]);
    }
    while i < items.len()
        invariant
            s == items_view(items@),
            i <= items@.len(),
            picture_requests(s) == out@.map_values(|p: (String, String)| (p.0@, p.1@)) + picture_requests(s.skip(i as int)),
        decreases items@.len() - i,
    {
        let ghost rest = s.skip(i as int);
        let ghost o0 = out@.map_values(|p: (String, String)| (p.0@, p.1@));
        proof {
            assert(rest[0] == s[i as int]);
            assert(rest.skip(1) =~= s.skip(i + 1));
        }
        let d = items[i].0;
        if let MdNode::Image { url, node } = &items[i].1 {
            if !is_external_url(url.as_str()) {
                let n = lead_len(items, i + 1, d);
                proof {
                    assert forall|j: int| i + 1 <= j < i + 1 + n implies items@[j].0 >= (if d < usize::MAX { d + 1 } else { d as int }) by {
                        lemma_lead_deep(s.skip(i + 1), d as nat, j - (i + 1));
                        assert(s.skip(i + 1)[j - (i + 1)] == s[j]);
                    }
                }
                let base = if d < usize::MAX { d + 1 } else { d };
                proof {
                    if d == usize::MAX && n > 0 {
                        lemma_lead_deep(s.skip(i + 1), d as nat, 0);
                        assert(s.skip(i + 1)[0] == s[i + 1]);
                    }
                    assert(s.subrange(i + 1, i + 1 + n) =~= items_view(items@).subrange(i + 1, i + 1 + n));
                    if n == 0 {
                        assert(shift(s.subrange(i + 1, i + 1 + n), base as nat) =~= shift(s.subrange(i + 1, i + 1 + n), d as nat + 1));
                    }
                }
                let caption = render_fragment(items, i + 1, i + 1 + n, base);
                out.push((url.clone(), caption));
                proof {
                    assert(rest.skip(1).take(n as int) =~= s.subrange(i + 1, i + 1 + n));
                    assert(s.skip(i + 1).subrange(0, n as int) =~= s.subrange(i + 1, i + 1 + n));
                    assert(rest.subrange(1, 1 + n as int) =~= s.subrange(i + 1, i + 1 + n));
                    assert(out@.map_values(|p: (String, String)| (p.0@, p.1@)) =~= o0 + seq![out@.last().0@].map_values(|u: Seq<char>| (u, out@.last().1@)));
                }
            }
        }
        i = i + 1;
    }
    proof {
        assert(s.skip(i as int) =~= seq![]);
    }
    out
}

/// Citations prepared for a document: the keys of the library's entries,
/// the HTML of the citation of each cited key in document order, and the
/// HTML of the bibliography's entries.
pub struct Citations {
    pub keys: Vec<String>,
    pub cites: Vec<String>,
    pub bibliography: Vec<String>,
}

/// Whether a node cites a library entry: inline math holding one of its keys.
pub open spec fn is_cite(it: Item, keys: Seq<Seq<char>>) -> bool {
    it.1 matches MdView::Math { literal, display, dollar } && !display && keys.contains(literal)
}

/// The number of nodes that cite a library entry.
pub open spec fn cite_count(s: Seq<Item>, keys: Seq<Seq<char>>) -> nat
    decreases s.len(),
{
    if s.len() == 0 {
        0
    } else {
        (if is_cite(s[0], keys) { 1nat } else { 0nat }) + cite_count(s.skip(1), keys)
    }
}

/// The literals of the inline formulas, in document order.
pub open spec fn math_literals(s: Seq<Item>) -> Seq<Seq<char>>
    decreases s.len(),
{
    if s.len() == 0 {
        seq![]
    } else {
        let rest = math_literals(s.skip(1));
        match s[0].1 {
            MdView::Math { literal, display, dollar } => if !display { seq![literal] + rest } else { rest },
            _ => rest,
        }
    }
}

/// The nodes with the `j`-th citing node onward replaced by inline HTML
/// `<cite>...</cite>` of the citation given for it, where one is given.
pub open spec fn cite_pass(s: Seq<Item>, keys: Seq<Seq<char>>, cites: Seq<Seq<char>>, j: int) -> Seq<Item>
    decreases s.len(),
{
    if s.len() == 0 {
        seq![]
    } else if is_cite(s[0], keys) {
        let it = if 0 <= j < cites.len() {
            (s[0].0, MdView::HtmlInline("<cite>"@ + cites[j] + "</cite>"@))
        } else {
            s[0]
        };
        seq![it] + cite_pass(s.skip(1), keys, cites, j + 1)
    } else {
        seq![s[0]] + cite_pass(s.skip(1), keys, cites, j)
    }
}

proof fn lemma_cite_pass_none(s: Seq<Item>, keys: Seq<Seq<char>>, cites: Seq<Seq<char>>, j: int)
    requires
        cite_count(s, keys) == 0,
    ensures
        cite_pass(s, keys, cites, j) == s,
    decreases s.len(),
{
    if s.len() > 0 {
        lemma_cite_pass_none(s.skip(1), keys, cites, j);
        assert(seq![s[0]] + s.skip(1) =~= s);
    }
}

/// Whether `key` is one of `keys`.
fn has_key(keys: &Vec<String>, key: &str) -> (r: bool)
    ensures
        r == views(keys@).contains(key@),
{
    let mut i: usize = 0;
    while i < keys.len()
        invariant
            i <= keys@.len(),
            forall|k: int| 0 <= k < i ==> keys@[k]@ != key@,
        decreases keys@.len() - i,
    {
        if crate::strings::same_text(keys[i].as_str(), key) {
            assert(views(keys@)[i as int] == key@);
            return true;
        }
        i = i + 1;
    }
    proof {
        if views(keys@).contains(key@) {
            let k = choose|k: int| 0 <= k < views(keys@).len() && views(keys@)[k] == key@;
            assert(keys@[k]@ == key@);
        }
    }
    false
}

/// Replaces the inline formulas that hold a library key by their
/// citations, in order, and gives the bibliography; without citations, or
/// where nothing cites the library, the nodes stay and there is no
/// bibliography.
pub fn with_citations(items: Vec<(usize, MdNode)>, citations: Option<&Citations>) -> (r: (
    Vec<(usize, MdNode)>,
    Option<Vec<String>>,
))
    ensures
        match citations {
            None => items_view(r.0@) == items_view(items@) && r.1 is None,
            Some(c) => if cite_count(items_view(items@), views(c.keys@)) == 0 {
                items_view(r.0@) == items_view(items@) && r.1 is None
            } else {
                items_view(r.0@) == cite_pass(items_view(items@), views(c.keys@), views(c.cites@), 0)
                    && (r.1 matches Some(b) && views(b@) == views(c.bibliography@))
            },
        },
{
    let c = match citations {
        None => return (items, None),
        Some(c) => c,
    };
    let ghost orig = items_view(items@);
    let ghost keys = views(c.keys@);
    let ghost cites = views(c.cites@);
    let mut rest = items;
    let mut out: Vec<(usize, MdNode)> = Vec::new();
    let mut j: usize = 0;
    let total = rest.len();
    proof {
        assert(items_view(out@) =~= seq![]);
        assert(orig.skip(0) =~= orig);
    }
    while rest.len() > 0
        invariant
            keys == views(c.keys@),
            cites == views(c.cites@),
            orig.len() == total,
            j + rest@.len() <= total,
            cite_pass(orig, keys, cites, 0) == items_view(out@) + cite_pass(items_view(rest@), keys, cites, j as int),
            cite_count(orig, keys) == j + cite_count(items_view(rest@), keys),
        decreases rest.len(),
    {
        let ghost before = items_view(rest@);
        let ghost out0 = items_view(out@);
        let (d, n) = rest.remove(0);
        proof {
            assert(items_view(rest@) =~= before.skip(1));
            assert(before[0] == (d as nat, n@));
        }
        let cited = match &n {
            MdNode::Math { literal, display, dollar } => !*display && has_key(&c.keys, literal.as_str()),
            _ => false,
        };
        assert(cited == is_cite(before[0], keys));
        if cited {
            if j < c.cites.len() {
                let mut html = String::new();
                push_str(&mut html, "<cite>");
                push_str(&mut html, c.cites[j].as_str());
                push_str(&mut html, "</cite>");
                out.push((d, MdNode::HtmlInline(html)));
                proof {
                    assert(items_view(out@) =~= out0 + seq![(d as nat, MdView::HtmlInline("<cite>"@ + cites[j as int] + "</cite>"@))]);
                }
            } else {
                out.push((d, n));
                proof {
                    assert(items_view(out@) =~= out0 + seq![before[0]]);
                }
            }
            j = j + 1;
        } else {
            out.push((d, n));
            proof {
                assert(items_view(out@) =~= out0 + seq![before[0]]);
            }
        }
        proof {
            assert(cite_pass(orig, keys, cites, 0) =~= items_view(out@) + cite_pass(items_view(rest@), keys, cites, j as int));
        }
    }
    proof {
        assert(items_view(rest@) =~= seq![]);
        assert(items_view(out@) + seq![] =~= items_view(out@));
    }
    if j == 0 {
        proof {
            lemma_cite_pass_none(orig, keys, cites, 0);
        }
        return (out, None);
    }
    let mut bib: Vec<String> = Vec::new();
    let mut i: usize = 0;
    while i < c.bibliography.len()
        invariant
            i <= c.bibliography@.len(),
            views(bib@) == views(c.bibliography@).take(i as int),
        decreases c.bibliography@.len() - i,
    {
        bib.push(c.bibliography[i].clone());
        proof {
            assert(views(c.bibliography@).take(i + 1) =~= views(c.bibliography@).take(i as int).push(c.bibliography@[i as int]@));
            assert(views(bib@) =~= views(c.bibliography@).take(i + 1));
        }
        i = i + 1;
    }
    proof {
        assert(views(c.bibliography@).take(i as int) =~= views(c.bibliography@));
    }
    (out, Some(bib))
}


/// Without indexed pages the link pass cannot fail.
pub proof fn lemma_link_pass_unindexed(s: Seq<Item>)
    ensures
        link_pass(s, None) is Ok,
    decreases s.len(),
{
    if s.len() > 0 {
        lemma_link_pass_unindexed(s.skip(1));
    }
}

/// The nodes after citations, and the bibliography, as `with_citations`
/// gives them.
pub open spec fn cited(s: Seq<Item>, citations: Option<&Citations>) -> (Seq<Item>, Option<Seq<Seq<char>>>) {
    match citations {
        None => (s, None),
        Some(c) => if cite_count(s, views(c.keys@)) == 0 {
            (s, None)
        } else {
            (cite_pass(s, views(c.keys@), views(c.cites@), 0), Some(views(c.bibliography@)))
        },
    }
}

/// The nodes of a page up to its wiki links: parsed, ruby marks turned into
/// HTML, pictures in place of the images that have one.
pub open spec fn page_nodes(text: Seq<char>, pictures: Seq<Option<String>>) -> Seq<Item> {
    picture_pass(ruby_pass(markdown_tree(text)), pictures, 0)
}

/// The literals of the inline formulas, in document order.
fn collect_math(items: &Vec<(usize, MdNode)>) -> (r: Vec<String>)
    ensures
        views(r@) == math_literals(items_view(items@)),
{
    let ghost s = items_view(items@);
    let mut out: Vec<String> = Vec::new();
    let mut i: usize = 0;
    proof {
        assert(s.skip(0) =~= s);
        assert(views(out@) =~= seq![]);
    }
    while i < items.len()
        invariant
            s == items_view(items@),
            i <= items@.len(),
            math_literals(s) == views(out@) + math_literals(s.skip(i as int)),
        decreases items@.len() - i,
    {
        let ghost rest = s.skip(i as int);
        let ghost o0 = views(out@);
        proof {
            assert(rest[0] == s[i as int]);
            assert(rest.skip(1) =~= s.skip(i + 1));
        }
        if let MdNode::Math { literal, display, dollar } = &items[i].1 {
            if !*display {
                out.push(literal.clone());
                proof {
                    assert(views(out@) =~= o0 + seq![literal@]);
                }
            }
        }
        i = i + 1;
    }
    proof {
        assert(s.skip(i as int) =~= seq![]);
    }
    out
}

/// The images on the site of a page, in document order, each as its
/// address and the HTML of its caption: what a picture is chosen by.
pub fn image_captions(file_text: &str) -> (r: Vec<(String, String)>)
    ensures
        r@.map_values(|p: (String, String)| (p.0@, p.1@)) == picture_requests(ruby_pass(markdown_tree(file_text@))),
{
    let items = with_ruby(parse_tree(file_text));
    collect_pictures(&items)
}

/// The literals of the inline formulas of a page once its inline
/// directives are rendered, in document order: the keys a citation may
/// hold.
pub fn cited_keys(file_text: &str, pictures: &Vec<Option<String>>) -> (r: Vec<String>)
    ensures
        views(r@) == math_literals(directive_pass(link_pass(page_nodes(file_text@, pictures@), None)->Ok_0.0)),
{
    let items = with_pictures(with_ruby(parse_tree(file_text)), pictures);
    proof {
        lemma_link_pass_unindexed(items_view(items@));
    }
    match with_math_and_links(items, None) {
        Ok((linked, _)) => collect_math(&with_directives(linked)),
        Err(_) => Vec::new(),
    }
}

/// A markdown page before comrak writes it: its nodes, the hrefs its wiki
/// links resolved to, its outline and its bibliography.
pub struct Page {
    pub nodes: Vec<(usize, MdNode)>,
    pub refs: Vec<String>,
    pub outline: Outline,
    pub bibliography: Option<Vec<String>>,
}

/// What `page` gives for a page whose wiki links were followed: the nodes
/// after inline directives, citations and headings, the outline and the
/// bibliography.
pub open spec fn finished(linked: Seq<Item>, citations: Option<&Citations>) -> (Seq<Item>, Seq<HeadingView>, Option<Seq<Seq<char>>>) {
    let c = cited(directive_pass(linked), citations);
    (heading_pass(c.0, slugs_of(heading_titles(c.0)), 0), outline_of(heading_entries(c.0)), c.1)
}

/// The nodes of a markdown page: its text is parsed; ruby marks become
/// HTML; the images on the site that have a picture in `pictures` become
/// it; formulas become MathML and wiki links point at the page they resolve
/// to; inline directives are rendered; formulas holding a library key
/// become their citations; headings get their anchors and make the outline.
/// Fails with the error of the first wiki link that does not resolve.
pub fn page(
    file_text: &str,
    resolver: Option<&WikiLinkResolver>,
    pictures: &Vec<Option<String>>,
    citations: Option<&Citations>,
) -> (r: Result<Page, MarkdownError>)
    ensures
        match link_pass(page_nodes(file_text@, pictures@), resolver_entries(resolver)) {
            Err((link, outcome)) => r matches Err(e) && link_error(e, link, outcome),
            Ok((linked, refs)) => r matches Ok(p) && {
                let f = finished(linked, citations);
                &&& items_view(p.nodes@) == f.0
                &&& views(p.refs@) == refs
                &&& p.outline@ == f.1
                &&& match p.bibliography {
                    Some(b) => f.2 == Some(views(b@)),
                    None => f.2 is None,
                }
            },
        },
{
    let items = with_pictures(with_ruby(parse_tree(file_text)), pictures);
    let (linked, refs) = match with_math_and_links(items, resolver) {
        Ok(x) => x,
        Err(e) => return Err(e),
    };
    let (items, bibliography) = with_citations(with_directives(linked), citations);
    let (nodes, outline) = with_headings(items);
    Ok(Page { nodes, refs, outline, bibliography })
}

/// Renders a markdown page: `page` makes its nodes, and comrak writes them
/// with `options`. It succeeds exactly when every wiki link resolves; the
/// HTML that comrak writes is not claimed (see `render_page`).
pub fn parse(
    file_text: &str,
    resolver: Option<&WikiLinkResolver>,
    pictures: &Vec<Option<String>>,
    citations: Option<&Citations>,
    options: &comrak::Options<'static>,
) -> (r: Result<Parsed, MarkdownError>)
    ensures
        match link_pass(page_nodes(file_text@, pictures@), resolver_entries(resolver)) {
            Err((link, outcome)) => r matches Err(e) && link_error(e, link, outcome),
            Ok((linked, refs)) => r matches Ok(p) && {
                let f = finished(linked, citations);
                &&& views(p.refs@) == refs
                &&& p.outline@ == f.1
                &&& match p.bibliography {
                    Some(b) => f.2 == Some(views(b@)),
                    None => f.2 is None,
                }
            },
        },
{
    let Page { nodes, refs, outline, bibliography } = match page(file_text, resolver, pictures, citations) {
        Ok(p) => p,
        Err(e) => return Err(e),
    };
    let html = render_page(&nodes, options);
    Ok(Parsed { html, refs, outline, bibliography })
}

/// The targets of the wiki links among the nodes, in document order.
pub open spec fn wiki_urls(s: Seq<Item>) -> Seq<Seq<char>>
    decreases s.len(),
{
    if s.len() == 0 {
        seq![]
    } else {
        let rest = wiki_urls(s.skip(1));
        match s[0].1 {
            MdView::WikiLink { url, embed } => seq![url] + rest,
            _ => rest,
        }
    }
}

/// The page a wiki link resolves to, where it resolves to one.
pub open spec fn resolved_href(entries: Seq<(Seq<char>, Seq<char>)>, link: Seq<char>) -> Seq<char> {
    match link_outcome(entries, link) {
        LinkOutcome::Found(href) => href,
        _ => seq![],
    }
}

/// A wiki link resolves to exactly one indexed page.
pub open spec fn resolves(entries: Seq<(Seq<char>, Seq<char>)>, link: Seq<char>) -> bool {
    link_outcome(entries, link) is Found
}

/// With indexed pages, the links of a document are followed exactly when
/// every wiki link in it resolves; the hrefs collected are those of its wiki
/// links in document order, repeats kept; and a failure names the first
/// wiki link that does not resolve.
pub proof fn lemma_link_pass_outcome(s: Seq<Item>, entries: Seq<(Seq<char>, Seq<char>)>)
    ensures
        link_pass(s, Some(entries)) is Ok <==> (forall|j: int|
            0 <= j < wiki_urls(s).len() ==> resolves(entries, #[trigger] wiki_urls(s)[j])),
        link_pass(s, Some(entries)) matches Ok((out, refs)) ==> refs == wiki_urls(s).map_values(
            |u: Seq<char>| resolved_href(entries, u),
        ),
        link_pass(s, Some(entries)) matches Err((link, outcome)) ==> exists|j: int|
            0 <= j < wiki_urls(s).len() && wiki_urls(s)[j] == link && outcome == link_outcome(entries, link)
                && !resolves(entries, link) && forall|i: int| 0 <= i < j ==> resolves(entries, #[trigger] wiki_urls(s)[i]),
    decreases s.len(),
{
    if s.len() > 0 {
        lemma_link_pass_outcome(s.skip(1), entries);
        let rest = wiki_urls(s.skip(1));
        let tail = link_pass(s.skip(1), Some(entries));
        match s[0].1 {
            MdView::WikiLink { url, embed } => {
                let us = wiki_urls(s);
                assert(us == seq![url] + rest);
                assert(us[0] == url);
                assert forall|j: int| 0 < j < us.len() implies us[j] == rest[j - 1] by {}
                if resolves(entries, url) {
                    if tail is Ok {
                        assert(forall|j: int| 0 <= j < us.len() ==> resolves(entries, #[trigger] us[j])) by {
                            assert forall|j: int| 0 <= j < us.len() implies resolves(entries, #[trigger] us[j]) by {
                                if j > 0 {
                                    assert(us[j] == rest[j - 1]);
                                }
                            }
                        }
                        assert(us.map_values(|u: Seq<char>| resolved_href(entries, u)) =~= seq![resolved_href(entries, url)]
                            + rest.map_values(|u: Seq<char>| resolved_href(entries, u)));
                    } else {
                        let (link, outcome) = tail->Err_0;
                        let j = choose|j: int|
                            0 <= j < rest.len() && rest[j] == link && outcome == link_outcome(entries, link)
                                && !resolves(entries, link) && forall|i: int| 0 <= i < j ==> resolves(entries, #[trigger] rest[i]);
                        assert(us[j + 1] == rest[j]);
                        assert forall|i: int| 0 <= i < j + 1 implies resolves(entries, #[trigger] us[i]) by {
                            if i > 0 {
                                assert(us[i] == rest[i - 1]);
                            }
                        }
                        assert(!resolves(entries, us[j + 1]));
                    }
                } else {
                    assert(!resolves(entries, us[0]));
                }
            },
            _ => {
                assert(wiki_urls(s) == rest);
                if tail is Ok {
                    assert(seq![] + tail->Ok_0.1 =~= tail->Ok_0.1);
                }
            },
        }
    }
}


/// The literals that the library holds a key for, in order: the citations
/// a page requests.
pub open spec fn requested(keys: Seq<Seq<char>>, literals: Seq<Seq<char>>) -> Seq<Seq<char>>
    decreases literals.len(),
{
    if literals.len() == 0 {
        seq![]
    } else if keys.contains(literals.last()) {
        requested(keys, literals.drop_last()).push(literals.last())
    } else {
        requested(keys, literals.drop_last())
    }
}

/// The citations a page requests: those of `literals` (the page's inline
/// formulas, as `cited_keys` gives them) that are keys of the library's
/// entries, in order.
pub fn cite_requests(library_keys: &Vec<String>, literals: &Vec<String>) -> (r: Vec<String>)
    ensures
        views(r@) == requested(views(library_keys@), views(literals@)),
{
    let mut r: Vec<String> = Vec::new();
    let mut i: usize = 0;
    while i < literals.len()
        invariant
            i <= literals@.len(),
            views(r@) == requested(views(library_keys@), views(literals@).take(i as int)),
        decreases literals@.len() - i,
    {
        let ghost t = views(literals@).take(i + 1);
        proof {
            assert(t.drop_last() =~= views(literals@).take(i as int));
            assert(t.last() == literals@[i as int]@);
        }
        if has_key(library_keys, literals[i].as_str()) {
            r.push(literals[i].clone());
            proof {
                assert(views(r@) =~= requested(views(library_keys@), t));
            }
        }
        i = i + 1;
    }
    proof {
        assert(views(literals@).take(i as int) =~= views(literals@));
    }
    r
}

/// The citations of a page: the keys of the library's entries, the first
/// `requests.len()` of the citations written for it (one for each request,
/// in order; the writer adds one for the whole library after them), and the
/// entries of the bibliography.
pub fn page_citations(
    keys: Vec<String>,
    requests: &Vec<String>,
    written: Vec<String>,
    bibliography: Vec<String>,
) -> (r: Citations)
    ensures
        views(r.keys@) == views(keys@),
        views(r.cites@) == views(written@).take(
            if requests@.len() < written@.len() {
                requests@.len() as int
            } else {
                written@.len() as int
            },
        ),
        views(r.bibliography@) == views(bibliography@),
{
    let n = if requests.len() < written.len() {
        requests.len()
    } else {
        written.len()
    };
    let mut cites: Vec<String> = Vec::new();
    let mut i: usize = 0;
    while i < n
        invariant
            n <= written@.len(),
            i <= n,
            views(cites@) == views(written@).take(i as int),
        decreases n - i,
    {
        cites.push(written[i].clone());
        proof {
            assert(views(written@).take(i + 1) =~= views(written@).take(i as int).push(written@[i as int]@));
            assert(views(cites@) =~= views(written@).take(i + 1));
        }
        i = i + 1;
    }
    Citations { keys, cites, bibliography }
}


/// hayagriva's rendered citations and bibliography.
#[verifier::external_type_specification]
#[verifier::external_body]
pub struct ExRendered(hayagriva::Rendered);

/// The keys of the entries, in order, that hayagriva reads from a BibLaTeX
/// text; nothing when the text does not parse.
pub uninterp spec fn biblatex_keys(text: Seq<char>) -> Option<Seq<Seq<char>>>;

/// What hayagriva writes in the IEEE style, as HTML, for the library that a
/// BibLaTeX text holds, asked first for a citation of each requested key in
/// order and then for one citation of the whole library: the citations, in
/// that order, and the entries of the bibliography.
pub uninterp spec fn ieee_citations(text: Seq<char>, requests: Seq<Seq<char>>) -> (Seq<Seq<char>>, Seq<Seq<char>>);

/// hayagriva's `io::from_biblatex_str` on a text, with the keys of the
/// library's entries in order, or nothing where the text does not parse.
#[verifier::external_body]
fn entry_keys(text: &str) -> (r: Option<Vec<String>>)
    ensures
        match r {
            Some(keys) => biblatex_keys(text@) == Some(views(keys@)),
            None => biblatex_keys(text@) is None,
        },
{
    let library = hayagriva::io::from_biblatex_str(text).ok()?;
    Some(library.iter().map(|entry| entry.key().to_string()).collect())
}

/// hayagriva's `ElemChildren::write_buf` as HTML on the citations and the
/// bibliography's entries of a rendering, in order. Writing into a `String`
/// cannot fail.
#[verifier::external_body]
fn rendered_html(rendered: hayagriva::Rendered) -> (r: (Vec<String>, Vec<String>)) {
    let html = |e: &hayagriva::ElemChildren| {
        let mut buf = String::new();
        e.write_buf(&mut buf, BufWriteFormat::Html).expect("writing to a String");
        buf
    };
    let items = rendered.bibliography.map(|b| b.items).unwrap_or_default();
    (rendered.citations.iter().map(|c| html(&c.citation)).collect(), items.iter().map(|i| html(&i.content)).collect())
}

/// hayagriva's `BibliographyDriver` in the IEEE style of its archive, with
/// its archived locales, on the library read from a BibLaTeX text: a
/// citation of each requested entry in order, then one of the whole library.
/// The text parses and each request is one of its keys, so its `expect`s
/// hold.
#[verifier::external_body]
fn write_citations(text: &str, requests: &Vec<String>) -> (r: (Vec<String>, Vec<String>))
    requires
        biblatex_keys(text@) is Some,
        forall|i: int| 0 <= i < requests@.len() ==> biblatex_keys(text@)->0.contains(#[trigger] requests@[i]@),
    ensures
        (views(r.0@), views(r.1@)) == ieee_citations(text@, views(requests@)),
{
    let library = hayagriva::io::from_biblatex_str(text).expect("a valid BibLaTeX text");
    let style = match ArchivedStyle::InstituteOfElectricalAndElectronicsEngineers.get() {
        Style::Independent(style) => Some(style),
        Style::Dependent(_) => None,
    }.expect("an independent style");
    let locales = hayagriva::archive::locales();
    let mut driver = BibliographyDriver::new();
    for key in requests {
        let entry = library.get(key).expect("a key of the library");
        driver.citation(CitationRequest::from_items(vec![CitationItem::with_entry(entry)], &style, &locales));
    }
    driver.citation(CitationRequest::from_items(library.iter().map(CitationItem::with_entry).collect(), &style, &locales));
    rendered_html(driver.finish(BibliographyRequest { style: &style, locale: None, locale_files: &locales }))
}

/// A bibliography file: its BibLaTeX text and the keys of its entries, in
/// order.
#[derive(Debug)]
pub struct BibFile {
    text: String,
    keys: Vec<String>,
}

impl BibFile {
    /// The keys are those that hayagriva reads from the text.
    #[verifier::type_invariant]
    spec fn well_read(self) -> bool {
        biblatex_keys(self.text@) == Some(views(self.keys@))
    }

    /// The BibLaTeX text.
    pub closed spec fn text(self) -> Seq<char> {
        self.text@
    }

    /// The keys of its entries, in order.
    pub closed spec fn keys(self) -> Seq<Seq<char>> {
        views(self.keys@)
    }

    /// Reads a bibliography from its BibLaTeX text; nothing where the text
    /// does not parse.
    pub fn read(text: &str) -> (r: Option<BibFile>)
        ensures
            match r {
                Some(b) => b.text() == text@ && biblatex_keys(text@) == Some(b.keys()),
                None => biblatex_keys(text@) is None,
            },
    {
        match entry_keys(text) {
            Some(keys) => Some(BibFile { text: crate::strings::owned(text), keys }),
            None => None,
        }
    }
}

proof fn lemma_requested_keys(keys: Seq<Seq<char>>, literals: Seq<Seq<char>>, i: int)
    requires
        0 <= i < requested(keys, literals).len(),
    ensures
        keys.contains(requested(keys, literals)[i]),
    decreases literals.len(),
{
    if literals.len() > 0 {
        let rest = requested(keys, literals.drop_last());
        if keys.contains(literals.last()) && i == rest.len() {
        } else {
            lemma_requested_keys(keys, literals.drop_last(), i);
        }
    }
}

/// The citations of a page that cites from `bib`: the requests are the
/// literals of its inline formulas that are keys of `bib` (`cited_keys`
/// gives them), each written in the IEEE style, and the bibliography is
/// written with them; without requests nothing is written.
pub fn citations_for(bib: &BibFile, literals: &Vec<String>) -> (r: Citations)
    ensures
        views(r.keys@) == bib.keys(),
        requested(bib.keys(), views(literals@)).len() == 0 ==> r.cites@.len() == 0 && r.bibliography@.len() == 0,
        requested(bib.keys(), views(literals@)).len() > 0 ==> {
            let requests = requested(bib.keys(), views(literals@));
            let w = ieee_citations(bib.text(), requests);
            &&& views(r.cites@) == w.0.take(if requests.len() < w.0.len() { requests.len() as int } else { w.0.len() as int })
            &&& views(r.bibliography@) == w.1
        },
{
    proof {
        use_type_invariant(bib);
    }
    let keys = clone_strings(&bib.keys);
    let requests = cite_requests(&keys, literals);
    if requests.len() == 0 {
        let c = page_citations(keys, &requests, Vec::new(), Vec::new());
        proof {
            assert(views(c.cites@).len() == c.cites@.len());
            assert(views(c.bibliography@).len() == c.bibliography@.len());
        }
        return c;
    }
    proof {
        assert forall|i: int| 0 <= i < requests@.len() implies biblatex_keys(bib.text@)->0.contains(#[trigger] requests@[i]@) by {
            lemma_requested_keys(views(keys@), views(literals@), i);
            assert(views(requests@)[i] == requests@[i]@);
        }
    }
    let (written, bibliography) = write_citations(bib.text.as_str(), &requests);
    page_citations(keys, &requests, written, bibliography)
}

/// A copy of a list of strings.
fn clone_strings(v: &Vec<String>) -> (r: Vec<String>)
    ensures
        views(r@) == views(v@),
{
    let mut r: Vec<String> = Vec::new();
    let mut i: usize = 0;
    while i < v.len()
        invariant
            i <= v@.len(),
            views(r@) == views(v@).take(i as int),
        decreases v@.len() - i,
    {
        r.push(v[i].clone());
        proof {
            assert(views(v@).take(i + 1) =~= views(v@).take(i as int).push(v@[i as int]@));
            assert(views(r@) =~= views(v@).take(i + 1));
        }
        i = i + 1;
    }
    proof {
        assert(views(v@).take(i as int) =~= views(v@));
    }
    r
}


/// The HTML that comrak, with its default options, writes for a markdown
/// text.
pub uninterp spec fn default_html(text: Seq<char>) -> Seq<char>;

/// comrak's `markdown_to_html` with the default options.
#[verifier::external_body]
pub(crate) fn markdown_default(text: &str) -> (r: String)
    ensures
        r@ == default_html(text@),
{
    comrak::markdown_to_html(text, &comrak::Options::default())
}


/// The pages among `hrefs`, in order, whose lowercase file stem is `key`
/// and whose path without extension ends with the components of `link`.
pub open spec fn candidates(hrefs: Seq<Seq<char>>, key: Seq<char>, link: Seq<char>) -> Seq<Seq<char>>
    decreases hrefs.len(),
{
    if hrefs.len() == 0 {
        seq![]
    } else {
        let h = hrefs.last();
        let rest = candidates(hrefs.drop_last(), key, link);
        match path_file_stem(h) {
            Some(stem) => if lowercase(stem) == key && path_ends_with(path_with_extension(h, seq![]), link) {
                rest.push(h)
            } else {
                rest
            },
            None => rest,
        }
    }
}

proof fn lemma_matching_indexed(hrefs: Seq<Seq<char>>, key: Seq<char>, link: Seq<char>)
    ensures
        matching(indexed(seq![], hrefs), key, link) == candidates(hrefs, key, link),
    decreases hrefs.len(),
{
    if hrefs.len() > 0 {
        lemma_matching_indexed(hrefs.drop_last(), key, link);
        let before = indexed(seq![], hrefs.drop_last());
        match path_file_stem(hrefs.last()) {
            Some(stem) => {
                assert(indexed(seq![], hrefs) == before.push((lowercase(stem), hrefs.last())));
                assert(before.push((lowercase(stem), hrefs.last())).drop_last() =~= before);
            },
            None => {},
        }
    }
}

/// A resolver that indexed the pages `hrefs`, in order, resolves a wiki
/// link among the pages whose lowercase file stem is the link's and whose
/// path without extension ends with the link's components, in the order
/// they were added: to the one such page; as ambiguous, listing them, when
/// there are several; as not found when there is none or the link has no
/// file stem.
pub proof fn lemma_resolver_pages(hrefs: Seq<Seq<char>>, link: Seq<char>)
    ensures
        link_outcome(indexed(seq![], hrefs), link) == match path_file_stem(link) {
            None => LinkOutcome::NotFound,
            Some(stem) => {
                let m = candidates(hrefs, lowercase(stem), link);
                if m.len() == 1 {
                    LinkOutcome::Found(m[0])
                } else if m.len() == 0 {
                    LinkOutcome::NotFound
                } else {
                    LinkOutcome::Ambiguous(m)
                }
            },
        },
{
    if let Some(stem) = path_file_stem(link) {
        lemma_matching_indexed(hrefs, lowercase(stem), link);
    }
}


/// Following the links of a page keeps its nodes one for one, each at its
/// depth: an inline formula (not display) becomes inline HTML that the MathML
/// writer wrote in inline mode, a display formula a block of HTML that it
/// wrote in display mode, and every other node but a wiki link stays as it
/// is.
pub proof fn lemma_link_pass_nodes(s: Seq<Item>, entries: Option<Seq<(Seq<char>, Seq<char>)>>)
    ensures
        link_pass(s, entries) matches Ok((out, refs)) ==> {
            &&& out.len() == s.len()
            &&& forall|i: int| 0 <= i < s.len() ==> (#[trigger] out[i]).0 == s[i].0
            &&& forall|i: int|
                0 <= i < s.len() ==> match s[i].1 {
                    MdView::Math { literal: formula, display, dollar } => #[trigger] out[i].1 == if display {
                        MdView::HtmlBlock { literal: mathml_of(formula, true) }
                    } else {
                        MdView::HtmlInline(mathml_of(formula, false))
                    },
                    MdView::WikiLink { url, embed } => out[i].1 is WikiLink,
                    _ => out[i].1 == s[i].1,
                }
        },
    decreases s.len(),
{
    if s.len() > 0 {
        lemma_link_pass_nodes(s.skip(1), entries);
        let tail = link_pass(s.skip(1), entries);
        if let Ok((out, refs)) = link_pass(s, entries) {
            let (o2, r2) = tail->Ok_0;
            assert(out.len() == 1 + o2.len());
            assert forall|i: int| 0 < i < s.len() implies out[i] == o2[i - 1] && s[i] == s.skip(1)[i - 1] by {}
        }
    }
}

} // verus!
