//! The decisions behind rendering a markdown document: resolving wiki links,
//! building the outline from the headings, and the text that ruby marks and
//! inline directives become.

pub mod inline;
pub mod doc;

pub use doc::{cited_keys, citations_for, image_captions, page, parse, BibFile, Citations, Page};

use vstd::prelude::*;

use crate::datalog::views;
use crate::paths::{ends_with, file_stem, path_ends_with, path_file_stem, path_with_extension, with_extension};
use crate::strings::{lowercase, owned, same_text, to_lowercase};

verus! {

/// What can go wrong while rendering a markdown document.
#[derive(Debug)]
pub enum MarkdownError {
    /// No page matches the wiki link.
    WikiLinkNotFound(String),
    /// Several pages match the wiki link; they are listed.
    WikiLinkAmbiguous(String, Vec<String>),
    /// Writing the output failed.
    Format,
}

/// The syntax highlighter that renders fenced code blocks.
pub struct Highlighter;

impl Highlighter {
    /// The language a code block is highlighted as: the one it names, else
    /// plain text.
    pub fn language<'a>(lang: Option<&'a str>) -> (r: &'a str)
        ensures
            match lang {
                Some(l) => r@ == l@,
                None => r@ == "text"@,
            },
    {
        match lang {
            Some(l) => l,
            None => "text",
        }
    }
}

/// A rendered markdown document.
pub struct Parsed {
    /// The HTML of the document.
    pub html: String,
    /// The hrefs of the pages that its wiki links resolved to, in order.
    pub refs: Vec<String>,
    /// The outline of its headings.
    pub outline: Outline,
    /// The bibliography, when the document was rendered with a library.
    pub bibliography: Option<Vec<String>>,
}

/// The hrefs, in the order they were added, whose lowercase stem is `key` and
/// whose path without extension ends with the components of `link`.
pub open spec fn matching(entries: Seq<(Seq<char>, Seq<char>)>, key: Seq<char>, link: Seq<char>) -> Seq<Seq<char>>
    decreases entries.len(),
{
    if entries.len() == 0 {
        seq![]
    } else {
        let e = entries.last();
        let rest = matching(entries.drop_last(), key, link);
        if e.0 == key && path_ends_with(path_with_extension(e.1, seq![]), link) {
            rest.push(e.1)
        } else {
            rest
        }
    }
}

/// Resolves `[[links]]` by the file name of the target page.
pub struct WikiLinkResolver {
    /// Each indexed page as (lowercase file stem, href), in the order added.
    index: Vec<(String, String)>,
}

impl WikiLinkResolver {
    /// The indexed pages as (lowercase file stem, href), in the order added.
    pub closed spec fn entries(self) -> Seq<(Seq<char>, Seq<char>)> {
        self.index@.map_values(|e: (String, String)| (e.0@, e.1@))
    }

    /// A resolver that knows no page.
    pub fn new() -> (r: Self)
        ensures
            r.entries() == Seq::<(Seq<char>, Seq<char>)>::empty(),
    {
        let r = WikiLinkResolver { index: Vec::new() };
        assert(r.entries() =~= Seq::<(Seq<char>, Seq<char>)>::empty());
        r
    }

    /// A resolver that knows the pages `hrefs`.
    pub fn from_assets(hrefs: &Vec<String>) -> (r: Self)
        ensures
            r.entries() == indexed(Seq::empty(), views(hrefs@)),
    {
        let mut resolver = Self::new();
        resolver.add_all(hrefs);
        resolver
    }

    /// Indexes the page `href` under its lowercase file stem, e.g.
    /// `wiki/tech/rust.html` under `rust`; a path without a file name is not
    /// indexed.
    pub fn add(&mut self, href: &str)
        ensures
            final(self).entries() == indexed_one(old(self).entries(), href@),
    {
        if let Some(stem) = file_stem(href) {
            let key = to_lowercase(stem.as_str());
            let ghost before = self.entries();
            self.index.push((key, owned(href)));
            proof {
                assert(self.entries() =~= before.push((lowercase(stem@), href@)));
            }
        }
    }

    /// Indexes each of the pages `hrefs`, in order.
    pub fn add_all(&mut self, hrefs: &Vec<String>)
        ensures
            final(self).entries() == indexed(old(self).entries(), views(hrefs@)),
    {
        let mut i: usize = 0;
        while i < hrefs.len()
            invariant
                i <= hrefs@.len(),
                self.entries() == indexed(old(self).entries(), views(hrefs@).take(i as int)),
            decreases hrefs@.len() - i,
        {
            self.add(hrefs[i].as_str());
            proof {
                let t = views(hrefs@).take(i + 1);
                assert(t.drop_last() =~= views(hrefs@).take(i as int));
                assert(t.last() == hrefs@[i as int]@);
            }
            i = i + 1;
        }
        proof {
            assert(views(hrefs@).take(hrefs@.len() as int) =~= views(hrefs@));
        }
    }

    /// The href of the one page that `link` names: the pages whose file stem
    /// equals the link's, ignoring case, and whose path without extension
    /// ends with the link's components (`tech/Rust` matches
    /// `/wiki/tech/Rust.html` but not `/wiki/game/Rust.html`).
    pub fn resolve(&self, link: &str) -> (r: Result<String, MarkdownError>)
        ensures
            match path_file_stem(link@) {
                None => r matches Err(MarkdownError::WikiLinkNotFound(l)) && l@ == link@,
                Some(stem) => {
                    let m = matching(self.entries(), lowercase(stem), link@);
                    match r {
                        Ok(href) => m.len() == 1 && href@ == m[0],
                        Err(MarkdownError::WikiLinkNotFound(l)) => l@ == link@ && m.len() == 0,
                        Err(MarkdownError::WikiLinkAmbiguous(l, hrefs)) => l@ == link@ && m.len()
                            > 1 && views(hrefs@) == m,
                        Err(MarkdownError::Format) => false,
                    }
                },
            },
    {
        let stem = match file_stem(link) {
            Some(s) => to_lowercase(s.as_str()),
            None => return Err(MarkdownError::WikiLinkNotFound(owned(link))),
        };
        let mut matches: Vec<String> = Vec::new();
        let mut i: usize = 0;
        while i < self.index.len()
            invariant
                i <= self.index@.len(),
                views(matches@) == matching(self.entries().take(i as int), stem@, link@),
            decreases self.index@.len() - i,
        {
            let ghost before = views(matches@);
            let (key, href) = (&self.index[i].0, &self.index[i].1);
            if same_text(key.as_str(), stem.as_str()) {
                proof {
                    reveal_strlit("");
                }
                let bare = with_extension(href.as_str(), "");
                if ends_with(bare.as_str(), link) {
                    matches.push(href.clone());
                }
            }
            proof {
                let t = self.entries().take(i + 1);
                assert(t.drop_last() =~= self.entries().take(i as int));
                assert(t.last() == (key@, href@));
                reveal_strlit("");
                assert(""@ =~= Seq::<char>::empty());
                assert(views(matches@) =~= matching(t, stem@, link@));
            }
            i = i + 1;
        }
        proof {
            assert(self.entries().take(self.index@.len() as int) =~= self.entries());
        }
        if matches.len() == 0 {
            Err(MarkdownError::WikiLinkNotFound(owned(link)))
        } else if matches.len() == 1 {
            Ok(matches[0].clone())
        } else {
            Err(MarkdownError::WikiLinkAmbiguous(owned(link), matches))
        }
    }
}

/// The entries after indexing the page `href`: added under its lowercase
/// file stem when it has one.
pub open spec fn indexed_one(entries: Seq<(Seq<char>, Seq<char>)>, href: Seq<char>) -> Seq<(Seq<char>, Seq<char>)> {
    match path_file_stem(href) {
        Some(stem) => entries.push((lowercase(stem), href)),
        None => entries,
    }
}

/// The entries after indexing each of `hrefs` in order.
pub open spec fn indexed(entries: Seq<(Seq<char>, Seq<char>)>, hrefs: Seq<Seq<char>>) -> Seq<(Seq<char>, Seq<char>)>
    decreases hrefs.len(),
{
    if hrefs.len() == 0 {
        entries
    } else {
        indexed_one(indexed(entries, hrefs.drop_last()), hrefs.last())
    }
}

} // verus!

verus! {

/// A heading of a document: its title, its anchor id, and the headings
/// nested under it.
#[derive(Debug)]
pub struct Heading {
    pub title: String,
    pub id: String,
    pub children: Vec<Heading>,
}

/// The outline of a document: its top-level headings.
#[derive(Debug)]
pub struct Outline(pub Vec<Heading>);

/// A heading as plain values.
pub struct HeadingView {
    pub title: Seq<char>,
    pub id: Seq<char>,
    pub children: Seq<HeadingView>,
}

/// The plain value of a heading.
pub open spec fn heading_view(h: Heading) -> HeadingView
    decreases h,
{
    HeadingView { title: h.title@, id: h.id@, children: headings_view(h.children@) }
}

/// The plain values of a sequence of headings.
pub open spec fn headings_view(hs: Seq<Heading>) -> Seq<HeadingView>
    decreases hs,
{
    if hs.len() == 0 {
        seq![]
    } else {
        headings_view(hs.drop_last()).push(heading_view(hs.last()))
    }
}

impl View for Outline {
    type V = Seq<HeadingView>;

    open spec fn view(&self) -> Seq<HeadingView> {
        headings_view(self.0@)
    }
}

/// `hs` with the heading `h` added as the last heading `steps` levels down
/// along the last headings, or higher where that path ends.
pub open spec fn insert_heading_at(hs: Seq<HeadingView>, h: HeadingView, steps: int) -> Seq<HeadingView>
    decreases steps,
{
    if steps <= 0 || hs.len() == 0 {
        hs.push(h)
    } else {
        let l = hs.last();
        hs.drop_last().push(
            HeadingView { title: l.title, id: l.id, children: insert_heading_at(l.children, h, steps - 1) },
        )
    }
}

/// The levels below the top that a heading of `level` sits: a level-2
/// heading is at the top, a level-3 heading one below, and so on.
pub open spec fn steps_of(level: nat) -> int {
    if level > 2 {
        level - 2
    } else {
        0
    }
}

/// The outline built from headings given as (title, id, level), in document
/// order: each heading goes under the most recent heading one level up.
pub open spec fn outline_of(flat: Seq<(Seq<char>, Seq<char>, nat)>) -> Seq<HeadingView>
    decreases flat.len(),
{
    if flat.len() == 0 {
        seq![]
    } else {
        let t = flat.last();
        insert_heading_at(
            outline_of(flat.drop_last()),
            HeadingView { title: t.0, id: t.1, children: seq![] },
            steps_of(t.2),
        )
    }
}

/// The plain values of flat headings.
pub open spec fn flat_view(v: Seq<(String, String, usize)>) -> Seq<(Seq<char>, Seq<char>, nat)> {
    v.map_values(|t: (String, String, usize)| (t.0@, t.1@, t.2 as nat))
}

proof fn lemma_headings_view_push(hs: Seq<Heading>, h: Heading)
    ensures
        headings_view(hs.push(h)) == headings_view(hs).push(heading_view(h)),
{
    assert(hs.push(h).drop_last() =~= hs);
    assert(hs.push(h).last() == h);
}

/// Adds `h` as the last heading `steps` levels down along the last headings.
fn insert_heading(hs: &mut Vec<Heading>, h: Heading, steps: usize)
    ensures
        headings_view(final(hs)@) == insert_heading_at(headings_view(old(hs)@), heading_view(h), steps as int),
    decreases steps,
{
    if steps == 0 || hs.len() == 0 {
        proof {
            lemma_headings_view_push(hs@, h);
        }
        hs.push(h);
    } else {
        let ghost old_hs = hs@;
        let mut last = hs.pop().unwrap();
        proof {
            assert(old_hs =~= hs@.push(last));
            lemma_headings_view_push(hs@, last);
        }
        let ghost old_last = last;
        insert_heading(&mut last.children, h, steps - 1);
        proof {
            lemma_headings_view_push(hs@, last);
            assert(headings_view(old_hs).drop_last() =~= headings_view(hs@));
        }
        hs.push(last);
    }
}

impl Outline {
    /// Builds the outline from the headings as (title, id, level), in
    /// document order: each heading of level 3 and deeper nests under the
    /// most recent heading one level up, when there is one.
    pub fn from_headings(flat_vec: Vec<(String, String, usize)>) -> (r: Outline)
        ensures
            r@ == outline_of(flat_view(flat_vec@)),
    {
        let mut res: Vec<Heading> = Vec::new();
        let mut i: usize = 0;
        let n = flat_vec.len();
        let mut flat_vec = flat_vec;
        let ghost flat = flat_view(flat_vec@);
        let ghost orig = flat_vec@;
        proof {
            assert(headings_view(res@) =~= outline_of(flat.take(0)));
            assert(flat_vec@ =~= orig.skip(0));
        }
        while i < n
            invariant
                i <= n,
                n == flat.len(),
                n == orig.len(),
                flat == flat_view(orig),
                flat_vec@ == orig.skip(i as int),
                headings_view(res@) == outline_of(flat.take(i as int)),
            decreases n - i,
        {
            let (title, url, level) = flat_vec.remove(0);
            proof {
                assert(orig.skip(i as int)[0] == orig[i as int]);
                assert(flat[i as int] == (title@, url@, level as nat));
                assert(flat_vec@ =~= orig.skip(i + 1));
            }
            let steps = if level > 2 { level - 2 } else { 0 };
            let new = Heading { title, id: url, children: Vec::new() };
            proof {
                assert(headings_view(new.children@) =~= Seq::<HeadingView>::empty());
            }
            insert_heading(&mut res, new, steps);
            proof {
                let t = flat.take(i + 1);
                assert(t.drop_last() =~= flat.take(i as int));
                assert(t.last() == flat[i as int]);
            }
            i = i + 1;
        }
        proof {
            assert(flat.take(n as int) =~= flat);
        }
        Outline(res)
    }
}

} // verus!

verus! {

/// The (title, id) of each heading, in document order: a heading comes
/// before the headings nested under it.
pub open spec fn flatten_all(hs: Seq<HeadingView>) -> Seq<(Seq<char>, Seq<char>)>
    decreases hs,
{
    if hs.len() == 0 {
        seq![]
    } else {
        flatten_all(hs.drop_last()) + flatten_one(hs.last())
    }
}

/// The (title, id) of a heading followed by those nested under it.
pub open spec fn flatten_one(h: HeadingView) -> Seq<(Seq<char>, Seq<char>)>
    decreases h,
{
    seq![(h.title, h.id)] + flatten_all(h.children)
}

proof fn lemma_flatten_push(hs: Seq<HeadingView>, h: HeadingView)
    ensures
        flatten_all(hs.push(h)) == flatten_all(hs) + flatten_one(h),
{
    assert(hs.push(h).drop_last() =~= hs);
    assert(hs.push(h).last() == h);
}

proof fn lemma_flatten_insert(hs: Seq<HeadingView>, h: HeadingView, steps: int)
    requires
        h.children.len() == 0,
    ensures
        flatten_all(insert_heading_at(hs, h, steps)) == flatten_all(hs).push((h.title, h.id)),
    decreases steps,
{
    assert(flatten_all(h.children) =~= Seq::<(Seq<char>, Seq<char>)>::empty());
    assert(flatten_one(h) =~= seq![(h.title, h.id)]);
    if steps <= 0 || hs.len() == 0 {
        lemma_flatten_push(hs, h);
    } else {
        let l = hs.last();
        let l2 = HeadingView { title: l.title, id: l.id, children: insert_heading_at(l.children, h, steps - 1) };
        lemma_flatten_insert(l.children, h, steps - 1);
        lemma_flatten_push(hs.drop_last(), l2);
        lemma_flatten_push(hs.drop_last(), l);
        assert(hs.drop_last().push(l) =~= hs);
        assert(flatten_one(l2) =~= flatten_one(l).push((h.title, h.id)));
        assert(flatten_all(insert_heading_at(hs, h, steps)) =~= flatten_all(hs).push((h.title, h.id)));
    }
}

/// Every heading appears in the outline exactly once, in document order:
/// reading the outline top to bottom, a heading before those nested under
/// it, gives back the headings as they were given.
pub proof fn lemma_outline_keeps_order(flat: Seq<(Seq<char>, Seq<char>, nat)>)
    ensures
        flatten_all(outline_of(flat)) == flat.map_values(
            |t: (Seq<char>, Seq<char>, nat)| (t.0, t.1),
        ),
    decreases flat.len(),
{
    if flat.len() == 0 {
        assert(flat.map_values(|t: (Seq<char>, Seq<char>, nat)| (t.0, t.1)) =~= Seq::<
            (Seq<char>, Seq<char>),
        >::empty());
    } else {
        let t = flat.last();
        lemma_outline_keeps_order(flat.drop_last());
        lemma_flatten_insert(
            outline_of(flat.drop_last()),
            HeadingView { title: t.0, id: t.1, children: seq![] },
            steps_of(t.2),
        );
        assert(flat.map_values(|t: (Seq<char>, Seq<char>, nat)| (t.0, t.1)) =~= flat.drop_last().map_values(
            |t: (Seq<char>, Seq<char>, nat)| (t.0, t.1),
        ).push((t.0, t.1)));
    }
}

} // verus!

verus! {

/// The base of a heading's anchor id: its text in lowercase, with each space
/// turned into a `-`.
pub open spec fn slug_base(text: Seq<char>) -> Seq<char> {
    lowercase(text).map_values(|c: char| if c == ' ' { '-' } else { c })
}

/// How many of `texts` have the slug base `b`.
pub open spec fn count_base(texts: Seq<Seq<char>>, b: Seq<char>) -> nat
    decreases texts.len(),
{
    if texts.len() == 0 {
        0
    } else {
        count_base(texts.drop_last(), b) + if slug_base(texts.last()) == b {
            1nat
        } else {
            0nat
        }
    }
}

/// The anchor id of the heading `text` after the headings `before`: its slug
/// base the first time, and the base with `-1`, `-2`, ... appended when
/// earlier headings had the same base.
pub open spec fn slug_after(before: Seq<Seq<char>>, text: Seq<char>) -> Seq<char> {
    let b = slug_base(text);
    let k = count_base(before, b);
    if k == 0 {
        b
    } else {
        b + seq!['-'] + crate::strings::decimal(k)
    }
}

/// The anchor ids of the headings `texts`, in order.
pub open spec fn slugs_of(texts: Seq<Seq<char>>) -> Seq<Seq<char>>
    decreases texts.len(),
{
    if texts.len() == 0 {
        seq![]
    } else {
        slugs_of(texts.drop_last()).push(slug_after(texts.drop_last(), texts.last()))
    }
}

/// The base of a heading's anchor id is its text in lowercase with every
/// space turned into `-`: as long as the lowercase text, holding no space,
/// and agreeing with it at every other position.
pub proof fn lemma_slug_base_spaces(text: Seq<char>)
    ensures
        slug_base(text).len() == lowercase(text).len(),
        forall|i: int|
            0 <= i < lowercase(text).len() ==> #[trigger] slug_base(text)[i] == (if lowercase(text)[i] == ' ' {
                '-'
            } else {
                lowercase(text)[i]
            }),
        !slug_base(text).contains(' '),
{
    let b = slug_base(text);
    if b.contains(' ') {
        let i = choose|i: int| 0 <= i < b.len() && b[i] == ' ';
        assert(b[i] == (if lowercase(text)[i] == ' ' { '-' } else { lowercase(text)[i] }));
    }
}

proof fn lemma_decimal_no_space(n: nat)
    ensures
        !crate::strings::decimal(n).contains(' '),
    decreases n,
{
    let d = crate::strings::decimal(n);
    if n >= 10 {
        lemma_decimal_no_space(n / 10);
    }
    if d.contains(' ') {
        let i = choose|i: int| 0 <= i < d.len() && d[i] == ' ';
        if n >= 10 {
            let p = crate::strings::decimal(n / 10);
            if i < p.len() {
                assert(d[i] == p[i]);
            }
        }
    }
}

/// Every heading's anchor id holds no space and begins with the heading's
/// text in lowercase, each space turned into `-`; a heading whose base no
/// earlier heading shares gets exactly that base.
pub proof fn lemma_heading_ids(texts: Seq<Seq<char>>)
    ensures
        slugs_of(texts).len() == texts.len(),
        forall|i: int|
            0 <= i < texts.len() ==> {
                let l = lowercase(texts[i]);
                let s = #[trigger] slugs_of(texts)[i];
                &&& l.len() <= s.len()
                &&& !s.contains(' ')
                &&& forall|j: int| 0 <= j < l.len() ==> s[j] == (if l[j] == ' ' { '-' } else { l[j] })
            },
        forall|i: int|
            0 <= i < texts.len() && count_base(texts.take(i), slug_base(texts[i])) == 0 ==> #[trigger] slugs_of(
                texts,
            )[i] == slug_base(texts[i]),
    decreases texts.len(),
{
    if texts.len() > 0 {
        let init = texts.drop_last();
        lemma_heading_ids(init);
        let t = texts.last();
        let n = (texts.len() - 1) as int;
        lemma_slug_base_spaces(t);
        let b = slug_base(t);
        let k = count_base(init, b);
        let s = slug_after(init, t);
        assert(!s.contains(' ')) by {
            if k != 0 {
                lemma_decimal_no_space(k);
                if s.contains(' ') {
                    let i = choose|i: int| 0 <= i < s.len() && s[i] == ' ';
                    let d = crate::strings::decimal(k);
                    if i < b.len() {
                        assert(s[i] == b[i]);
                        assert(b.contains(' '));
                    } else if i == b.len() {
                        assert(s[i] == '-');
                    } else {
                        assert(s[i] == d[i - b.len() - 1]);
                        assert(d.contains(' '));
                    }
                }
            }
        }
        assert forall|j: int| 0 <= j < b.len() implies s[j] == b[j] by {}
        assert forall|i: int| 0 <= i < n implies slugs_of(texts)[i] == slugs_of(init)[i] && texts[i] == init[i]
            && texts.take(i) =~= init.take(i) by {}
        assert(slugs_of(texts)[n] == s);
        assert(texts[n] == t);
        assert(texts.take(n) =~= init);
    }
}

/// The slug base of `text`.
fn slug_base_of(text: &str) -> (r: String)
    ensures
        r@ == slug_base(text@),
{
    let lower = to_lowercase(text);
    let cs = crate::strings::chars_of(lower.as_str());
    let mut r = String::new();
    let mut i: usize = 0;
    while i < cs.len()
        invariant
            i <= cs@.len(),
            cs@ == lowercase(text@),
            r@ == cs@.take(i as int).map_values(|c: char| if c == ' ' { '-' } else { c }),
        decreases cs@.len() - i,
    {
        let c = cs[i];
        crate::strings::push_char(&mut r, if c == ' ' { '-' } else { c });
        proof {
            assert(cs@.take(i + 1).map_values(|c: char| if c == ' ' { '-' } else { c }) =~= cs@.take(
                i as int,
            ).map_values(|c: char| if c == ' ' { '-' } else { c }).push(if c == ' ' { '-' } else { c }));
        }
        i = i + 1;
    }
    proof {
        assert(cs@.take(cs@.len() as int) =~= cs@);
    }
    r
}

/// The anchor ids of the headings `texts` of a document, in order: each is
/// the heading's text in lowercase with spaces turned into `-`, and a
/// repeated one gets `-1`, `-2`, ... appended.
pub fn heading_slugs(texts: &Vec<String>) -> (r: Vec<String>)
    ensures
        views(r@) == slugs_of(views(texts@)),
{
    let mut counts: Vec<(String, usize)> = Vec::new();
    let mut out: Vec<String> = Vec::new();
    let ghost ts = views(texts@);
    let mut i: usize = 0;
    while i < texts.len()
        invariant
            i <= texts@.len(),
            ts == views(texts@),
            views(out@) == slugs_of(ts.take(i as int)),
            forall|k: int| #![trigger counts@[k]] 0 <= k < counts@.len() ==> counts@[k].1 + 1
                == count_base(ts.take(i as int), counts@[k].0@) && counts@[k].1 < i,
            forall|a: int, b: int| 0 <= a < counts@.len() && 0 <= b < counts@.len() && a != b ==> counts@[a].0@ != counts@[b].0@,
            forall|b: Seq<char>| count_base(ts.take(i as int), b) > 0 ==> exists|k: int| 0 <= k < counts@.len() && #[trigger] counts@[k].0@ == b,
        decreases texts@.len() - i,
    {
        let base = slug_base_of(texts[i].as_str());
        let ghost prefix = ts.take(i as int);
        let ghost next = ts.take(i + 1);
        proof {
            assert(next.drop_last() =~= prefix);
            assert(next.last() == texts@[i as int]@);
        }
        let mut k: usize = 0;
        while k < counts.len() && !same_text(counts[k].0.as_str(), base.as_str())
            invariant
                k <= counts@.len(),
                forall|j: int| 0 <= j < k ==> counts@[j].0@ != base@,
            decreases counts@.len() - k,
        {
            k = k + 1;
        }
        let found = k < counts.len();
        let ghost old_counts = counts@;
        let slug = if found {
            let c = counts[k].1 + 1;
            proof {
                assert(count_base(prefix, base@) == c);
            }
            let mut s = base.clone();
            crate::strings::push_char(&mut s, '-');
            let digits = crate::strings::decimal_string(c as u64);
            crate::strings::push_str(&mut s, digits.as_str());
            proof {
                assert(base@ == slug_base(ts[i as int]));
                assert(s@ == slug_after(prefix, ts[i as int]));
            }
            counts.set(k, (base, c));
            s
        } else {
            proof {
                assert(k >= counts@.len());
                if count_base(prefix, base@) > 0 {
                    let j = choose|j: int| 0 <= j < counts@.len() && #[trigger] counts@[j].0@ == base@;
                    assert(counts@[j].0@ != base@);
                }
            }
            let s = base.clone();
            proof {
                assert(base@ == slug_base(ts[i as int]));
                assert(count_base(prefix, base@) == 0);
                assert(s@ == slug_after(prefix, ts[i as int]));
            }
            counts.push((base, 0));
            s
        };
        let ghost old_out = out@;
        out.push(slug);
        proof {
            assert(views(out@) =~= views(old_out).push(slug@));
            assert(slug@ == slug_after(prefix, ts[i as int]));
            assert forall|j: int| #![trigger counts@[j]] 0 <= j < counts@.len() implies counts@[j].1 + 1
                == count_base(next, counts@[j].0@) && counts@[j].1 < i + 1 by {
                if j < old_counts.len() && j != k {
                    assert(counts@[j] == old_counts[j]);
                }
            }
            assert forall|a: int, b: int| 0 <= a < counts@.len() && 0 <= b < counts@.len() && a != b implies counts@[a].0@ != counts@[b].0@ by {
                if a < old_counts.len() && b < old_counts.len() {
                    if a != k && b != k {
                        assert(counts@[a] == old_counts[a]);
                        assert(counts@[b] == old_counts[b]);
                    } else if a == k {
                        assert(counts@[b] == old_counts[b]);
                    } else {
                        assert(counts@[a] == old_counts[a]);
                    }
                } else if a == old_counts.len() {
                    assert(counts@[b] == old_counts[b]);
                } else {
                    assert(counts@[a] == old_counts[a]);
                }
            }
            assert forall|b: Seq<char>| count_base(next, b) > 0 implies exists|j: int| 0 <= j < counts@.len() && #[trigger] counts@[j].0@ == b by {
                if b == base@ {
                    if found {
                        assert(counts@[k as int].0@ == b);
                    } else {
                        assert(counts@[counts@.len() - 1].0@ == b);
                    }
                } else {
                    assert(count_base(prefix, b) > 0);
                    let j = choose|j: int| 0 <= j < old_counts.len() && #[trigger] old_counts[j].0@ == b;
                    assert(counts@[j] == old_counts[j] || (found && j == k));
                    if found && j == k {
                        assert(old_counts[k as int].0@ == base@);
                    }
                    assert(counts@[j].0@ == b);
                }
            }
        }
        i = i + 1;
    }
    proof {
        assert(ts.take(texts@.len() as int) =~= ts);
    }
    out
}

} // verus!

verus! {

/// Whether an image address points off the site: it holds `://`, as in
/// `https://...`. Such images are left as they are.
pub fn is_external_url(url: &str) -> (r: bool)
    ensures
        r == (crate::plugin::slides::find_from(url@, "://"@, 0) is Some),
{
    proof {
        reveal_strlit("://");
    }
    let cs = crate::strings::chars_of(url);
    let n = cs.len();
    let mut i: usize = 0;
    while n >= 3 && i <= n - 3
        invariant
            cs@ == url@,
            n == cs@.len(),
            "://"@ == seq![':', '/', '/'],
            crate::plugin::slides::find_from(url@, "://"@, 0) == crate::plugin::slides::find_from(
                url@,
                "://"@,
                i as int,
            ),
        decreases n + 1 - i,
    {
        if cs[i] == ':' && cs[i + 1] == '/' && cs[i + 2] == '/' {
            assert(url@.subrange(i as int, i + 3) =~= "://"@);
            return true;
        }
        assert(url@.subrange(i as int, i + 3)[0] == url@[i as int]);
        assert(url@.subrange(i as int, i + 3)[1] == url@[i + 1]);
        assert(url@.subrange(i as int, i + 3)[2] == url@[i + 2]);
        i = i + 1;
    }
    false
}

} // verus!
