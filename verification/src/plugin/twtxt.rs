//! The microblog, kept as a `twtxt` file: one entry per line, comments and
//! blank lines skipped, shown newest first.

use vstd::prelude::*;

use crate::model::{
    entry_date_field, entry_text, is_white_space, leading_white_space, white_space,
    MicroblogEntry,
};
use crate::strings::{chars_of, decimal, decimal_string, owned, push_char, push_str, string_of};
use crate::time::{earlier, instant, is_earlier, rfc3339_instant};

verus! {

/// The index of the first `\n` of `s` at or after `from`, or the length of
/// `s` where there is none.
pub open spec fn newline_from(s: Seq<char>, from: int) -> int
    decreases s.len() - from,
{
    if from >= s.len() {
        s.len() as int
    } else if s[from] == '\n' {
        from
    } else {
        newline_from(s, from + 1)
    }
}

/// The first `\n` at or after `from` lies between `from` and the end.
pub proof fn lemma_newline_from(s: Seq<char>, from: int)
    requires
        0 <= from,
    ensures
        from <= newline_from(s, from) || from > s.len(),
        newline_from(s, from) <= s.len(),
    decreases s.len() - from,
{
    if from < s.len() && s[from] != '\n' {
        lemma_newline_from(s, from + 1);
    }
}

/// A line without the `\r` that ends it, if any.
pub open spec fn strip_cr(l: Seq<char>) -> Seq<char> {
    if l.len() > 0 && l.last() == '\r' {
        l.drop_last()
    } else {
        l
    }
}

/// The lines of `s` from `from` on, as `str::lines` gives them: split after
/// each `\n`, without the `\n` and a `\r` just before it; a last line
/// without `\n` is kept as it is, and nothing follows a final `\n`.
pub open spec fn lines_from(s: Seq<char>, from: int) -> Seq<Seq<char>>
    decreases s.len() - from,
{
    if from < 0 || from >= s.len() {
        Seq::empty()
    } else {
        let e = newline_from(s, from);
        if e < s.len() {
            proof {
                lemma_newline_from(s, from);
            }
            seq![strip_cr(s.subrange(from, e))] + lines_from(s, e + 1)
        } else {
            seq![s.subrange(from, s.len() as int)]
        }
    }
}

/// Whether a line holds an entry: it has something besides white space, and
/// that does not begin with `#`.
pub open spec fn is_entry_line(l: Seq<char>) -> bool {
    let w = leading_white_space(l, 0);
    w < l.len() && l[w] != '#'
}

/// The lines that hold entries, in order.
pub open spec fn entry_lines_of(ls: Seq<Seq<char>>) -> Seq<Seq<char>>
    decreases ls.len(),
{
    if ls.len() == 0 {
        Seq::empty()
    } else if is_entry_line(ls.last()) {
        entry_lines_of(ls.drop_last()).push(ls.last())
    } else {
        entry_lines_of(ls.drop_last())
    }
}

/// Whether a line holds an entry.
pub fn holds_entry(line: &str) -> (r: bool)
    ensures
        r == is_entry_line(line@),
{
    let cs = chars_of(line);
    let mut w: usize = 0;
    while w < cs.len() && is_white_space(cs[w])
        invariant
            cs@ == line@,
            w <= cs@.len(),
            leading_white_space(line@, w as int) == leading_white_space(line@, 0),
        decreases cs@.len() - w,
    {
        w = w + 1;
    }
    assert(leading_white_space(line@, w as int) == w);
    w < cs.len() && cs[w] != '#'
}

/// The lines of a text, as `str::lines` gives them.
pub fn text_lines(data: &str) -> (r: Vec<String>)
    ensures
        r@.map_values(|l: String| l@) == lines_from(data@, 0),
{
    let cs = chars_of(data);
    let n = cs.len();
    let mut lines: Vec<String> = Vec::new();
    let mut start: usize = 0;
    let mut i: usize = 0;
    while i < n
        invariant
            cs@ == data@,
            n == cs@.len(),
            start <= i <= n,
            newline_from(data@, start as int) == newline_from(data@, i as int),
            lines_from(data@, 0) == lines@.map_values(|l: String| l@) + lines_from(
                data@,
                start as int,
            ),
        decreases n - i,
    {
        if cs[i] == '\n' {
            let mut end = i;
            if end > start && cs[end - 1] == '\r' {
                end = end - 1;
            }
            let line = string_of(&cs, start, end);
            let ghost before = lines@;
            proof {
                assert(newline_from(data@, start as int) == i);
                assert(strip_cr(data@.subrange(start as int, i as int)) =~= data@.subrange(
                    start as int,
                    end as int,
                ));
                assert(lines_from(data@, start as int) == seq![line@] + lines_from(data@, i + 1));
            }
            lines.push(line);
            proof {
                assert(lines@.map_values(|l: String| l@) =~= before.map_values(|l: String| l@)
                    + seq![line@]);
                assert(lines_from(data@, 0) =~= lines@.map_values(|l: String| l@) + lines_from(
                    data@,
                    i + 1,
                ));
            }
            start = i + 1;
        }
        i = i + 1;
    }
    if start < n {
        let line = string_of(&cs, start, n);
        let ghost before = lines@;
        proof {
            assert(newline_from(data@, start as int) == n);
            assert(lines_from(data@, start as int) == seq![line@]);
        }
        lines.push(line);
        proof {
            assert(lines@.map_values(|l: String| l@) =~= before.map_values(|l: String| l@) + seq![
                line@,
            ]);
        }
    } else {
        proof {
            assert(lines_from(data@, 0) =~= lines@.map_values(|l: String| l@));
        }
    }
    lines
}

/// The lines of a `twtxt` file that hold entries.
pub fn entry_lines(data: &str) -> (r: Vec<String>)
    ensures
        r@.map_values(|l: String| l@) == entry_lines_of(lines_from(data@, 0)),
{
    let lines = text_lines(data);
    let ghost all = lines@.map_values(|l: String| l@);
    let mut kept: Vec<String> = Vec::new();
    for k in 0..lines.len()
        invariant
            all == lines@.map_values(|l: String| l@),
            kept@.map_values(|l: String| l@) == entry_lines_of(all.take(k as int)),
    {
        proof {
            assert(all.take(k + 1).drop_last() =~= all.take(k as int));
            assert(all.take(k + 1).last() == lines@[k as int]@);
        }
        let ghost before = kept@;
        if holds_entry(lines[k].as_str()) {
            kept.push(lines[k].clone());
            proof {
                assert(kept@.map_values(|l: String| l@) =~= before.map_values(|l: String| l@).push(
                    lines@[k as int]@,
                ));
            }
        }
    }
    proof {
        assert(all.take(all.len() as int) =~= all);
    }
    kept
}

/// Whether chrono reads the date of each line.
pub open spec fn all_dated(ls: Seq<Seq<char>>) -> bool {
    forall|k: int| 0 <= k < ls.len() ==> rfc3339_instant(entry_date_field(#[trigger] ls[k])) is Some
}

/// Reads the entries of a `twtxt` file, one per entry line, in order. Fails
/// exactly where the date of some entry line cannot be read.
pub fn parse_entries(data: &str) -> (r: Result<Vec<MicroblogEntry>, chrono::ParseError>)
    ensures
        match r {
            Ok(v) => {
                let ls = entry_lines_of(lines_from(data@, 0));
                &&& v@.len() == ls.len()
                &&& forall|k: int|
                    0 <= k < v@.len() ==> rfc3339_instant(entry_date_field(ls[k])) == Some(
                        instant((#[trigger] v@[k]).date),
                    ) && v@[k].text@ == entry_text(ls[k])
            },
            Err(_) => !all_dated(entry_lines_of(lines_from(data@, 0))),
        },
{
    let lines = entry_lines(data);
    let ghost ls = entry_lines_of(lines_from(data@, 0));
    let mut out: Vec<MicroblogEntry> = Vec::new();
    for k in 0..lines.len()
        invariant
            ls == lines@.map_values(|l: String| l@),
            ls == entry_lines_of(lines_from(data@, 0)),
            out@.len() == k,
            forall|j: int|
                0 <= j < k ==> rfc3339_instant(entry_date_field(ls[j])) == Some(
                    instant((#[trigger] out@[j]).date),
                ) && out@[j].text@ == entry_text(ls[j]),
    {
        assert(ls[k as int] == lines@[k as int]@);
        match MicroblogEntry::parse(lines[k].as_str()) {
            Ok(e) => out.push(e),
            Err(err) => {
                assert(rfc3339_instant(entry_date_field(ls[k as int])) is None);
                assert(!all_dated(ls));
                return Err(err);
            },
        }
    }
    Ok(out)
}

/// Writes `n` in decimal, with a leading `-` when it is negative.
pub open spec fn signed_decimal(n: int) -> Seq<char> {
    if n < 0 {
        seq!['-'] + decimal((-n) as nat)
    } else {
        decimal(n as nat)
    }
}

/// Where the page of an entry is written: `thoughts/<seconds since the
/// epoch>`.
pub fn thought_path(entry: &MicroblogEntry) -> (r: String)
    ensures
        r@ == "thoughts/"@ + signed_decimal(entry.date.spec_secs() as int),
{
    let secs = entry.date.secs();
    let mut r = owned("thoughts/");
    if secs < 0 {
        push_char(&mut r, '-');
        let magnitude: u64 = if secs == i64::MIN {
            9223372036854775808u64
        } else {
            (0 - secs) as u64
        };
        let digits = decimal_string(magnitude);
        push_str(&mut r, digits.as_str());
        proof {
            assert(r@ =~= "thoughts/"@ + signed_decimal(secs as int));
        }
    } else {
        let digits = decimal_string(secs as u64);
        push_str(&mut r, digits.as_str());
    }
    r
}

/// `p` lists the indices of `entries`, each once, newest first, entries
/// written at the same instant keeping their order.
pub open spec fn is_newest_first(entries: Seq<MicroblogEntry>, p: Seq<int>) -> bool {
    &&& p.len() == entries.len()
    &&& forall|k: int| 0 <= k < p.len() ==> 0 <= #[trigger] p[k] < entries.len()
    &&& forall|k: int, l: int| 0 <= k < l < p.len() ==> p[k] != p[l]
    &&& forall|k: int, l: int|
        0 <= k < l < p.len() ==> !earlier(instant(entries[p[k]].date), instant(entries[p[l]].date))
    &&& forall|k: int, l: int|
        0 <= k < l < p.len() && instant(entries[p[k]].date) == instant(entries[p[l]].date)
            ==> p[k] < p[l]
}

/// The entries newest first, entries written at the same instant keeping
/// their order.
pub fn newest_first<'a>(entries: &'a [MicroblogEntry]) -> (r: Vec<&'a MicroblogEntry>)
    ensures
        exists|p: Seq<int>|
            is_newest_first(entries@, p) && r@.len() == p.len() && forall|k: int|
                0 <= k < p.len() ==> *(#[trigger] r@[k]) == entries@[p[k]],
{
    let n = entries.len();
    let mut order: Vec<usize> = Vec::new();
    for i in 0..n
        invariant
            n == entries@.len(),
            order@.len() == i,
            forall|k: int| 0 <= k < order@.len() ==> #[trigger] order@[k] < i,
            forall|k: int, l: int| 0 <= k < l < order@.len() ==> order@[k] != order@[l],
            forall|k: int, l: int|
                0 <= k < l < order@.len() ==> !earlier(
                    instant(entries@[order@[k] as int].date),
                    instant(entries@[order@[l] as int].date),
                ),
            forall|k: int, l: int|
                0 <= k < l < order@.len() && instant(entries@[order@[k] as int].date) == instant(
                    entries@[order@[l] as int].date,
                ) ==> order@[k] < order@[l],
    {
        let mut pos: usize = 0;
        while pos < order.len() && !is_earlier(&entries[order[pos]].date, &entries[i].date)
            invariant
                n == entries@.len(),
                i < n,
                order@.len() == i,
                pos <= order@.len(),
                forall|k: int| 0 <= k < order@.len() ==> #[trigger] order@[k] < i,
                forall|k: int|
                    0 <= k < pos ==> !earlier(
                        instant(entries@[#[trigger] order@[k] as int].date),
                        instant(entries@[i as int].date),
                    ),
            decreases order@.len() - pos,
        {
            pos = pos + 1;
        }
        let ghost old_order = order@;
        order.insert(pos, i);
        proof {
            let ti = instant(entries@[i as int].date);
            assert forall|k: int| pos <= k < old_order.len() implies earlier(
                instant(entries@[#[trigger] old_order[k] as int].date),
                ti,
            ) by {
                if k > pos {
                    assert(!earlier(
                        instant(entries@[old_order[pos as int] as int].date),
                        instant(entries@[old_order[k] as int].date),
                    ));
                }
            }
            assert forall|k: int| 0 <= k < order@.len() implies #[trigger] order@[k] < i + 1 by {
                if k < pos {
                    assert(order@[k] == old_order[k]);
                } else if k > pos {
                    assert(order@[k] == old_order[k - 1]);
                }
            }
            assert forall|k: int, l: int| 0 <= k < l < order@.len() implies order@[k]
                != order@[l] && !earlier(
                instant(entries@[order@[k] as int].date),
                instant(entries@[order@[l] as int].date),
            ) && (instant(entries@[order@[k] as int].date) == instant(
                entries@[order@[l] as int].date,
            ) ==> order@[k] < order@[l]) by {
                let ok = if k < pos { old_order[k] } else if k == pos { i } else { old_order[k - 1] };
                let ol = if l < pos { old_order[l] } else if l == pos { i } else { old_order[l - 1] };
                assert(order@[k] == ok);
                assert(order@[l] == ol);
                if k == pos {
                    assert(earlier(instant(entries@[old_order[l - 1] as int].date), ti));
                } else if l == pos {
                    assert(old_order[k] < i);
                } else if k < pos && l > pos {
                    assert(l - 1 > k);
                } else if k > pos {
                    assert(l - 1 > k - 1);
                }
            }
        }
    }
    let mut r: Vec<&'a MicroblogEntry> = Vec::new();
    for k in 0..n
        invariant
            n == entries@.len() == order@.len(),
            forall|j: int| 0 <= j < n ==> #[trigger] order@[j] < n,
            r@.len() == k,
            forall|j: int| 0 <= j < k ==> *(#[trigger] r@[j]) == entries@[order@[j] as int],
    {
        r.push(&entries[order[k]]);
    }
    let ghost p = order@.map_values(|u: usize| u as int);
    proof {
        assert forall|k: int| 0 <= k < p.len() implies p[k] == order@[k] as int by {}
        assert(is_newest_first(entries@, p));
    }
    r
}


/// The HTML of a microblog entry's text, written by comrak with its default
/// options.
pub fn entry_html(e: &MicroblogEntry) -> (r: String)
    ensures
        r@ == crate::md::doc::default_html(e.text@),
{
    crate::md::doc::markdown_default(e.text.as_str())
}

} // verus!
