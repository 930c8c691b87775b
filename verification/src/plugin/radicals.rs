//! The components of kanji, read from an `IDS.TXT` file (ideographic
//! description sequences), for the kanji of a given list.
//!
//! A line reads `U+CODE<TAB>KANJI<TAB>IDS_1<TAB>IDS_2...`; an IDS may carry
//! region tags such as `(GJ)`. The sequence tagged for Japan is preferred,
//! else the first; the structure operators, the `^`/`$` markers and the
//! tags are dropped, leaving the components.

use vstd::prelude::*;

use crate::datalog::views;
use crate::plugin::slides::{find_from, split_from, split_on};
use crate::plugin::twtxt::{lines_from, text_lines};
use crate::strings::{chars_of, owned, push_char, same_text};

verus! {

/// Whether `c` is an ideographic description character (U+2FF0 to U+2FFB),
/// which gives the structure of a sequence rather than a component.
pub open spec fn ids_operator(c: char) -> bool {
    0x2ff0 <= (c as u32) <= 0x2ffb
}

/// Whether `c` is an ideographic description character.
pub fn is_ids_operator(c: char) -> (r: bool)
    ensures
        r == ids_operator(c),
{
    let n = c as u32;
    0x2ff0 <= n && n <= 0x2ffb
}

/// The components of a sequence: its characters up to the first `(`, less
/// the structure operators and the `^` and `$` markers, each as a text.
pub open spec fn components(raw: Seq<char>) -> Seq<Seq<char>>
    decreases raw.len(),
{
    if raw.len() == 0 {
        Seq::empty()
    } else {
        let c = raw[0];
        let rest = raw.drop_first();
        if ids_operator(c) || c == '^' || c == '$' {
            components(rest)
        } else if c == '(' {
            Seq::empty()
        } else {
            seq![seq![c]] + components(rest)
        }
    }
}

/// Whether `s` holds `(J`, the tag of a sequence used in Japan.
pub open spec fn tagged_japanese(s: Seq<char>) -> bool {
    find_from(s, "(J"@, 0) is Some
}

/// The first of `ids` tagged for Japan, if any.
pub open spec fn first_japanese(ids: Seq<Seq<char>>) -> Option<Seq<char>>
    decreases ids.len(),
{
    if ids.len() == 0 {
        None
    } else if tagged_japanese(ids[0]) {
        Some(ids[0])
    } else {
        first_japanese(ids.drop_first())
    }
}

/// The kanji a line describes and its components, when the line is no
/// comment, has a kanji and at least one sequence, and the kanji is one of
/// `known`.
pub open spec fn ids_entry(line: Seq<char>, known: Seq<char>) -> Option<(Seq<char>, Seq<Seq<char>>)> {
    let parts = split_from(line, seq!['\t'], 0);
    if line.len() == 0 || line[0] == '#' || parts.len() < 3 {
        None
    } else if !(parts[1].len() == 1 && known.contains(parts[1][0])) {
        None
    } else {
        let ids = parts.subrange(2, parts.len() as int);
        let raw = match first_japanese(ids) {
            Some(s) => s,
            None => parts[2],
        };
        Some((parts[1], components(raw)))
    }
}

/// The components of the kanji described by `lines`, a later line for the
/// same kanji taking the place of an earlier one.
pub open spec fn ids_map(lines: Seq<Seq<char>>, known: Seq<char>) -> Map<Seq<char>, Seq<Seq<char>>>
    decreases lines.len(),
{
    if lines.len() == 0 {
        Map::empty()
    } else {
        let m = ids_map(lines.drop_last(), known);
        match ids_entry(lines.last(), known) {
            Some((k, v)) => m.insert(k, v),
            None => m,
        }
    }
}

/// `r` holds the map `m`: each key once, with its value.
pub open spec fn holds_map(r: Seq<(String, Vec<String>)>, m: Map<Seq<char>, Seq<Seq<char>>>) -> bool {
    &&& forall|a: int, b: int| 0 <= a < b < r.len() ==> r[a].0@ != r[b].0@
    &&& forall|a: int| 0 <= a < r.len() ==> m.dom().contains((#[trigger] r[a]).0@) && m[r[a].0@]
        == views(r[a].1@)
    &&& forall|k: Seq<char>| m.dom().contains(k) ==> exists|a: int| 0 <= a < r.len() && (#[trigger] r[a]).0@ == k
}

/// Whether `known` holds `c`.
fn knows(known: &[char], c: char) -> (r: bool)
    ensures
        r == known@.contains(c),
{
    let mut i: usize = 0;
    while i < known.len()
        invariant
            i <= known@.len(),
            forall|k: int| 0 <= k < i ==> known@[k] != c,
        decreases known@.len() - i,
    {
        if known[i] == c {
            return true;
        }
        i = i + 1;
    }
    false
}

/// The components of a sequence.
pub fn clean_components(raw: &str) -> (r: Vec<String>)
    ensures
        views(r@) == components(raw@),
{
    let cs = chars_of(raw);
    let n = cs.len();
    let mut out: Vec<String> = Vec::new();
    let mut i: usize = 0;
    proof {
        assert(raw@.skip(0) =~= raw@);
    }
    while i < n
        invariant
            cs@ == raw@,
            n == cs@.len(),
            i <= n,
            components(raw@) == views(out@) + components(raw@.skip(i as int)),
        decreases n - i,
    {
        let c = cs[i];
        proof {
            assert(raw@.skip(i as int)[0] == c);
            assert(raw@.skip(i as int).drop_first() =~= raw@.skip(i + 1));
        }
        if is_ids_operator(c) || c == '^' || c == '$' {
        } else if c == '(' {
            proof {
                assert(components(raw@) =~= views(out@));
            }
            return out;
        } else {
            let mut s = String::new();
            push_char(&mut s, c);
            let ghost before = out@;
            out.push(s);
            proof {
                assert(views(out@) =~= views(before).push(seq![c]));
                assert(views(out@) + components(raw@.skip(i + 1)) =~= views(before) + (seq![seq![c]]
                    + components(raw@.skip(i + 1))));
            }
        }
        i = i + 1;
    }
    proof {
        assert(raw@.skip(n as int) =~= Seq::<char>::empty());
        assert(components(raw@) =~= views(out@));
    }
    out
}

/// Whether `s` holds `(J`.
fn has_japanese_tag(s: &str) -> (r: bool)
    ensures
        r == tagged_japanese(s@),
{
    let cs = chars_of(s);
    let n = cs.len();
    let mut i: usize = 0;
    proof {
        reveal_strlit("(J");
    }
    while n > 0 && i < n - 1
        invariant
            cs@ == s@,
            n == cs@.len(),
            i <= n,
            "(J"@ == seq!['(', 'J'],
            find_from(s@, "(J"@, 0) == find_from(s@, "(J"@, i as int),
        decreases n - i,
    {
        if cs[i] == '(' && cs[i + 1] == 'J' {
            assert(s@.subrange(i as int, i + 2) =~= "(J"@);
            return true;
        }
        assert(s@.subrange(i as int, i + 2)[0] == s@[i as int]);
        assert(s@.subrange(i as int, i + 2)[1] == s@[i + 1]);
        i = i + 1;
    }
    false
}

/// The kanji a line of `IDS.TXT` describes and its components, for a kanji
/// of `known`; `None` for a comment, a blank or short line, or another kanji.
pub fn ids_line(line: &str, known: &[char]) -> (r: Option<(String, Vec<String>)>)
    ensures
        match ids_entry(line@, known@) {
            Some((k, v)) => r matches Some(e) && e.0@ == k && views(e.1@) == v,
            None => r is None,
        },
{
    let cs = chars_of(line);
    if cs.len() == 0 || cs[0] == '#' {
        return None;
    }
    proof {
        reveal_strlit("\t");
    }
    let parts = split_on(line, "\t");
    let ghost pv = views(parts@);
    assert("\t"@ =~= seq!['\t']);
    assert(pv =~= parts@.map_values(|p: String| p@));
    assert(pv == split_from(line@, seq!['\t'], 0));
    if parts.len() < 3 {
        return None;
    }
    let kanji = chars_of(parts[1].as_str());
    assert(kanji@ == pv[1]);
    if !(kanji.len() == 1 && knows(known, kanji[0])) {
        return None;
    }
    let ghost ids = pv.subrange(2, pv.len() as int);
    let mut pick: usize = 2;
    let mut j: usize = 2;
    while j < parts.len()
        invariant_except_break
            2 <= j <= parts@.len(),
            pick == 2,
            first_japanese(ids) == first_japanese(pv.subrange(j as int, pv.len() as int)),
        invariant
            pv == views(parts@),
            ids == pv.subrange(2, pv.len() as int),
            parts@.len() >= 3,
        ensures
            2 <= pick < parts@.len(),
            first_japanese(ids) == Some(pv[pick as int]) || (first_japanese(ids) is None && pick
                == 2),
        decreases parts@.len() - j,
    {
        proof {
            let rest = pv.subrange(j as int, pv.len() as int);
            assert(rest[0] == pv[j as int]);
            assert(rest.drop_first() =~= pv.subrange(j + 1, pv.len() as int));
        }
        if has_japanese_tag(parts[j].as_str()) {
            pick = j;
            break;
        }
        j = j + 1;
    }
    proof {
        if j == parts@.len() {
            assert(pv.subrange(j as int, pv.len() as int) =~= Seq::<Seq<char>>::empty());
        }
    }
    Some((owned(parts[1].as_str()), clean_components(parts[pick].as_str())))
}

/// The components of the kanji of `known` that `text` (the lines of an
/// `IDS.TXT` file) describes, each kanji once; a later line for a kanji
/// takes the place of an earlier one.
pub fn radical_components(text: &str, known: &[char]) -> (r: Vec<(String, Vec<String>)>)
    ensures
        holds_map(r@, ids_map(lines_from(text@, 0), known@)),
{
    let lines = text_lines(text);
    let ghost lv = views(lines@);
    let mut r: Vec<(String, Vec<String>)> = Vec::new();
    for i in 0..lines.len()
        invariant
            lv == views(lines@),
            lv == lines_from(text@, 0),
            holds_map(r@, ids_map(lv.take(i as int), known@)),
    {
        let ghost before = ids_map(lv.take(i as int), known@);
        proof {
            assert(lv.take(i + 1).drop_last() =~= lv.take(i as int));
            assert(lv.take(i + 1).last() == lines@[i as int]@);
        }
        match ids_line(lines[i].as_str(), known) {
            None => {},
            Some((k, v)) => {
                let ghost after = before.insert(k@, views(v@));
                let mut pos: usize = 0;
                while pos < r.len() && !same_text(r[pos].0.as_str(), k.as_str())
                    invariant
                        pos <= r@.len(),
                        forall|a: int| 0 <= a < pos ==> (#[trigger] r@[a]).0@ != k@,
                    decreases r@.len() - pos,
                {
                    pos = pos + 1;
                }
                let ghost old_r = r@;
                if pos < r.len() {
                    r.set(pos, (k, v));
                    proof {
                        assert forall|a: int| 0 <= a < r@.len() implies after.dom().contains(
                            (#[trigger] r@[a]).0@,
                        ) && after[r@[a].0@] == views(r@[a].1@) by {
                            if a != pos {
                                assert(r@[a] == old_r[a]);
                            }
                        }
                        assert forall|k2: Seq<char>| after.dom().contains(k2) implies exists|a: int|
                            0 <= a < r@.len() && (#[trigger] r@[a]).0@ == k2 by {
                            if k2 == k@ {
                                assert(r@[pos as int].0@ == k2);
                            } else {
                                let a = choose|a: int| 0 <= a < old_r.len() && (#[trigger] old_r[a]).0@ == k2;
                                assert(r@[a] == old_r[a]);
                            }
                        }
                        assert forall|a: int, b: int| 0 <= a < b < r@.len() implies r@[a].0@
                            != r@[b].0@ by {
                            assert(r@[a].0@ == old_r[a].0@);
                            assert(r@[b].0@ == old_r[b].0@);
                        }
                    }
                } else {
                    r.push((k, v));
                    proof {
                        assert forall|a: int| 0 <= a < r@.len() implies after.dom().contains(
                            (#[trigger] r@[a]).0@,
                        ) && after[r@[a].0@] == views(r@[a].1@) by {
                            if a < old_r.len() {
                                assert(r@[a] == old_r[a]);
                            }
                        }
                        assert forall|k2: Seq<char>| after.dom().contains(k2) implies exists|a: int|
                            0 <= a < r@.len() && (#[trigger] r@[a]).0@ == k2 by {
                            if k2 == k@ {
                                assert(r@[old_r.len() as int].0@ == k2);
                            } else {
                                let a = choose|a: int| 0 <= a < old_r.len() && (#[trigger] old_r[a]).0@ == k2;
                                assert(r@[a] == old_r[a]);
                            }
                        }
                    }
                }
            },
        }
    }
    proof {
        assert(lv.take(lv.len() as int) =~= lv);
    }
    r
}


proof fn lemma_first_japanese_at(ids: Seq<Seq<char>>)
    ensures
        (forall|j: int| 0 <= j < ids.len() ==> !tagged_japanese(#[trigger] ids[j])) ==> first_japanese(ids) is None,
        forall|j: int|
            0 <= j < ids.len() && tagged_japanese(#[trigger] ids[j]) && (forall|i: int|
                0 <= i < j ==> !tagged_japanese(ids[i])) ==> first_japanese(ids) == Some(ids[j]),
    decreases ids.len(),
{
    if ids.len() > 0 {
        lemma_first_japanese_at(ids.drop_first());
        assert forall|j: int| 0 < j < ids.len() implies ids[j] == ids.drop_first()[j - 1] by {}
        if !tagged_japanese(ids[0]) {
            assert forall|j: int|
                0 <= j < ids.len() && tagged_japanese(#[trigger] ids[j]) && (forall|i: int|
                    0 <= i < j ==> !tagged_japanese(ids[i])) implies first_japanese(ids) == Some(ids[j]) by {
                assert(j > 0);
                assert(tagged_japanese(ids.drop_first()[j - 1]));
                assert forall|i: int| 0 <= i < j - 1 implies !tagged_japanese(ids.drop_first()[i]) by {
                    assert(ids.drop_first()[i] == ids[i + 1]);
                }
            }
            if forall|j: int| 0 <= j < ids.len() ==> !tagged_japanese(#[trigger] ids[j]) {
                assert forall|j: int| 0 <= j < ids.drop_first().len() implies !tagged_japanese(
                    #[trigger] ids.drop_first()[j],
                ) by {
                    assert(ids.drop_first()[j] == ids[j + 1]);
                }
            }
        }
    }
}

/// The components read from a line of `IDS.TXT` are those of its first
/// sequence tagged `(J` for Japan (the sequences being the fields from the
/// third tab-separated one on), and those of the first sequence, the third
/// field, when no sequence is tagged so; the kanji is the second field.
pub proof fn lemma_ids_entry_sequence(line: Seq<char>, known: Seq<char>)
    ensures
        ids_entry(line, known) matches Some((k, v)) ==> {
            let parts = split_from(line, seq!['\t'], 0);
            &&& parts.len() >= 3
            &&& k == parts[1]
            &&& (forall|j: int| 2 <= j < parts.len() ==> !tagged_japanese(#[trigger] parts[j])) ==> v
                == components(parts[2])
            &&& forall|j: int|
                2 <= j < parts.len() && tagged_japanese(#[trigger] parts[j]) && (forall|i: int|
                    2 <= i < j ==> !tagged_japanese(parts[i])) ==> v == components(parts[j])
        },
{
    let parts = split_from(line, seq!['\t'], 0);
    if parts.len() >= 3 {
        let ids = parts.subrange(2, parts.len() as int);
        lemma_first_japanese_at(ids);
        assert forall|j: int| 0 <= j < ids.len() implies ids[j] == parts[j + 2] by {}
        if forall|j: int| 2 <= j < parts.len() ==> !tagged_japanese(#[trigger] parts[j]) {
            assert forall|j: int| 0 <= j < ids.len() implies !tagged_japanese(#[trigger] ids[j]) by {
                assert(ids[j] == parts[j + 2]);
            }
        }
        assert forall|j: int|
            2 <= j < parts.len() && tagged_japanese(#[trigger] parts[j]) && (forall|i: int|
                2 <= i < j ==> !tagged_japanese(parts[i])) implies first_japanese(ids) == Some(parts[j]) by {
            assert(tagged_japanese(ids[j - 2]));
            assert forall|i: int| 0 <= i < j - 2 implies !tagged_japanese(ids[i]) by {
                assert(ids[i] == parts[i + 2]);
            }
        }
    }
}

} // verus!
