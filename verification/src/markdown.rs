//! Text rewrites applied to the text of a markdown document: emoji
//! shortcodes between colons (`:smile:`) become the emoji they name.

use vstd::prelude::*;

use crate::strings::{chars_of, push_str, string_of};

verus! {

/// The emoji that `emojis::get_by_shortcode` finds for a shortcode, as text.
pub uninterp spec fn shortcode_emoji(shortcode: Seq<char>) -> Option<Seq<char>>;

/// `emojis::get_by_shortcode`: the emoji a GitHub shortcode names, looked up
/// in the crate's fixed table, as its text.
#[verifier::external_body]
fn emoji_for(shortcode: &str) -> (r: Option<String>)
    ensures
        match r {
            Some(e) => shortcode_emoji(shortcode@) == Some(e@),
            None => shortcode_emoji(shortcode@) is None,
        },
{
    emojis::get_by_shortcode(shortcode).map(|e| e.as_str().to_string())
}

/// The state of the shortcode scan over `t`: the text written so far (none
/// before the first shortcode), where the text not yet written starts
/// (`top`) and where the current key starts (`old`).
///
/// At each `:` the key runs from `old` to it. When the key is a shortcode,
/// the text from `top` up to the colon before the key is written, then the
/// emoji, and `top` moves past the colon; a key at the very start, or right
/// after a replaced shortcode, has no such colon before it, and the scan
/// fails there (`None`). The result is the rewritten text, or none when no
/// shortcode was found.
pub open spec fn emoji_scan(
    t: Seq<char>,
    i: int,
    top: int,
    old: int,
    buf: Option<Seq<char>>,
) -> Option<Option<Seq<char>>>
    decreases t.len() - i,
{
    if i >= t.len() || i < 0 {
        match buf {
            Some(b) => Some(Some(b + t.subrange(top, t.len() as int))),
            None => Some(None),
        }
    } else if t[i] != ':' {
        emoji_scan(t, i + 1, top, old, buf)
    } else {
        match shortcode_emoji(t.subrange(old, i)) {
            Some(e) => if old < 1 || top > old - 1 {
                None
            } else {
                let b = match buf {
                    Some(b) => b,
                    None => Seq::empty(),
                };
                emoji_scan(t, i + 1, i + 1, i + 1, Some(b + t.subrange(top, old - 1) + e))
            },
            None => emoji_scan(t, i + 1, top, i + 1, buf),
        }
    }
}

/// Runs the shortcode scan over `text`.
fn scan_emoji(text: &str) -> (r: Result<Option<String>, ()>)
    ensures
        match emoji_scan(text@, 0, 0, 0, None) {
            None => r is Err,
            Some(None) => r == Ok::<Option<String>, ()>(None),
            Some(Some(s)) => r matches Ok(Some(out)) && out@ == s,
        },
{
    let t = chars_of(text);
    let n = t.len();
    let mut buf: Option<String> = None;
    let mut top: usize = 0;
    let mut old: usize = 0;
    let mut i: usize = 0;
    while i < n
        invariant
            t@ == text@,
            n == t@.len(),
            top <= old <= i <= n,
            emoji_scan(text@, 0, 0, 0, None) == emoji_scan(
                text@,
                i as int,
                top as int,
                old as int,
                match buf {
                    Some(b) => Some(b@),
                    None => None,
                },
            ),
        decreases n - i,
    {
        if t[i] == ':' {
            let key = string_of(&t, old, i);
            match emoji_for(key.as_str()) {
                Some(e) => {
                    if old < 1 || top > old - 1 {
                        return Err(());
                    }
                    let mut b = match buf {
                        Some(b) => b,
                        None => String::new(),
                    };
                    let before = string_of(&t, top, old - 1);
                    push_str(&mut b, before.as_str());
                    push_str(&mut b, e.as_str());
                    buf = Some(b);
                    top = i + 1;
                },
                None => {},
            }
            old = i + 1;
        }
        i = i + 1;
    }
    match buf {
        Some(mut b) => {
            let rest = string_of(&t, top, n);
            push_str(&mut b, rest.as_str());
            Ok(Some(b))
        },
        None => Ok(None),
    }
}

/// The text with its emoji shortcodes replaced, or `None` when it has none,
/// for a text where no shortcode starts the text or directly follows a
/// replaced one.
pub fn render_emoji(text: &str) -> (r: Option<String>)
    requires
        emoji_scan(text@, 0, 0, 0, None) is Some,
    ensures
        match emoji_scan(text@, 0, 0, 0, None) {
            Some(Some(s)) => r matches Some(out) && out@ == s,
            _ => r is None,
        },
{
    match scan_emoji(text) {
        Ok(r) => r,
        Err(_) => None,
    }
}

/// The text with its shortcodes replaced, or `None` when it has none;
/// `Err(())` where the rewrite cannot be done (a shortcode that starts the
/// text or directly follows a replaced one).
pub fn try_render_emoji(text: &str) -> (r: Result<Option<String>, ()>)
    ensures
        match emoji_scan(text@, 0, 0, 0, None) {
            None => r is Err,
            Some(None) => r == Ok::<Option<String>, ()>(None),
            Some(Some(s)) => r matches Ok(Some(out)) && out@ == s,
        },
{
    match scan_emoji(text) {
        Err(()) => Err(()),
        Ok(_) => Ok(render_emoji(text)),
    }
}

} // verus!

verus! {

proof fn lemma_no_colon_from(t: Seq<char>, i: int, top: int, old: int)
    requires
        0 <= i,
        forall|k: int| i <= k < t.len() ==> t[k] != ':',
    ensures
        emoji_scan(t, i, top, old, None) == Some(Option::<Seq<char>>::None),
    decreases t.len() - i,
{
    if i < t.len() {
        lemma_no_colon_from(t, i + 1, top, old);
    }
}

/// A text without colons has no shortcodes: it is left as it is.
pub proof fn lemma_emoji_no_colon(t: Seq<char>)
    requires
        forall|k: int| 0 <= k < t.len() ==> t[k] != ':',
    ensures
        emoji_scan(t, 0, 0, 0, None) == Some(Option::<Seq<char>>::None),
{
    lemma_no_colon_from(t, 0, 0, 0);
}


/// `reps` are shortcodes of `t` from `from` on, in order and apart: each as
/// the positions of its opening and closing colons and the emoji that the
/// text between them names.
pub open spec fn shortcodes_at(t: Seq<char>, reps: Seq<(int, int, Seq<char>)>, from: int) -> bool
    decreases reps.len(),
{
    if reps.len() == 0 {
        0 <= from <= t.len()
    } else {
        let (o, c, e) = reps[0];
        &&& 0 <= from <= o < c < t.len()
        &&& t[o] == ':' && t[c] == ':'
        &&& shortcode_emoji(t.subrange(o + 1, c)) == Some(e)
        &&& shortcodes_at(t, reps.drop_first(), c + 1)
    }
}

/// `t` from `from` on with the shortcodes `reps` swapped for their emoji and
/// every other character kept.
pub open spec fn swapped(t: Seq<char>, reps: Seq<(int, int, Seq<char>)>, from: int) -> Seq<char>
    decreases reps.len(),
{
    if reps.len() == 0 {
        t.subrange(from, t.len() as int)
    } else {
        let (o, c, e) = reps[0];
        t.subrange(from, o) + e + swapped(t, reps.drop_first(), c + 1)
    }
}

proof fn lemma_scan_swaps(t: Seq<char>, i: int, top: int, old: int, buf: Option<Seq<char>>)
    requires
        0 <= top <= old <= i <= t.len(),
        old == 0 || t[old - 1] == ':',
    ensures
        emoji_scan(t, i, top, old, buf) matches Some(Some(out)) ==> exists|reps: Seq<(int, int, Seq<char>)>|
            #[trigger] shortcodes_at(t, reps, top) && out == (match buf {
                Some(b) => b,
                None => Seq::<char>::empty(),
            }) + swapped(t, reps, top),
    decreases t.len() - i,
{
    let pre = match buf {
        Some(b) => b,
        None => Seq::<char>::empty(),
    };
    if i >= t.len() {
        if let Some(Some(out)) = emoji_scan(t, i, top, old, buf) {
            let reps = Seq::<(int, int, Seq<char>)>::empty();
            assert(shortcodes_at(t, reps, top));
            assert(out == pre + swapped(t, reps, top));
        }
    } else if t[i] != ':' {
        lemma_scan_swaps(t, i + 1, top, old, buf);
    } else {
        match shortcode_emoji(t.subrange(old, i)) {
            Some(e) => {
                if !(old < 1 || top > old - 1) {
                    let nb = pre + t.subrange(top, old - 1) + e;
                    lemma_scan_swaps(t, i + 1, i + 1, i + 1, Some(nb));
                    if let Some(Some(out)) = emoji_scan(t, i, top, old, buf) {
                        let r2 = choose|reps: Seq<(int, int, Seq<char>)>|
                            #[trigger] shortcodes_at(t, reps, i + 1) && out == nb + swapped(t, reps, i + 1);
                        let reps = seq![(old - 1, i, e)] + r2;
                        assert(reps[0] == (old - 1, i, e));
                        assert(reps.drop_first() =~= r2);
                        assert(t.subrange(old - 1 + 1, i) =~= t.subrange(old, i));
                        assert(shortcodes_at(t, reps, top));
                        assert(out == pre + swapped(t, reps, top));
                    }
                }
            },
            None => {
                lemma_scan_swaps(t, i + 1, top, i + 1, buf);
            },
        }
    }
}

/// Replacing shortcodes loses no other text: where the scan rewrites `t`,
/// the result is `t` with some of its shortcodes, in order and apart, each
/// swapped for the emoji it names, and every other character kept, so the
/// text after the last replaced shortcode ends the result unchanged.
pub proof fn lemma_emoji_keeps_text(t: Seq<char>)
    ensures
        emoji_scan(t, 0, 0, 0, None) matches Some(Some(out)) ==> exists|reps: Seq<(int, int, Seq<char>)>|
            #[trigger] shortcodes_at(t, reps, 0) && out == swapped(t, reps, 0),
{
    lemma_scan_swaps(t, 0, 0, 0, None);
    if let Some(Some(out)) = emoji_scan(t, 0, 0, 0, None) {
        let reps = choose|reps: Seq<(int, int, Seq<char>)>|
            #[trigger] shortcodes_at(t, reps, 0) && out == Seq::<char>::empty() + swapped(t, reps, 0);
        assert(Seq::<char>::empty() + swapped(t, reps, 0) =~= swapped(t, reps, 0));
    }
}

} // verus!
