//! Placement decisions for annotations over highlighted code: which
//! annotations touch a highlighted run, how an annotation's element closes,
//! and on which side its hover card opens.

use vstd::prelude::*;
use vstd::string::StringSliceAdditionalSpecFns;
use vstd::utf8::{encode_utf8_valid_utf8, is_char_boundary, valid_utf8};

verus! {

/// A range of byte offsets into a code snippet, end excluded.
#[derive(Clone, Copy)]
pub struct TextRange {
    pub start: usize,
    pub end: usize,
}

/// Whether two ranges share at least one offset.
pub open spec fn overlap(lhs: TextRange, rhs: TextRange) -> bool {
    lhs.start < rhs.end && rhs.start < lhs.end
}

/// Whether two ranges share at least one offset.
pub fn ranges_overlap(lhs: TextRange, rhs: TextRange) -> (r: bool)
    ensures
        r == overlap(lhs, rhs),
{
    lhs.start < rhs.end && rhs.start < lhs.end
}

/// The element that closes an annotation: a link closes an `<a>`, anything
/// else a `<span>`.
pub fn annotation_close_tag(is_link: bool) -> (r: &'static str)
    ensures
        r@ == if is_link {
            "</a>"@
        } else {
            "</span>"@
        },
{
    if is_link {
        "</a>"
    } else {
        "</span>"
    }
}

/// Whether the bytes hold a newline.
pub open spec fn has_newline(bytes: Seq<u8>) -> bool {
    bytes.contains(10u8)
}

/// The side a hover card opens on, as an attribute. On one line it opens
/// away from the nearer end of the line: to the right when the middle of
/// the trigger lies in the first half of the code, else to the left. In
/// code of several lines it opens below a trigger on the first line and
/// takes the default placement elsewhere.
pub open spec fn placement(bytes: Seq<u8>, trigger: TextRange) -> Seq<char> {
    if !has_newline(bytes) {
        let mid = trigger.start + (trigger.end - trigger.start) / 2;
        if mid <= bytes.len() / 2 {
            " data-hern-placement=\"right\""@
        } else {
            " data-hern-placement=\"left\""@
        }
    } else if has_newline(bytes.take(trigger.start as int)) {
        ""@
    } else {
        " data-hern-placement=\"bottom\""@
    }
}

/// Whether `bytes[lo..hi]` holds a newline.
fn newline_within(bytes: &[u8], hi: usize) -> (r: bool)
    requires
        hi <= bytes@.len(),
    ensures
        r == has_newline(bytes@.take(hi as int)),
{
    let mut i: usize = 0;
    while i < hi
        invariant
            hi <= bytes@.len(),
            i <= hi,
            forall|k: int| 0 <= k < i ==> bytes@[k] != 10u8,
        decreases hi - i,
    {
        if bytes[i] == 10u8 {
            assert(bytes@.take(hi as int)[i as int] == 10u8);
            return true;
        }
        i = i + 1;
    }
    proof {
        if has_newline(bytes@.take(hi as int)) {
            let k = choose|k: int| 0 <= k < hi && bytes@.take(hi as int)[k] == 10u8;
            assert(bytes@[k] == 10u8);
        }
    }
    false
}

proof fn lemma_boundary_in_range(bytes: Seq<u8>, index: int)
    requires
        valid_utf8(bytes),
        is_char_boundary(bytes, index),
    ensures
        0 <= index <= bytes.len(),
{
}

/// The placement attribute of the hover card of an annotation whose trigger
/// covers `trigger` in `code`.
pub fn hover_placement_attr(code: &str, trigger: TextRange) -> (r: &'static str)
    requires
        trigger.start <= trigger.end,
        has_newline(code.spec_bytes()) ==> is_char_boundary(code.spec_bytes(), trigger.start as int),
    ensures
        r@ == placement(code.spec_bytes(), trigger),
{
    let bytes = code.as_bytes();
    let n = bytes.len();
    proof {
        reveal_strlit(" data-hern-placement=\"right\"");
        reveal_strlit(" data-hern-placement=\"left\"");
        reveal_strlit(" data-hern-placement=\"bottom\"");
        reveal_strlit("");
    }
    if !newline_within(bytes, n) {
        proof {
            assert(bytes@.take(n as int) =~= bytes@);
        }
        let mid = trigger.start + (trigger.end - trigger.start) / 2;
        if mid <= n / 2 {
            " data-hern-placement=\"right\""
        } else {
            " data-hern-placement=\"left\""
        }
    } else {
        proof {
            assert(bytes@.take(n as int) =~= bytes@);
        }
        proof {
            encode_utf8_valid_utf8(code@);
            lemma_boundary_in_range(code.spec_bytes(), trigger.start as int);
        }
        if newline_within(bytes, trigger.start) {
            ""
        } else {
            " data-hern-placement=\"bottom\""
        }
    }
}

} // verus!
