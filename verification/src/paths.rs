//! Path operations of camino on UTF-8 paths, as the site's logic uses them.
//!
//! camino delegates each of these to `std::path::Path`, whose component rules
//! take pages to state; their results are named here rather than restated.
//! The site's paths are Unix paths, with `/` as the only separator, and the
//! library is built for Unix targets: the facts stated of `parent` hold under
//! those rules.

use camino::Utf8Path;
use vstd::prelude::*;

verus! {

/// What `Utf8Path::file_stem` gives for a path.
pub uninterp spec fn path_file_stem(p: Seq<char>) -> Option<Seq<char>>;

/// What `Utf8Path::with_extension` gives for a path and an extension.
pub uninterp spec fn path_with_extension(p: Seq<char>, ext: Seq<char>) -> Seq<char>;

/// What `Utf8Path::ends_with` gives for a path and a child path.
pub uninterp spec fn path_ends_with(p: Seq<char>, child: Seq<char>) -> bool;

/// What `Utf8Path::parent` gives for a path.
pub uninterp spec fn path_parent(p: Seq<char>) -> Option<Seq<char>>;

/// What `Utf8Path::join` gives for a base path and a path.
pub uninterp spec fn path_join(base: Seq<char>, p: Seq<char>) -> Seq<char>;

/// `Utf8Path::file_stem`: the final component of `p` without its extension,
/// if `p` has a final file name.
#[verifier::external_body]
pub(crate) fn file_stem(p: &str) -> (r: Option<String>)
    ensures
        match r {
            Some(s) => path_file_stem(p@) == Some(s@),
            None => path_file_stem(p@) is None,
        },
{
    Utf8Path::new(p).file_stem().map(|s| s.to_string())
}

/// `Utf8Path::with_extension`: `p` with its extension replaced by `ext`
/// (removed when `ext` is empty). std panics on an extension that holds a
/// path separator, so `ext` holds no `/`.
#[verifier::external_body]
pub(crate) fn with_extension(p: &str, ext: &str) -> (r: String)
    requires
        !ext@.contains('/'),
    ensures
        r@ == path_with_extension(p@, ext@),
{
    Utf8Path::new(p).with_extension(ext).into_string()
}

/// `Utf8Path::ends_with`: whether `child` is a suffix of `p`, compared by
/// whole components.
#[verifier::external_body]
pub(crate) fn ends_with(p: &str, child: &str) -> (r: bool)
    ensures
        r == path_ends_with(p@, child@),
{
    Utf8Path::new(p).ends_with(child)
}

/// `Utf8Path::parent`: `p` without its final component, if it has one. The
/// result is a part of `p` with a component removed, so it is shorter; the
/// component is at least one character and, unless the result is empty or
/// ends with the root `/`, a separator stands between them, so the result is
/// shorter by two or more (under Unix path rules).
#[verifier::external_body]
pub(crate) fn parent(p: &str) -> (r: Option<String>)
    ensures
        match r {
            Some(q) => path_parent(p@) == Some(q@) && q@.len() < p@.len() && (q@.len() == 0 || q@.last()
                == '/' || q@.len() + 1 < p@.len()),
            None => path_parent(p@) is None,
        },
{
    Utf8Path::new(p).parent().map(|q| q.as_str().to_string())
}

/// `Utf8Path::join`: `p` adjoined to `base` (replacing it when `p` is
/// absolute).
#[verifier::external_body]
pub(crate) fn join(base: &str, p: &str) -> (r: String)
    ensures
        r@ == path_join(base@, p@),
{
    Utf8Path::new(base).join(p).into_string()
}

} // verus!

verus! {

/// What `Utf8Path::strip_prefix` gives for a path and a base: the rest of
/// the path, or `None` where the base does not begin it.
pub uninterp spec fn path_strip_prefix(p: Seq<char>, base: Seq<char>) -> Option<Seq<char>>;

/// What `Utf8Path::file_name` gives for a path.
pub uninterp spec fn path_file_name(p: Seq<char>) -> Option<Seq<char>>;

/// `Utf8Path::strip_prefix`: `p` relative to `base`, when `base` is a
/// prefix of `p` by whole components.
#[verifier::external_body]
pub(crate) fn strip_prefix(p: &str, base: &str) -> (r: Option<String>)
    ensures
        match r {
            Some(s) => path_strip_prefix(p@, base@) == Some(s@),
            None => path_strip_prefix(p@, base@) is None,
        },
{
    Utf8Path::new(p).strip_prefix(base).ok().map(|s| s.as_str().to_string())
}

/// `Utf8Path::file_name`: the final component of `p`, if it is a normal
/// component.
#[verifier::external_body]
pub(crate) fn file_name(p: &str) -> (r: Option<String>)
    ensures
        match r {
            Some(s) => path_file_name(p@) == Some(s@),
            None => path_file_name(p@) is None,
        },
{
    Utf8Path::new(p).file_name().map(|s| s.to_string())
}

} // verus!

verus! {

/// What `Utf8Path::extension` gives for a path.
pub uninterp spec fn path_extension(p: Seq<char>) -> Option<Seq<char>>;

/// `Utf8Path::extension`: the extension of the final component of `p`, if
/// it has one.
#[verifier::external_body]
pub(crate) fn extension(p: &str) -> (r: Option<String>)
    ensures
        match r {
            Some(s) => path_extension(p@) == Some(s@),
            None => path_extension(p@) is None,
        },
{
    Utf8Path::new(p).extension().map(|s| s.to_string())
}

} // verus!
