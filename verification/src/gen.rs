//! Source files found for the site, told apart by their extension.

use vstd::prelude::*;

use crate::paths::{extension, path_extension};
use crate::plugin::wiki::holds;
use crate::datalog::views;

verus! {

/// Marks whether the item should be treated as a content page, converted into a standalone HTML
/// page, or as a bundled asset.
pub enum FileItemKind {
    /// Convert to `index.html`
    Index,
    /// Convert to a bundled asset
    Bundle,
}

/// Metadata for a single item consumed by SSG.
pub struct FileItem {
    /// Kind of an item
    pub kind: FileItemKind,
    /// Original source file location
    pub path: String,
}

/// Whether a file with this path becomes a page: its extension is one of
/// `exts`.
pub open spec fn is_page_source(path: Seq<char>, exts: Seq<Seq<char>>) -> bool {
    match path_extension(path) {
        Some(e) => exts.contains(e),
        None => false,
    }
}

/// The item for the file at `path`: a page when its extension is one of
/// `exts`, a bundled asset otherwise.
pub fn to_source(path: String, exts: &[String]) -> (r: FileItem)
    ensures
        r.path@ == path@,
        (r.kind is Index) == is_page_source(path@, views(exts@)),
{
    let hit = match extension(path.as_str()) {
        Some(ext) => holds(exts, ext.as_str()),
        None => false,
    };
    let kind = if hit {
        FileItemKind::Index
    } else {
        FileItemKind::Bundle
    };
    FileItem { kind, path }
}

} // verus!
