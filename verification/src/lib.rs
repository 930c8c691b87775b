//! Verified core of a static site generator: the link graph and page tree
//! of the digital garden, wiki link resolution, the text rewrites of
//! markdown (ruby marks, inline directives, emoji shortcodes, heading ids and
//! outlines), dated lists grouped by year, tag indexes, microblog entries,
//! slideshow sections, kanji components and feed addresses.

pub mod datalog;
pub mod strings;
pub mod plugin;
pub mod text;
pub mod paths;
pub mod md;
pub mod time;
pub mod model;
pub mod props;
pub mod order;
pub mod markdown;
pub mod gen;
pub mod rss;
pub mod ts;

use vstd::prelude::*;

verus! {

/// The rendered entries of a page's bibliography, if it cites any.
pub struct Bibliography(pub Option<Vec<String>>);

} // verus!
