//! Addresses used in the RSS feeds.

use vstd::prelude::*;

use crate::paths::{join, path_join};
use crate::strings::{chars_of, string_of};

verus! {

/// The address the site is published at.
pub const BASE_URL: &'static str = "https://kamoshi.org/";

/// `href` without one leading `/`.
pub open spec fn site_relative(href: Seq<char>) -> Seq<char> {
    if href.len() > 0 && href[0] == '/' {
        href.drop_first()
    } else {
        href
    }
}

/// The full address of a page of the site.
pub fn site_url(href: &str) -> (r: String)
    ensures
        r@ == path_join(BASE_URL@, site_relative(href@)),
{
    let cs = chars_of(href);
    let link = if cs.len() > 0 && cs[0] == '/' {
        string_of(&cs, 1, cs.len())
    } else {
        string_of(&cs, 0, cs.len())
    };
    proof {
        assert(cs@.subrange(1, cs@.len() as int) =~= href@.drop_first());
        assert(cs@.subrange(0, cs@.len() as int) =~= href@);
    }
    join(BASE_URL, link.as_str())
}

/// The address of the feed of a section: the section's path, then
/// `rss.xml`.
pub fn feed_path(slug: &str) -> (r: String)
    ensures
        r@ == path_join(slug@, "rss.xml"@),
{
    join(slug, "rss.xml")
}

/// The address of a section of the site.
pub fn section_url(slug: &str) -> (r: String)
    ensures
        r@ == path_join(BASE_URL@, slug@),
{
    join(BASE_URL, slug)
}

} // verus!
