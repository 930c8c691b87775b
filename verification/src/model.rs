//! The site's content model: the front matter of each kind of page, the
//! links that list pages show, and microblog entries read from a `twtxt`
//! file.

use vstd::prelude::*;

use crate::strings::{chars_of, string_of};
use crate::time::{rfc3339_instant, Timestamp};

verus! {

/// A link to a page: its path on the site, its name and an optional
/// description.
pub struct Link {
    pub path: String,
    pub name: String,
    pub desc: Option<String>,
}

/// A link with the date of the page it leads to.
pub struct LinkDate {
    pub link: Link,
    pub date: Timestamp,
}

/// An OpenPGP public key as shown on the about page.
pub struct Pubkey {
    pub fingerprint: String,
    pub data: String,
}

/// The front matter of the home page.
pub struct Home {}

/// The front matter of a post.
pub struct Post {
    /// The title of the post shown as `<h1>` heading.
    pub title: String,
    pub draft: bool,
    pub date: Timestamp,
    pub desc: Option<String>,
    pub tags: Vec<String>,
    pub scripts: Option<Vec<String>>,
}

/// A post as the site holds it: where it is published and its front matter.
pub struct PostDoc {
    pub href: String,
    pub matter: Post,
}

/// The front matter of a slideshow.
pub struct Slideshow {
    pub title: String,
    pub date: Timestamp,
    pub desc: Option<String>,
}

/// The front matter of a project page.
pub struct Project {
    pub title: String,
    /// List of technologies used
    pub tech: Vec<String>,
    pub link: String,
    pub desc: Option<String>,
}

/// The front matter of a wiki page.
pub struct Wiki {
    pub title: String,
}

/// One entry of the microblog: when it was written and what it says.
pub struct MicroblogEntry {
    pub date: Timestamp,
    pub text: String,
}

/// The microblog: its entries and the text of the file they were read from.
pub struct Microblog {
    pub entries: Vec<MicroblogEntry>,
    pub data: String,
}

/// Whether `c` has the Unicode `White_Space` property, as `char::is_whitespace`
/// documents it.
pub open spec fn white_space(c: char) -> bool {
    let n = c as u32;
    ||| 0x09 <= n <= 0x0d
    ||| n == 0x20
    ||| n == 0x85
    ||| n == 0xa0
    ||| n == 0x1680
    ||| 0x2000 <= n <= 0x200a
    ||| n == 0x2028
    ||| n == 0x2029
    ||| n == 0x202f
    ||| n == 0x205f
    ||| n == 0x3000
}

/// `char::is_whitespace`.
pub fn is_white_space(c: char) -> (r: bool)
    ensures
        r == white_space(c),
{
    let n = c as u32;
    (0x09 <= n && n <= 0x0d) || n == 0x20 || n == 0x85 || n == 0xa0 || n == 0x1680 || (0x2000
        <= n && n <= 0x200a) || n == 0x2028 || n == 0x2029 || n == 0x202f || n == 0x205f || n
        == 0x3000
}

/// The index of the first white space character of `s` at or after `from`,
/// or the length of `s` where there is none.
pub open spec fn white_space_from(s: Seq<char>, from: int) -> int
    decreases s.len() - from,
{
    if from >= s.len() {
        s.len() as int
    } else if white_space(s[from]) {
        from
    } else {
        white_space_from(s, from + 1)
    }
}

/// The number of white space characters that `s` starts with.
pub open spec fn leading_white_space(s: Seq<char>, from: int) -> int
    decreases s.len() - from,
{
    if from >= s.len() || !white_space(s[from]) {
        from
    } else {
        leading_white_space(s, from + 1)
    }
}

/// The date field of a `twtxt` line: everything before its first white
/// space character.
pub open spec fn entry_date_field(s: Seq<char>) -> Seq<char> {
    s.take(white_space_from(s, 0))
}

/// The text of a `twtxt` line: what follows the first white space character,
/// with the white space at its start removed; empty without white space.
pub open spec fn entry_text(s: Seq<char>) -> Seq<char> {
    let w = white_space_from(s, 0);
    if w < s.len() {
        s.skip(leading_white_space(s, w + 1))
    } else {
        Seq::empty()
    }
}

impl MicroblogEntry {
    /// Reads one `twtxt` line: an RFC 3339 date, white space, then the text.
    /// Fails exactly where chrono refuses the date field.
    pub fn parse(s: &str) -> (r: Result<MicroblogEntry, chrono::ParseError>)
        ensures
            match r {
                Ok(e) => rfc3339_instant(entry_date_field(s@)) == Some(
                    (e.date.spec_secs(), e.date.spec_nanos()),
                ) && e.text@ == entry_text(s@),
                Err(_) => rfc3339_instant(entry_date_field(s@)) is None,
            },
    {
        let cs = chars_of(s);
        let n = cs.len();
        let mut w: usize = 0;
        while w < n && !is_white_space(cs[w])
            invariant
                w <= n == cs@.len(),
                cs@ == s@,
                white_space_from(s@, w as int) == white_space_from(s@, 0),
            decreases n - w,
        {
            w = w + 1;
        }
        let date_field = string_of(&cs, 0, w);
        let text = if w < n {
            let mut t = w + 1;
            while t < n && is_white_space(cs[t])
                invariant
                    w < t <= n == cs@.len(),
                    cs@ == s@,
                    leading_white_space(s@, t as int) == leading_white_space(s@, w + 1),
                decreases n - t,
            {
                t = t + 1;
            }
            proof {
                assert(leading_white_space(s@, t as int) == t);
            }
            string_of(&cs, t, n)
        } else {
            String::new()
        };
        proof {
            assert(white_space_from(s@, w as int) == w);
            assert(cs@.subrange(0, w as int) =~= entry_date_field(s@));
        }
        match Timestamp::parse_rfc3339(date_field.as_str()) {
            Ok(date) => Ok(MicroblogEntry { date, text }),
            Err(e) => Err(e),
        }
    }
}

impl std::str::FromStr for MicroblogEntry {
    type Err = chrono::ParseError;

    /// Reads one `twtxt` line, as [`MicroblogEntry::parse`] does.
    fn from_str(s: &str) -> (r: Result<Self, Self::Err>)
        ensures
            match r {
                Ok(e) => rfc3339_instant(entry_date_field(s@)) == Some(
                    (e.date.spec_secs(), e.date.spec_nanos()),
                ) && e.text@ == entry_text(s@),
                Err(_) => rfc3339_instant(entry_date_field(s@)) is None,
            },
    {
        Self::parse(s)
    }
}

} // verus!
