//! The side panel of a post: when it was written, when it last changed and
//! its tags.

use vstd::prelude::*;

use crate::datalog::views;
use crate::props::{PropsPostMeta, PropsPostUpdated};
use crate::strings::{owned, push_char, push_str};
use crate::time::{iso_date_text, long_date_text, Timestamp};

verus! {

/// When a post last changed: the commit's date, written out and in ISO
/// form, its short hash and the address of the commit under `link`.
pub fn post_updated(commit_date: &Timestamp, hash: &str, link: &str) -> (r: PropsPostUpdated)
    ensures
        r.date@ == long_date_text(commit_date.spec_secs(), commit_date.spec_nanos()),
        r.date_iso@ == iso_date_text(commit_date.spec_secs(), commit_date.spec_nanos()),
        r.hash@ == hash@,
        r.hash_url@ == link@ + seq!['/'] + hash@,
{
    let mut url = owned(link);
    push_char(&mut url, '/');
    push_str(&mut url, hash);
    PropsPostUpdated {
        date: commit_date.long_date(),
        date_iso: commit_date.iso_date(),
        hash: owned(hash),
        hash_url: url,
    }
}

/// The side panel of a post written at `date`, with its tags in order.
pub fn post_meta(date: &Timestamp, updated: Option<PropsPostUpdated>, tags: &[String]) -> (r:
    PropsPostMeta)
    ensures
        r.date_added@ == long_date_text(date.spec_secs(), date.spec_nanos()),
        r.date_added_iso@ == iso_date_text(date.spec_secs(), date.spec_nanos()),
        r.updated == updated,
        views(r.tags@) == views(tags@),
{
    let mut copied: Vec<String> = Vec::new();
    for k in 0..tags.len()
        invariant
            views(copied@) == views(tags@.take(k as int)),
    {
        let ghost before = copied@;
        copied.push(tags[k].clone());
        proof {
            assert(copied@ =~= before.push(tags@[k as int]));
            assert(views(tags@.take(k + 1)) =~= views(tags@.take(k as int)).push(tags@[k as int]@));
            assert(views(copied@) =~= views(before).push(tags@[k as int]@));
        }
    }
    proof {
        assert(tags@.take(tags@.len() as int) =~= tags@);
    }
    PropsPostMeta {
        date_added: date.long_date(),
        date_added_iso: date.iso_date(),
        updated,
        tags: copied,
    }
}


/// The key of a script named in a post's front matter.
pub open spec fn script_key(entry: Seq<char>) -> Seq<char> {
    "scripts/"@ + entry
}

/// The scripts of a post page, in order: the outline script, the script
/// beside the post where there is one, then those its front matter names,
/// each under `scripts/`.
pub open spec fn post_scripts(colocated: Option<Seq<char>>, entries: Seq<Seq<char>>) -> Seq<Seq<char>> {
    seq!["scripts/outline/main.ts"@] + (match colocated {
        Some(c) => seq![c],
        None => seq![],
    }) + entries.map_values(|e: Seq<char>| script_key(e))
}

/// The keys of the scripts of a post page: the outline script, the key of
/// the script beside the post where there is one, then each script that the
/// front matter names, under `scripts/`.
pub fn post_script_keys(colocated: Option<&str>, entries: &[String]) -> (r: Vec<String>)
    ensures
        views(r@) == post_scripts(
            match colocated {
                Some(c) => Some(c@),
                None => None,
            },
            views(entries@),
        ),
{
    let mut r: Vec<String> = Vec::new();
    r.push(owned("scripts/outline/main.ts"));
    if let Some(c) = colocated {
        r.push(owned(c));
    }
    let ghost head = views(r@);
    let mut i: usize = 0;
    while i < entries.len()
        invariant
            i <= entries@.len(),
            views(r@) == head + views(entries@).take(i as int).map_values(|e: Seq<char>| script_key(e)),
        decreases entries@.len() - i,
    {
        let mut key = owned("scripts/");
        push_str(&mut key, entries[i].as_str());
        let ghost prev = views(r@);
        r.push(key);
        proof {
            assert(views(entries@).take(i + 1) =~= views(entries@).take(i as int).push(entries@[i as int]@));
            assert(views(r@) =~= prev.push(script_key(entries@[i as int]@)));
            assert(views(r@) =~= head + views(entries@).take(i + 1).map_values(|e: Seq<char>| script_key(e)));
        }
        i = i + 1;
    }
    proof {
        assert(views(entries@).take(i as int) =~= views(entries@));
    }
    r
}


/// The positions of the posts that are not drafts, in order.
pub open spec fn published_from(drafts: Seq<bool>, n: int) -> Seq<usize>
    decreases n,
{
    if n <= 0 {
        seq![]
    } else if drafts[n - 1] {
        published_from(drafts, n - 1)
    } else {
        published_from(drafts, n - 1).push((n - 1) as usize)
    }
}

/// The positions of the posts to publish, in order: those that are not
/// drafts.
pub fn published(drafts: &[bool]) -> (r: Vec<usize>)
    ensures
        r@ == published_from(drafts@, drafts@.len() as int),
{
    let mut r: Vec<usize> = Vec::new();
    let mut i: usize = 0;
    while i < drafts.len()
        invariant
            i <= drafts@.len(),
            r@ == published_from(drafts@, i as int),
        decreases drafts@.len() - i,
    {
        if !drafts[i] {
            r.push(i);
        }
        i = i + 1;
    }
    r
}

} // verus!
