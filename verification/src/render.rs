//! Shared rendering helpers for the decoders: the one-line summary of an
//! entry's content, and the `[field] [field] content` preview built from
//! whichever metadata fields a detail level shows.  Empty fields are
//! skipped, so an absent key never leaves empty brackets behind.

use vstd::prelude::*;

use crate::log_item::LogItem;
use crate::log_item::meta_get;
use crate::text::trim_view;
use crate::text::trim_chars;
use crate::text::sub_chars;
use crate::text::extend_chars;
use crate::text::str_chars;
use crate::text::chars_string;
use crate::content_lines::nl_pos;

verus! {

/// The first line-segment at or after `i` that is non-empty once trimmed.
pub open spec fn shorten_from(s: Seq<char>, i: int) -> Option<Seq<char>>
    decreases s.len() - i,
    when 0 <= i <= s.len()
    via shorten_from_decreases
{
    if i > s.len() {
        None
    } else {
        let e = nl_pos(s, i);
        let t = trim_view(s.subrange(i, e));
        if t.len() > 0 {
            Some(t)
        } else if e < s.len() {
            shorten_from(s, e + 1)
        } else {
            None
        }
    }
}

#[via_fn]
proof fn shorten_from_decreases(s: Seq<char>, i: int) {
    if 0 <= i <= s.len() {
        crate::content_lines::lemma_nl_pos_bounds(s, i);
    }
}

/// The one-line summary of content: its first trimmed non-empty line, or
/// the content itself when every line is blank.
pub open spec fn shorten_view(s: Seq<char>) -> Seq<char> {
    match shorten_from(s, 0) {
        Some(t) => t,
        None => s,
    }
}

/// First trimmed non-empty line of the content, or the content unchanged.
pub fn shorten_content(content: &str) -> (r: String)
    ensures
        r@ == shorten_view(content@),
{
    let v = str_chars(content);
    let mut i: usize = 0;
    loop
        invariant
            0 <= i <= v@.len(),
            v@.len() == v.len(),
            v@ == content@,
            shorten_from(v@, 0) == shorten_from(v@, i as int),
        decreases v@.len() - i,
    {
        let mut e: usize = i;
        while e < v.len() && v[e] != '\n'
            invariant
                i <= e <= v@.len(),
                nl_pos(v@, i as int) == nl_pos(v@, e as int),
            decreases v@.len() - e,
        {
            e = e + 1;
        }
        let seg = sub_chars(&v, i, e);
        let t = trim_chars(&seg);
        if t.len() > 0 {
            return chars_string(&t);
        }
        if e < v.len() {
            i = e + 1;
        } else {
            return chars_string(&v);
        }
    }
}

/// The preview text: each non-empty field bracketed and space-separated,
/// then the content.
pub open spec fn bracketed(fields: Seq<Seq<char>>, content: Seq<char>) -> Seq<char>
    decreases fields.len(),
{
    if fields.len() == 0 {
        content
    } else if fields[0].len() == 0 {
        bracketed(fields.drop_first(), content)
    } else {
        seq!['['] + fields[0] + seq![']', ' '] + bracketed(fields.drop_first(), content)
    }
}

/// The metadata value under `key`, or empty where the key is absent.
pub open spec fn meta_or_empty(item: LogItem, key: Seq<char>) -> Seq<char> {
    match meta_get(item.metadata@, key) {
        Some(v) => v,
        None => Seq::empty(),
    }
}

/// The metadata value as characters, empty where the key is absent.
pub(crate) fn meta_chars(item: &LogItem, key: &str) -> (r: Vec<char>)
    ensures
        r@ == meta_or_empty(*item, key@),
{
    match item.get_metadata(key) {
        Some(v) => str_chars(v),
        None => Vec::new(),
    }
}

/// Assemble the preview string from the chosen fields and the shortened
/// content.
pub(crate) fn build_preview(fields: &Vec<Vec<char>>, content_short: &Vec<char>) -> (r: String)
    ensures
        r@ == bracketed(fields@.map_values(|f: Vec<char>| f@), content_short@),
{
    let ghost to_view = |f: Vec<char>| f@;
    let ghost goal = bracketed(fields@.map_values(to_view), content_short@);
    let mut out: Vec<char> = Vec::new();
    let mut k: usize = 0;
    proof {
        assert(fields@.map_values(to_view).skip(0) =~= fields@.map_values(to_view));
        assert(Seq::<char>::empty() + bracketed(fields@.map_values(to_view), content_short@)
            =~= bracketed(fields@.map_values(to_view), content_short@));
    }
    while k < fields.len()
        invariant
            0 <= k <= fields@.len(),
            to_view == (|f: Vec<char>| f@),
            goal == bracketed(fields@.map_values(to_view), content_short@),
            goal == out@ + bracketed(fields@.map_values(to_view).skip(k as int), content_short@),
        decreases fields@.len() - k,
    {
        let ghost fviews = fields@.map_values(to_view);
        proof {
            assert(fviews.skip(k as int)[0] == fviews[k as int]);
            assert(fviews[k as int] == fields@[k as int]@);
            assert(fviews.skip(k as int).drop_first() =~= fviews.skip(k + 1 as int));
        }
        if fields[k].len() > 0 {
            out.push('[');
            extend_chars(&mut out, &fields[k]);
            out.push(']');
            out.push(' ');
            proof {
                assert(bracketed(fviews.skip(k as int), content_short@) =~= seq!['['] + fviews[
                    k as int
                ] + seq![']', ' '] + bracketed(fviews.skip(k + 1 as int), content_short@));
                assert(out@ + bracketed(fviews.skip(k + 1 as int), content_short@) =~= goal);
            }
        }
        k = k + 1;
    }
    extend_chars(&mut out, content_short);
    proof {
        let fviews = fields@.map_values(to_view);
        assert(fviews.skip(fviews.len() as int) =~= Seq::<Seq<char>>::empty());
        assert(bracketed(Seq::<Seq<char>>::empty(), content_short@) == content_short@);
    }
    chars_string(&out)
}

} // verus!
