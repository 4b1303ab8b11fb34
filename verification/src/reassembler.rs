//! The structured reassembler: one chunk of newly appended text ("delta")
//! becomes an ordered list of entries.  A leading acquisition-layer wrapper
//! header is stripped, inline recurrences of it are removed as noise, the
//! body is carved at `## <date> <time>` delimiters into items whose headers
//! are split into origin, level, tag and message, and lifecycle markers are
//! detected on whole source lines, merged when adjacent, and interleaved by
//! source offset.

use vstd::prelude::*;

use crate::text::is_digit_c;
use crate::text::is_word_c;
use crate::text::is_upper_c;
use crate::text::is_wsp_c;
use crate::text::is_ctrl_c;
use crate::text::skip_wsp;
use crate::text::lemma_skip_wsp_bounds;
use crate::text::trim_view;
use crate::text::digit_char;
use crate::text::word_char;
use crate::text::upper_char;
use crate::text::wsp_char;
use crate::text::ctrl_char;
use crate::text::sub_chars;
use crate::text::trim_chars;
use crate::text::str_chars;
use crate::text::chars_string;

verus! {

/// `n` ASCII digits starting at `i`.
pub open spec fn digits_at(s: Seq<char>, i: int, n: int) -> bool {
    &&& i >= 0
    &&& i + n <= s.len()
    &&& forall|k: int| i <= k < i + n ==> is_digit_c(s[k])
}

fn digits_at_exec(v: &Vec<char>, i: usize, n: usize) -> (r: bool)
    requires
        i + n <= v@.len(),
    ensures
        r == digits_at(v@, i as int, n as int),
{
    let mut k: usize = 0;
    while k < n
        invariant
            0 <= k <= n,
            i + n <= v@.len(),
            v@.len() == v.len(),
            forall|j: int| i <= j < i + k ==> is_digit_c(v@[j]),
        decreases n - k,
    {
        if !digit_char(v[i + k]) {
            return false;
        }
        k = k + 1;
    }
    true
}

/// The item delimiter `## YYYY-MM-DD HH:MM:SS`, 22 characters, at `i`.
pub open spec fn delim_at(s: Seq<char>, i: int) -> bool {
    &&& i >= 0
    &&& i + 22 <= s.len()
    &&& s[i] == '#'
    &&& s[i + 1] == '#'
    &&& s[i + 2] == ' '
    &&& digits_at(s, i + 3, 4)
    &&& s[i + 7] == '-'
    &&& digits_at(s, i + 8, 2)
    &&& s[i + 10] == '-'
    &&& digits_at(s, i + 11, 2)
    &&& s[i + 13] == ' '
    &&& digits_at(s, i + 14, 2)
    &&& s[i + 16] == ':'
    &&& digits_at(s, i + 17, 2)
    &&& s[i + 19] == ':'
    &&& digits_at(s, i + 20, 2)
}

pub(crate) fn delim_at_exec(v: &Vec<char>, i: usize) -> (r: bool)
    requires
        i <= v@.len(),
    ensures
        r == delim_at(v@, i as int),
{
    if v.len() < 22 || i > v.len() - 22 {
        return false;
    }
    v[i] == '#' && v[i + 1] == '#' && v[i + 2] == ' ' && digits_at_exec(v, i + 3, 4) && v[i + 7]
        == '-' && digits_at_exec(v, i + 8, 2) && v[i + 10] == '-' && digits_at_exec(v, i + 11, 2)
        && v[i + 13] == ' ' && digits_at_exec(v, i + 14, 2) && v[i + 16] == ':' && digits_at_exec(
        v,
        i + 17,
        2,
    ) && v[i + 19] == ':' && digits_at_exec(v, i + 20, 2)
}

/// First index at or after `i` whose character fails `pred`.
pub open spec fn run_end(s: Seq<char>, i: int, pred: spec_fn(char) -> bool) -> int
    decreases s.len() - i,
    when 0 <= i <= s.len()
{
    if i < s.len() && pred(s[i]) {
        run_end(s, i + 1, pred)
    } else {
        i
    }
}

pub proof fn lemma_run_end(s: Seq<char>, i: int, pred: spec_fn(char) -> bool)
    requires
        0 <= i <= s.len(),
    ensures
        i <= run_end(s, i, pred) <= s.len(),
        forall|k: int| i <= k < run_end(s, i, pred) ==> pred(s[k]),
        run_end(s, i, pred) < s.len() ==> !pred(s[run_end(s, i, pred)]),
    decreases s.len() - i,
{
    if i < s.len() && pred(s[i]) {
        lemma_run_end(s, i + 1, pred);
    }
}

/// Characters skipped before a header is matched: whitespace, a byte-order
/// mark, or other control characters.
pub open spec fn is_junk_c(c: char) -> bool {
    is_wsp_c(c) || c == '\u{feff}' || is_ctrl_c(c)
}

fn junk_char(c: char) -> (r: bool)
    ensures
        r == is_junk_c(c),
{
    wsp_char(c) || c == '\u{feff}' || ctrl_char(c)
}

pub open spec fn word_pred() -> spec_fn(char) -> bool {
    |c: char| is_word_c(c)
}

pub open spec fn upper_pred() -> spec_fn(char) -> bool {
    |c: char| is_upper_c(c)
}

pub open spec fn non_rbracket_pred() -> spec_fn(char) -> bool {
    |c: char| c != ']'
}

pub open spec fn junk_pred() -> spec_fn(char) -> bool {
    |c: char| is_junk_c(c)
}

fn run_end_word(v: &Vec<char>, i: usize) -> (r: usize)
    requires
        i <= v@.len(),
    ensures
        r == run_end(v@, i as int, word_pred()),
        i <= r <= v@.len(),
{
    let mut j: usize = i;
    while j < v.len() && word_char(v[j])
        invariant
            i <= j <= v@.len(),
            run_end(v@, i as int, word_pred()) == run_end(v@, j as int, word_pred()),
        decreases v@.len() - j,
    {
        j = j + 1;
    }
    proof {
        lemma_run_end(v@, j as int, word_pred());
    }
    j
}

fn run_end_upper(v: &Vec<char>, i: usize) -> (r: usize)
    requires
        i <= v@.len(),
    ensures
        r == run_end(v@, i as int, upper_pred()),
        i <= r <= v@.len(),
{
    let mut j: usize = i;
    while j < v.len() && upper_char(v[j])
        invariant
            i <= j <= v@.len(),
            run_end(v@, i as int, upper_pred()) == run_end(v@, j as int, upper_pred()),
        decreases v@.len() - j,
    {
        j = j + 1;
    }
    proof {
        lemma_run_end(v@, j as int, upper_pred());
    }
    j
}

fn run_end_non_rbracket(v: &Vec<char>, i: usize) -> (r: usize)
    requires
        i <= v@.len(),
    ensures
        r == run_end(v@, i as int, non_rbracket_pred()),
        i <= r <= v@.len(),
{
    let mut j: usize = i;
    while j < v.len() && v[j] != ']'
        invariant
            i <= j <= v@.len(),
            run_end(v@, i as int, non_rbracket_pred()) == run_end(v@, j as int, non_rbracket_pred()),
        decreases v@.len() - j,
    {
        j = j + 1;
    }
    proof {
        lemma_run_end(v@, j as int, non_rbracket_pred());
    }
    j
}

fn run_end_junk(v: &Vec<char>, i: usize) -> (r: usize)
    requires
        i <= v@.len(),
    ensures
        r == run_end(v@, i as int, junk_pred()),
        i <= r <= v@.len(),
{
    let mut j: usize = i;
    while j < v.len() && junk_char(v[j])
        invariant
            i <= j <= v@.len(),
            run_end(v@, i as int, junk_pred()) == run_end(v@, j as int, junk_pred()),
        decreases v@.len() - j,
    {
        j = j + 1;
    }
    proof {
        lemma_run_end(v@, j as int, junk_pred());
    }
    j
}

fn skip_wsp_run(v: &Vec<char>, i: usize) -> (r: usize)
    requires
        i <= v@.len(),
    ensures
        r == skip_wsp(v@, i as int),
        i <= r <= v@.len(),
{
    let mut j: usize = i;
    while j < v.len() && wsp_char(v[j])
        invariant
            i <= j <= v@.len(),
            skip_wsp(v@, i as int) == skip_wsp(v@, j as int),
        decreases v@.len() - j,
    {
        j = j + 1;
    }
    proof {
        lemma_skip_wsp_bounds(v@, j as int);
    }
    j
}

/// The fixed 27-character prefix of a wrapper header,
/// `[YYYY-MM-DD HH:MM:SS.mmm] [`, at `i`.
pub open spec fn hdr_prefix_at(s: Seq<char>, i: int) -> bool {
    &&& i >= 0
    &&& i + 27 <= s.len()
    &&& s[i] == '['
    &&& digits_at(s, i + 1, 4)
    &&& s[i + 5] == '-'
    &&& digits_at(s, i + 6, 2)
    &&& s[i + 8] == '-'
    &&& digits_at(s, i + 9, 2)
    &&& s[i + 11] == ' '
    &&& digits_at(s, i + 12, 2)
    &&& s[i + 14] == ':'
    &&& digits_at(s, i + 15, 2)
    &&& s[i + 17] == ':'
    &&& digits_at(s, i + 18, 2)
    &&& s[i + 20] == '.'
    &&& digits_at(s, i + 21, 3)
    &&& s[i + 24] == ']'
    &&& s[i + 25] == ' '
    &&& s[i + 26] == '['
}

/// A whole wrapper header `[<date> <time>.<ms>] [<word>]` at `i`.
pub open spec fn hdr_at(s: Seq<char>, i: int) -> bool {
    &&& hdr_prefix_at(s, i)
    &&& run_end(s, i + 27, word_pred()) > i + 27
    &&& run_end(s, i + 27, word_pred()) < s.len()
    &&& s[run_end(s, i + 27, word_pred())] == ']'
}

/// One past the header and the whitespace run that follows it.
pub open spec fn hdr_end(s: Seq<char>, i: int) -> int {
    skip_wsp(s, run_end(s, i + 27, word_pred()) + 1)
}

pub proof fn lemma_hdr_end_bounds(s: Seq<char>, i: int)
    requires
        hdr_at(s, i),
    ensures
        i + 28 <= hdr_end(s, i) <= s.len(),
{
    lemma_run_end(s, i + 27, word_pred());
    let w = run_end(s, i + 27, word_pred());
    lemma_skip_wsp_bounds(s, w + 1);
}

fn hdr_prefix_at_exec(v: &Vec<char>, i: usize) -> (r: bool)
    requires
        i <= v@.len(),
    ensures
        r == hdr_prefix_at(v@, i as int),
{
    if v.len() < 27 || i > v.len() - 27 {
        return false;
    }
    v[i] == '[' && digits_at_exec(v, i + 1, 4) && v[i + 5] == '-' && digits_at_exec(v, i + 6, 2)
        && v[i + 8] == '-' && digits_at_exec(v, i + 9, 2) && v[i + 11] == ' ' && digits_at_exec(
        v,
        i + 12,
        2,
    ) && v[i + 14] == ':' && digits_at_exec(v, i + 15, 2) && v[i + 17] == ':' && digits_at_exec(
        v,
        i + 18,
        2,
    ) && v[i + 20] == '.' && digits_at_exec(v, i + 21, 3) && v[i + 24] == ']' && v[i + 25] == ' '
        && v[i + 26] == '['
}

/// Match a wrapper header at `i`; on success return the index one past the
/// header and its trailing whitespace.
fn hdr_scan(v: &Vec<char>, i: usize) -> (r: Option<usize>)
    requires
        i <= v@.len(),
    ensures
        match r {
            Some(e) => hdr_at(v@, i as int) && e == hdr_end(v@, i as int) && i < e <= v@.len(),
            None => !hdr_at(v@, i as int),
        },
{
    if !hdr_prefix_at_exec(v, i) {
        return None;
    }
    proof {
        assert(v.len() == v@.len());
    }
    let w = run_end_word(v, i + 27);
    if w == i + 27 || w >= v.len() || v[w] != ']' {
        return None;
    }
    let e = skip_wsp_run(v, w + 1);
    Some(e)
}

/// The delta with a single leading wrapper header removed, if one is present.
pub open spec fn strip_leading(s: Seq<char>) -> Seq<char> {
    if hdr_at(s, 0) {
        s.skip(hdr_end(s, 0))
    } else {
        s
    }
}

/// Strip the leading wrapper header once, as the reassembler's first step.
pub fn strip_leading_header(line: &str) -> (r: String)
    ensures
        r@ == strip_leading(line@),
{
    let v = str_chars(line);
    match hdr_scan(&v, 0) {
        Some(e) => {
            let rest = sub_chars(&v, e, v.len());
            proof {
                assert(v@.subrange(hdr_end(v@, 0), v@.len() as int) =~= v@.skip(hdr_end(v@, 0)));
            }
            chars_string(&rest)
        },
        None => chars_string(&v),
    }
}

/// The text from `i` on, with every inline wrapper header (and the
/// whitespace run after it) removed.
pub open spec fn remove_inline_from(s: Seq<char>, i: int) -> Seq<char>
    decreases s.len() - i,
    when 0 <= i <= s.len()
    via remove_inline_from_decreases
{
    if i >= s.len() {
        Seq::empty()
    } else if hdr_at(s, i) {
        remove_inline_from(s, hdr_end(s, i))
    } else {
        seq![s[i]] + remove_inline_from(s, i + 1)
    }
}

#[via_fn]
proof fn remove_inline_from_decreases(s: Seq<char>, i: int) {
    if i < s.len() && hdr_at(s, i) {
        lemma_hdr_end_bounds(s, i);
    }
}

/// Remove every inline wrapper header, the reassembler's noise filter.
pub fn remove_inline_headers(text: &str) -> (r: String)
    ensures
        r@ == remove_inline_from(text@, 0),
{
    let v = str_chars(text);
    let out = remove_inline_chars(&v);
    chars_string(&out)
}

pub(crate) fn remove_inline_chars(v: &Vec<char>) -> (r: Vec<char>)
    ensures
        r@ == remove_inline_from(v@, 0),
{
    let mut out: Vec<char> = Vec::new();
    let mut i: usize = 0;
    while i < v.len()
        invariant
            0 <= i <= v@.len(),
            remove_inline_from(v@, 0) == out@ + remove_inline_from(v@, i as int),
        decreases v@.len() - i,
    {
        match hdr_scan(v, i) {
            Some(e) => {
                i = e;
            },
            None => {
                out.push(v[i]);
                proof {
                    assert(remove_inline_from(v@, i as int) == seq![v@[i as int]]
                        + remove_inline_from(v@, i + 1 as int));
                    assert(out@ + remove_inline_from(v@, i + 1 as int) =~= remove_inline_from(
                        v@,
                        0,
                    ));
                }
                i = i + 1;
            },
        }
    }
    proof {
        assert(remove_inline_from(v@, v@.len() as int) =~= Seq::<char>::empty());
        assert(out@ + Seq::<char>::empty() =~= out@);
    }
    out
}

/// The four pieces of an item header `[origin] LEVEL ## [tag] message`.
pub ghost struct HeaderParts {
    pub origin: Seq<char>,
    pub level: Seq<char>,
    pub tag: Seq<char>,
    pub msg: Seq<char>,
}

/// Whether the header pattern matches at `start` (the first index past the
/// leading junk), and where its pieces lie.
pub open spec fn hdr_parts_match(c: Seq<char>, start: int) -> bool {
    let rb1 = run_end(c, start + 1, non_rbracket_pred());
    let j = skip_wsp(c, rb1 + 1);
    let ue = run_end(c, j, upper_pred());
    let k = skip_wsp(c, ue);
    let m = skip_wsp(c, k + 2);
    let rb2 = run_end(c, m + 1, non_rbracket_pred());
    &&& start < c.len()
    &&& c[start] == '['
    &&& rb1 < c.len()
    &&& rb1 > start + 1
    &&& j < c.len()
    &&& ue > j
    &&& k + 2 <= c.len()
    &&& c[k] == '#'
    &&& c[k + 1] == '#'
    &&& m < c.len()
    &&& c[m] == '['
    &&& rb2 < c.len()
    &&& rb2 > m + 1
}

/// What `split_header` yields: the matched pieces, each trimmed, or empty
/// fields and the whole trimmed remainder when the pattern does not match.
pub open spec fn split_header_view(c: Seq<char>) -> HeaderParts {
    let start = run_end(c, 0, junk_pred());
    if hdr_parts_match(c, start) {
        let rb1 = run_end(c, start + 1, non_rbracket_pred());
        let j = skip_wsp(c, rb1 + 1);
        let ue = run_end(c, j, upper_pred());
        let k = skip_wsp(c, ue);
        let m = skip_wsp(c, k + 2);
        let rb2 = run_end(c, m + 1, non_rbracket_pred());
        HeaderParts {
            origin: trim_view(c.subrange(start + 1, rb1)),
            level: c.subrange(j, ue),
            tag: trim_view(c.subrange(m + 1, rb2)),
            msg: trim_view(c.subrange(rb2 + 1, c.len() as int)),
        }
    } else {
        HeaderParts {
            origin: Seq::empty(),
            level: Seq::empty(),
            tag: Seq::empty(),
            msg: trim_view(c.subrange(start, c.len() as int)),
        }
    }
}

pub(crate) fn split_header_chars(c: &Vec<char>) -> (r: (Vec<char>, Vec<char>, Vec<char>, Vec<char>))
    ensures
        ({
            let h = split_header_view(c@);
            r.0@ == h.origin && r.1@ == h.level && r.2@ == h.tag && r.3@ == h.msg
        }),
{
    let start = run_end_junk(c, 0);
    if start < c.len() && c[start] == '[' {
        let rb1 = run_end_non_rbracket(c, start + 1);
        if rb1 < c.len() && rb1 > start + 1 {
            let j = skip_wsp_run(c, rb1 + 1);
            let ue = run_end_upper(c, j);
            if j < c.len() && ue > j {
                let k = skip_wsp_run(c, ue);
                if c.len() >= 2 && k <= c.len() - 2 && c[k] == '#' && c[k + 1] == '#' {
                    let m = skip_wsp_run(c, k + 2);
                    if m < c.len() && c[m] == '[' {
                        let rb2 = run_end_non_rbracket(c, m + 1);
                        if rb2 < c.len() && rb2 > m + 1 {
                            let origin_raw = sub_chars(c, start + 1, rb1);
                            let origin = trim_chars(&origin_raw);
                            let level = sub_chars(c, j, ue);
                            let tag_raw = sub_chars(c, m + 1, rb2);
                            let tag = trim_chars(&tag_raw);
                            let msg_raw = sub_chars(c, rb2 + 1, c.len());
                            let msg = trim_chars(&msg_raw);
                            return (origin, level, tag, msg);
                        }
                    }
                }
            }
        }
    }
    let rest_raw = sub_chars(c, start, c.len());
    let rest = trim_chars(&rest_raw);
    (Vec::new(), Vec::new(), Vec::new(), rest)
}

/// Split an item header line into `(origin, level, tag, message)`; on a
/// non-match the first three come back empty and the message is the whole
/// trimmed line.
pub fn split_header(line: &str) -> (r: (String, String, String, String))
    ensures
        ({
            let h = split_header_view(line@);
            r.0@ == h.origin && r.1@ == h.level && r.2@ == h.tag && r.3@ == h.msg
        }),
{
    let v = str_chars(line);
    let parts = split_header_chars(&v);
    (
        chars_string(&parts.0),
        chars_string(&parts.1),
        chars_string(&parts.2),
        chars_string(&parts.3),
    )
}

/// Start offsets of every item delimiter at or after `i`, scanned left to
/// right without overlap.
pub open spec fn delim_starts_from(s: Seq<char>, i: int) -> Seq<int>
    decreases s.len() - i,
    when 0 <= i <= s.len()
{
    if i + 22 > s.len() {
        Seq::empty()
    } else if delim_at(s, i) {
        seq![i] + delim_starts_from(s, i + 22)
    } else {
        delim_starts_from(s, i + 1)
    }
}

pub open spec fn delim_starts(s: Seq<char>) -> Seq<int> {
    delim_starts_from(s, 0)
}

pub proof fn lemma_delim_starts_props(s: Seq<char>, i: int)
    requires
        0 <= i <= s.len(),
    ensures
        forall|k: int|
            0 <= k < delim_starts_from(s, i).len() ==> i <= #[trigger] delim_starts_from(s, i)[k]
                && delim_at(s, delim_starts_from(s, i)[k]),
        forall|k: int|
            0 <= k < delim_starts_from(s, i).len() - 1 ==> #[trigger] delim_starts_from(s, i)[k]
                + 22 <= delim_starts_from(s, i)[k + 1],
    decreases s.len() - i,
{
    let st = delim_starts_from(s, i);
    if i + 22 > s.len() {
    } else if delim_at(s, i) {
        lemma_delim_starts_props(s, i + 22);
        let rest = delim_starts_from(s, i + 22);
        assert(st == seq![i] + rest);
        assert forall|k: int| 0 <= k < st.len() implies i <= #[trigger] st[k] && delim_at(
            s,
            st[k],
        ) by {
            if k == 0 {
                assert(st[0] == i);
            } else {
                assert(st[k] == rest[k - 1]);
                assert(i + 22 <= rest[k - 1] && delim_at(s, rest[k - 1]));
            }
        }
        assert forall|k: int| 0 <= k < st.len() - 1 implies #[trigger] st[k] + 22 <= st[k + 1] by {
            if k == 0 {
                assert(st[0] == i);
                assert(st[1] == rest[0]);
                assert(i + 22 <= rest[0]);
            } else {
                assert(st[k] == rest[k - 1]);
                assert(st[k + 1] == rest[k]);
                assert(rest[k - 1] + 22 <= rest[k]);
            }
        }
    } else {
        lemma_delim_starts_props(s, i + 1);
        assert(st == delim_starts_from(s, i + 1));
        assert forall|k: int| 0 <= k < st.len() implies i <= #[trigger] st[k] && delim_at(
            s,
            st[k],
        ) by {
            assert(i + 1 <= delim_starts_from(s, i + 1)[k]);
            assert(delim_at(s, delim_starts_from(s, i + 1)[k]));
        }
    }
}

/// The model of one delimiter window `[st, en)`: the timestamp after the
/// delimiter, the trimmed remainder as raw text, and the header split into
/// fields, empty ones omitted.
pub open spec fn window_model(s: Seq<char>, st: int, en: int) -> (int, crate::log_item::ItemModel) {
    let raw = trim_view(s.subrange(st + 22, en));
    let h = split_header_view(raw);
    (
        st,
        crate::log_item::ItemModel {
            time: Some(s.subrange(st + 3, st + 22)),
            level: if h.level.len() > 0 {
                Some(h.level)
            } else {
                None
            },
            origin: if h.origin.len() > 0 {
                Some(h.origin)
            } else {
                None
            },
            tag: if h.tag.len() > 0 {
                Some(h.tag)
            } else {
                None
            },
            content: h.msg,
            raw: raw,
        },
    )
}

/// Models of all delimiter-based items of a body, in source order.
pub open spec fn structured_models(s: Seq<char>) -> Seq<(int, crate::log_item::ItemModel)> {
    let starts = delim_starts(s);
    Seq::new(
        starts.len(),
        |k: int|
            window_model(
                s,
                starts[k],
                if k + 1 < starts.len() {
                    starts[k + 1]
                } else {
                    s.len() as int
                },
            ),
    )
}

/// A positioned entry list realizes a positioned model list pointwise.
pub open spec fn positioned_obey(
    v: Seq<(usize, crate::log_item::LogItem)>,
    m: Seq<(int, crate::log_item::ItemModel)>,
) -> bool {
    &&& v.len() == m.len()
    &&& forall|i: int|
        0 <= i < m.len() ==> (#[trigger] v[i]).0 as int == m[i].0 && crate::log_item::item_obeys(
            v[i].1,
            m[i].1,
        )
}

pub(crate) fn find_delims(v: &Vec<char>) -> (r: Vec<usize>)
    ensures
        r@.map_values(|u: usize| u as int) == delim_starts(v@),
{
    let mut out: Vec<usize> = Vec::new();
    let mut i: usize = 0;
    proof {
        assert(out@.map_values(|u: usize| u as int) =~= Seq::<int>::empty());
        assert(Seq::<int>::empty() + delim_starts_from(v@, 0) =~= delim_starts_from(v@, 0));
    }
    while i < v.len()
        invariant
            0 <= i <= v@.len(),
            delim_starts(v@) == out@.map_values(|u: usize| u as int) + delim_starts_from(
                v@,
                i as int,
            ),
        decreases v@.len() - i,
    {
        proof {
            assert(v.len() == v@.len());
        }
        if delim_at_exec(v, i) {
            let ghost pre = out@.map_values(|u: usize| u as int);
            out.push(i);
            proof {
                assert(out@.map_values(|u: usize| u as int) =~= pre.push(i as int));
                assert(delim_starts_from(v@, i as int) == seq![i as int] + delim_starts_from(
                    v@,
                    i + 22 as int,
                ));
                assert(pre.push(i as int) + delim_starts_from(v@, i + 22 as int) =~= pre + (seq![
                    i as int,
                ] + delim_starts_from(v@, i + 22 as int)));
            }
            i = i + 22;
        } else {
            proof {
                if i + 22 <= v@.len() {
                    assert(delim_starts_from(v@, i as int) == delim_starts_from(v@, i + 1 as int));
                } else {
                    assert(delim_starts_from(v@, i as int) =~= Seq::<int>::empty());
                    assert(delim_starts_from(v@, i + 1 as int) =~= Seq::<int>::empty());
                }
            }
            i = i + 1;
        }
    }
    proof {
        assert(delim_starts_from(v@, i as int) =~= Seq::<int>::empty());
        assert(out@.map_values(|u: usize| u as int) + Seq::<int>::empty() =~= out@.map_values(
            |u: usize| u as int,
        ));
    }
    out
}

/// Build the entry of one window, with a fresh identifier.
fn build_window_item(body: &Vec<char>, st: usize, en: usize) -> (r: crate::log_item::LogItem)
    requires
        st + 22 <= en <= body@.len(),
    ensures
        crate::log_item::item_obeys(r, window_model(body@, st as int, en as int).1),
{
    let time_chars = sub_chars(body, st + 3, st + 22);
    let time = chars_string(&time_chars);
    let raw_chars_untrimmed = sub_chars(body, st + 22, en);
    let raw_chars = trim_chars(&raw_chars_untrimmed);
    let raw = chars_string(&raw_chars);
    let parts = split_header_chars(&raw_chars);
    let content = chars_string(&parts.3);
    let ghost m = window_model(body@, st as int, en as int).1;
    let mut item = crate::log_item::LogItem::with_time(time, content, raw);
    proof {
        crate::log_item::lemma_meta_get_empty("level"@);
        crate::log_item::lemma_meta_get_empty("origin"@);
        crate::log_item::lemma_meta_get_empty("tag"@);
        crate::log_item::lemma_meta_keys_distinct();
    }
    if parts.1.len() > 0 {
        let lv = chars_string(&parts.1);
        item = item.with_metadata("level", lv.as_str());
    }
    if parts.0.len() > 0 {
        let og = chars_string(&parts.0);
        item = item.with_metadata("origin", og.as_str());
    }
    if parts.2.len() > 0 {
        let tg = chars_string(&parts.2);
        item = item.with_metadata("tag", tg.as_str());
    }
    item
}

/// Build the positioned delimiter-based entries of a body.
fn build_structured(body: &Vec<char>) -> (r: Vec<(usize, crate::log_item::LogItem)>)
    ensures
        positioned_obey(r@, structured_models(body@)),
{
    let starts = find_delims(body);
    proof {
        lemma_delim_starts_props(body@, 0);
    }
    let ghost models = structured_models(body@);
    let mut out: Vec<(usize, crate::log_item::LogItem)> = Vec::new();
    let mut k: usize = 0;
    while k < starts.len()
        invariant
            0 <= k <= starts@.len(),
            starts@.map_values(|u: usize| u as int) == delim_starts(body@),
            models == structured_models(body@),
            models.len() == starts@.len(),
            out@.len() == k,
            forall|j: int|
                0 <= j < k ==> (#[trigger] out@[j]).0 as int == models[j].0
                    && crate::log_item::item_obeys(out@[j].1, models[j].1),
        decreases starts@.len() - k,
    {
        let st = starts[k];
        let en: usize = if k + 1 < starts.len() {
            starts[k + 1]
        } else {
            body.len()
        };
        proof {
            lemma_delim_starts_props(body@, 0);
            let ghost sview = starts@.map_values(|u: usize| u as int);
            assert(sview[k as int] == st as int);
            assert(delim_starts_from(body@, 0)[k as int] == st as int);
            assert(delim_at(body@, st as int));
            if k + 1 < starts@.len() {
                assert(sview[k + 1 as int] == starts@[k + 1 as int] as int);
                assert(delim_starts_from(body@, 0)[k as int] + 22 <= delim_starts_from(
                    body@,
                    0,
                )[k + 1 as int]);
            }
            assert(st + 22 <= en <= body@.len());
            assert(models[k as int] == window_model(body@, st as int, en as int));
        }
        let item = build_window_item(body, st, en);
        out.push((st, item));
        k = k + 1;
    }
    out
}

/// ASCII-case-insensitive match of a source character against a lowercase
/// pattern character.
pub open spec fn ci_match(a: char, lower: char) -> bool {
    a == lower || (is_upper_c(a) && (a as u32) + 32 == (lower as u32))
}

fn ci_match_exec(a: char, lower: char) -> (r: bool)
    ensures
        r == ci_match(a, lower),
{
    a == lower || ('A' <= a && a <= 'Z' && (a as u32) + 32 == (lower as u32))
}

/// The lowercase literal `lit` occurs case-insensitively at `i`.
pub open spec fn lit_ci_at(s: Seq<char>, i: int, lit: Seq<char>) -> bool {
    0 <= i && i + lit.len() <= s.len() && forall|j: int|
        0 <= j < lit.len() ==> ci_match(s[i + j], lit[j])
}

fn lit_ci_at_exec(v: &Vec<char>, i: usize, lit: &Vec<char>) -> (r: bool)
    requires
        i <= v@.len(),
    ensures
        r == lit_ci_at(v@, i as int, lit@),
{
    if v.len() - i < lit.len() {
        return false;
    }
    let mut j: usize = 0;
    while j < lit.len()
        invariant
            0 <= j <= lit@.len(),
            i + lit@.len() <= v@.len(),
            v@.len() == v.len(),
            forall|k: int| 0 <= k < j ==> ci_match(v@[i + k], lit@[k]),
        decreases lit@.len() - j,
    {
        if !ci_match_exec(v[i + j], lit[j]) {
            return false;
        }
        j = j + 1;
    }
    true
}

/// End of a pause marker match starting at `i`, or `-1`.  The first
/// alternative is the lifecycle call followed by optional whitespace and an
/// opening parenthesis; the second is the bare word.
pub open spec fn pause_end_at(s: Seq<char>, i: int) -> int {
    if lit_ci_at(s, i, "bef_effect_onpause_imp"@) && ({
        let w = skip_wsp(s, i + 22);
        w < s.len() && s[w] == '('
    }) {
        skip_wsp(s, i + 22) + 1
    } else if lit_ci_at(s, i, "onpause"@) {
        i + 7
    } else {
        -1
    }
}

/// End of a resume marker match starting at `i`, or `-1`.
pub open spec fn resume_end_at(s: Seq<char>, i: int) -> int {
    if lit_ci_at(s, i, "bef_effect_onresume_imp"@) && ({
        let w = skip_wsp(s, i + 23);
        w < s.len() && s[w] == '('
    }) {
        skip_wsp(s, i + 23) + 1
    } else {
        -1
    }
}

proof fn lemma_pause_end_bounds(s: Seq<char>, i: int)
    requires
        0 <= i <= s.len(),
        pause_end_at(s, i) >= 0,
    ensures
        i < pause_end_at(s, i) <= s.len(),
{
    reveal_strlit("bef_effect_onpause_imp");
    reveal_strlit("onpause");
    assert("bef_effect_onpause_imp"@.len() == 22);
    assert("onpause"@.len() == 7);
    if lit_ci_at(s, i, "bef_effect_onpause_imp"@) && ({
        let w = skip_wsp(s, i + 22);
        w < s.len() && s[w] == '('
    }) {
        lemma_skip_wsp_bounds(s, i + 22);
    }
}

proof fn lemma_resume_end_bounds(s: Seq<char>, i: int)
    requires
        0 <= i <= s.len(),
        resume_end_at(s, i) >= 0,
    ensures
        i < resume_end_at(s, i) <= s.len(),
{
    reveal_strlit("bef_effect_onresume_imp");
    assert("bef_effect_onresume_imp"@.len() == 23);
    if lit_ci_at(s, i, "bef_effect_onresume_imp"@) && ({
        let w = skip_wsp(s, i + 23);
        w < s.len() && s[w] == '('
    }) {
        lemma_skip_wsp_bounds(s, i + 23);
    }
}

/// All pause marker matches at or after `i`, scanned left to right without
/// overlap, as `(start, end)` pairs.
pub open spec fn pause_matches_from(s: Seq<char>, i: int) -> Seq<(int, int)>
    decreases s.len() - i,
    when 0 <= i <= s.len()
    via pause_matches_from_decreases
{
    if i >= s.len() {
        Seq::empty()
    } else if pause_end_at(s, i) >= 0 {
        seq![(i, pause_end_at(s, i))] + pause_matches_from(s, pause_end_at(s, i))
    } else {
        pause_matches_from(s, i + 1)
    }
}

#[via_fn]
proof fn pause_matches_from_decreases(s: Seq<char>, i: int) {
    if 0 <= i < s.len() && pause_end_at(s, i) >= 0 {
        lemma_pause_end_bounds(s, i);
    }
}

/// All resume marker matches at or after `i`.
pub open spec fn resume_matches_from(s: Seq<char>, i: int) -> Seq<(int, int)>
    decreases s.len() - i,
    when 0 <= i <= s.len()
    via resume_matches_from_decreases
{
    if i >= s.len() {
        Seq::empty()
    } else if resume_end_at(s, i) >= 0 {
        seq![(i, resume_end_at(s, i))] + resume_matches_from(s, resume_end_at(s, i))
    } else {
        resume_matches_from(s, i + 1)
    }
}

#[via_fn]
proof fn resume_matches_from_decreases(s: Seq<char>, i: int) {
    if 0 <= i < s.len() && resume_end_at(s, i) >= 0 {
        lemma_resume_end_bounds(s, i);
    }
}

proof fn lemma_pause_matches_props(s: Seq<char>, i: int)
    requires
        0 <= i <= s.len(),
    ensures
        forall|k: int|
            0 <= k < pause_matches_from(s, i).len() ==> i <= (#[trigger] pause_matches_from(
                s,
                i,
            )[k]).0 < pause_matches_from(s, i)[k].1 <= s.len(),
        forall|k: int|
            0 <= k < pause_matches_from(s, i).len() - 1 ==> (#[trigger] pause_matches_from(
                s,
                i,
            )[k]).1 <= pause_matches_from(s, i)[k + 1].0,
    decreases s.len() - i,
{
    let ms = pause_matches_from(s, i);
    if i >= s.len() {
    } else if pause_end_at(s, i) >= 0 {
        let e = pause_end_at(s, i);
        lemma_pause_end_bounds(s, i);
        lemma_pause_matches_props(s, e);
        let rest = pause_matches_from(s, e);
        assert(ms == seq![(i, e)] + rest);
        assert forall|k: int| 0 <= k < ms.len() implies i <= (#[trigger] ms[k]).0 < ms[k].1
            <= s.len() by {
            if k == 0 {
                assert(ms[0] == (i, e));
            } else {
                assert(ms[k] == rest[k - 1]);
                assert(e <= rest[k - 1].0 < rest[k - 1].1 <= s.len());
            }
        }
        assert forall|k: int| 0 <= k < ms.len() - 1 implies (#[trigger] ms[k]).1 <= ms[k + 1].0 by {
            if k == 0 {
                assert(ms[0] == (i, e));
                assert(ms[1] == rest[0]);
                assert(e <= rest[0].0);
            } else {
                assert(ms[k] == rest[k - 1]);
                assert(ms[k + 1] == rest[k]);
                assert(rest[k - 1].1 <= rest[k].0);
            }
        }
    } else {
        lemma_pause_matches_props(s, i + 1);
        assert(ms == pause_matches_from(s, i + 1));
        assert forall|k: int| 0 <= k < ms.len() implies i <= (#[trigger] ms[k]).0 < ms[k].1
            <= s.len() by {
            assert(i + 1 <= (pause_matches_from(s, i + 1)[k]).0 < pause_matches_from(s, i + 1)[k].1
                <= s.len());
        }
    }
}

proof fn lemma_resume_matches_props(s: Seq<char>, i: int)
    requires
        0 <= i <= s.len(),
    ensures
        forall|k: int|
            0 <= k < resume_matches_from(s, i).len() ==> i <= (#[trigger] resume_matches_from(
                s,
                i,
            )[k]).0 < resume_matches_from(s, i)[k].1 <= s.len(),
        forall|k: int|
            0 <= k < resume_matches_from(s, i).len() - 1 ==> (#[trigger] resume_matches_from(
                s,
                i,
            )[k]).1 <= resume_matches_from(s, i)[k + 1].0,
    decreases s.len() - i,
{
    let ms = resume_matches_from(s, i);
    if i >= s.len() {
    } else if resume_end_at(s, i) >= 0 {
        let e = resume_end_at(s, i);
        lemma_resume_end_bounds(s, i);
        lemma_resume_matches_props(s, e);
        let rest = resume_matches_from(s, e);
        assert(ms == seq![(i, e)] + rest);
        assert forall|k: int| 0 <= k < ms.len() implies i <= (#[trigger] ms[k]).0 < ms[k].1
            <= s.len() by {
            if k == 0 {
                assert(ms[0] == (i, e));
            } else {
                assert(ms[k] == rest[k - 1]);
                assert(e <= rest[k - 1].0 < rest[k - 1].1 <= s.len());
            }
        }
        assert forall|k: int| 0 <= k < ms.len() - 1 implies (#[trigger] ms[k]).1 <= ms[k + 1].0 by {
            if k == 0 {
                assert(ms[0] == (i, e));
                assert(ms[1] == rest[0]);
                assert(e <= rest[0].0);
            } else {
                assert(ms[k] == rest[k - 1]);
                assert(ms[k + 1] == rest[k]);
                assert(rest[k - 1].1 <= rest[k].0);
            }
        }
    } else {
        lemma_resume_matches_props(s, i + 1);
        assert(ms == resume_matches_from(s, i + 1));
        assert forall|k: int| 0 <= k < ms.len() implies i <= (#[trigger] ms[k]).0 < ms[k].1
            <= s.len() by {
            assert(i + 1 <= (resume_matches_from(s, i + 1)[k]).0 < resume_matches_from(
                s,
                i + 1,
            )[k].1 <= s.len());
        }
    }
}

fn pause_end_exec(v: &Vec<char>, i: usize, call_lit: &Vec<char>, word_lit: &Vec<char>) -> (r: Option<
    usize,
>)
    requires
        i < v@.len(),
        call_lit@ == "bef_effect_onpause_imp"@,
        word_lit@ == "onpause"@,
    ensures
        match r {
            Some(e) => pause_end_at(v@, i as int) == e as int && i < e <= v@.len(),
            None => pause_end_at(v@, i as int) == -1,
        },
{
    proof {
        reveal_strlit("bef_effect_onpause_imp");
        reveal_strlit("onpause");
        assert(call_lit@.len() == 22);
        assert(word_lit@.len() == 7);
        assert(v.len() == v@.len());
    }
    if lit_ci_at_exec(v, i, call_lit) {
        let w = skip_wsp_run(v, i + 22);
        if w < v.len() && v[w] == '(' {
            proof {
                lemma_pause_end_bounds(v@, i as int);
            }
            return Some(w + 1);
        }
    }
    if lit_ci_at_exec(v, i, word_lit) {
        proof {
            lemma_pause_end_bounds(v@, i as int);
        }
        return Some(i + 7);
    }
    None
}

fn resume_end_exec(v: &Vec<char>, i: usize, call_lit: &Vec<char>) -> (r: Option<usize>)
    requires
        i < v@.len(),
        call_lit@ == "bef_effect_onresume_imp"@,
    ensures
        match r {
            Some(e) => resume_end_at(v@, i as int) == e as int && i < e <= v@.len(),
            None => resume_end_at(v@, i as int) == -1,
        },
{
    proof {
        reveal_strlit("bef_effect_onresume_imp");
        assert(call_lit@.len() == 23);
        assert(v.len() == v@.len());
    }
    if lit_ci_at_exec(v, i, call_lit) {
        let w = skip_wsp_run(v, i + 23);
        if w < v.len() && v[w] == '(' {
            proof {
                lemma_resume_end_bounds(v@, i as int);
            }
            return Some(w + 1);
        }
    }
    None
}

fn find_pause_matches(v: &Vec<char>) -> (r: Vec<(usize, usize)>)
    ensures
        r@.map_values(|m: (usize, usize)| (m.0 as int, m.1 as int)) == pause_matches_from(v@, 0),
{
    let call_lit = str_chars("bef_effect_onpause_imp");
    let word_lit = str_chars("onpause");
    let ghost to_int = |m: (usize, usize)| (m.0 as int, m.1 as int);
    let mut out: Vec<(usize, usize)> = Vec::new();
    let mut i: usize = 0;
    proof {
        assert(out@.map_values(to_int) =~= Seq::<(int, int)>::empty());
        assert(Seq::<(int, int)>::empty() + pause_matches_from(v@, 0) =~= pause_matches_from(
            v@,
            0,
        ));
    }
    while i < v.len()
        invariant
            0 <= i <= v@.len(),
            call_lit@ == "bef_effect_onpause_imp"@,
            word_lit@ == "onpause"@,
            to_int == (|m: (usize, usize)| (m.0 as int, m.1 as int)),
            pause_matches_from(v@, 0) == out@.map_values(to_int) + pause_matches_from(v@, i as int),
        decreases v@.len() - i,
    {
        match pause_end_exec(v, i, &call_lit, &word_lit) {
            Some(e) => {
                let ghost pre = out@.map_values(to_int);
                out.push((i, e));
                proof {
                    assert(out@.map_values(to_int) =~= pre.push((i as int, e as int)));
                    assert(pause_matches_from(v@, i as int) == seq![(i as int, e as int)]
                        + pause_matches_from(v@, e as int));
                    assert(pre.push((i as int, e as int)) + pause_matches_from(v@, e as int)
                        =~= pre + (seq![(i as int, e as int)] + pause_matches_from(v@, e as int)));
                }
                i = e;
            },
            None => {
                proof {
                    assert(pause_matches_from(v@, i as int) == pause_matches_from(
                        v@,
                        i + 1 as int,
                    ));
                }
                i = i + 1;
            },
        }
    }
    proof {
        assert(pause_matches_from(v@, i as int) =~= Seq::<(int, int)>::empty());
        assert(out@.map_values(to_int) + Seq::<(int, int)>::empty() =~= out@.map_values(to_int));
    }
    out
}

fn find_resume_matches(v: &Vec<char>) -> (r: Vec<(usize, usize)>)
    ensures
        r@.map_values(|m: (usize, usize)| (m.0 as int, m.1 as int)) == resume_matches_from(v@, 0),
{
    let call_lit = str_chars("bef_effect_onresume_imp");
    let ghost to_int = |m: (usize, usize)| (m.0 as int, m.1 as int);
    let mut out: Vec<(usize, usize)> = Vec::new();
    let mut i: usize = 0;
    proof {
        assert(out@.map_values(to_int) =~= Seq::<(int, int)>::empty());
        assert(Seq::<(int, int)>::empty() + resume_matches_from(v@, 0) =~= resume_matches_from(
            v@,
            0,
        ));
    }
    while i < v.len()
        invariant
            0 <= i <= v@.len(),
            call_lit@ == "bef_effect_onresume_imp"@,
            to_int == (|m: (usize, usize)| (m.0 as int, m.1 as int)),
            resume_matches_from(v@, 0) == out@.map_values(to_int) + resume_matches_from(
                v@,
                i as int,
            ),
        decreases v@.len() - i,
    {
        match resume_end_exec(v, i, &call_lit) {
            Some(e) => {
                let ghost pre = out@.map_values(to_int);
                out.push((i, e));
                proof {
                    assert(out@.map_values(to_int) =~= pre.push((i as int, e as int)));
                    assert(resume_matches_from(v@, i as int) == seq![(i as int, e as int)]
                        + resume_matches_from(v@, e as int));
                    assert(pre.push((i as int, e as int)) + resume_matches_from(v@, e as int) =~= pre
                        + (seq![(i as int, e as int)] + resume_matches_from(v@, e as int)));
                }
                i = e;
            },
            None => {
                proof {
                    assert(resume_matches_from(v@, i as int) == resume_matches_from(
                        v@,
                        i + 1 as int,
                    ));
                }
                i = i + 1;
            },
        }
    }
    proof {
        assert(resume_matches_from(v@, i as int) =~= Seq::<(int, int)>::empty());
        assert(out@.map_values(to_int) + Seq::<(int, int)>::empty() =~= out@.map_values(to_int));
    }
    out
}

/// Start of the source line containing position `i`: the index just past the
/// previous newline, or the start of the text.
pub open spec fn line_start(s: Seq<char>, i: int) -> int
    decreases i,
    when 0 <= i <= s.len()
{
    if i > 0 && s[i - 1] != '\n' {
        line_start(s, i - 1)
    } else {
        i
    }
}

/// End of the source line containing position `i`: the index just past the
/// next newline at or after `i`, or the end of the text.
pub open spec fn line_end(s: Seq<char>, i: int) -> int
    decreases s.len() - i,
    when 0 <= i <= s.len()
{
    if i < s.len() {
        if s[i] == '\n' {
            i + 1
        } else {
            line_end(s, i + 1)
        }
    } else {
        i
    }
}

pub proof fn lemma_line_start_props(s: Seq<char>, i: int)
    requires
        0 <= i <= s.len(),
    ensures
        0 <= line_start(s, i) <= i,
        line_start(s, i) == 0 || s[line_start(s, i) - 1] == '\n',
        forall|j: int| line_start(s, i) < j <= i ==> #[trigger] s[j - 1] != '\n',
    decreases i,
{
    if i > 0 && s[i - 1] != '\n' {
        lemma_line_start_props(s, i - 1);
    }
}

/// Line starts respect source order.
pub proof fn lemma_line_start_mono(s: Seq<char>, a: int, b: int)
    requires
        0 <= a <= b <= s.len(),
    ensures
        line_start(s, a) <= line_start(s, b),
{
    lemma_line_start_props(s, a);
    lemma_line_start_props(s, b);
    if line_start(s, b) < line_start(s, a) {
        let la = line_start(s, a);
        assert(line_start(s, b) < la <= b);
        assert(s[la - 1] != '\n' || la == 0);
        assert(false);
    }
}

fn line_start_exec(v: &Vec<char>, i: usize) -> (r: usize)
    requires
        i <= v@.len(),
    ensures
        r as int == line_start(v@, i as int),
{
    let mut j: usize = i;
    while j > 0 && v[j - 1] != '\n'
        invariant
            0 <= j <= i <= v@.len(),
            line_start(v@, i as int) == line_start(v@, j as int),
        decreases j,
    {
        j = j - 1;
    }
    j
}

fn line_end_exec(v: &Vec<char>, i: usize) -> (r: usize)
    requires
        i <= v@.len(),
    ensures
        r as int == line_end(v@, i as int),
        i <= r <= v@.len(),
{
    let mut j: usize = i;
    while j < v.len() && v[j] != '\n'
        invariant
            i <= j <= v@.len(),
            line_end(v@, i as int) == line_end(v@, j as int),
        decreases v@.len() - j,
    {
        j = j + 1;
    }
    if j < v.len() {
        j + 1
    } else {
        j
    }
}

/// Each marker match expanded to the whole source lines containing it.
pub open spec fn expand_lines(s: Seq<char>, ms: Seq<(int, int)>) -> Seq<(int, int)> {
    ms.map_values(|m: (int, int)| (line_start(s, m.0), line_end(s, m.1)))
}

fn expand_lines_exec(v: &Vec<char>, ms: &Vec<(usize, usize)>) -> (r: Vec<(usize, usize)>)
    requires
        forall|k: int|
            0 <= k < ms@.len() ==> (#[trigger] ms@[k]).0 <= v@.len() && ms@[k].1 <= v@.len(),
    ensures
        r@.map_values(|m: (usize, usize)| (m.0 as int, m.1 as int)) == expand_lines(
            v@,
            ms@.map_values(|m: (usize, usize)| (m.0 as int, m.1 as int)),
        ),
        forall|k: int|
            0 <= k < r@.len() ==> (#[trigger] r@[k]).0 <= v@.len() && r@[k].1 <= v@.len(),
{
    let ghost to_int = |m: (usize, usize)| (m.0 as int, m.1 as int);
    let ghost goal = expand_lines(v@, ms@.map_values(to_int));
    let mut out: Vec<(usize, usize)> = Vec::new();
    let mut k: usize = 0;
    while k < ms.len()
        invariant
            0 <= k <= ms@.len(),
            forall|j: int|
                0 <= j < ms@.len() ==> (#[trigger] ms@[j]).0 <= v@.len() && ms@[j].1 <= v@.len(),
            goal == expand_lines(v@, ms@.map_values(to_int)),
            to_int == (|m: (usize, usize)| (m.0 as int, m.1 as int)),
            goal.len() == ms@.len(),
            out@.len() == k,
            forall|j: int| 0 <= j < k ==> to_int(#[trigger] out@[j]) == goal[j],
            forall|j: int|
                0 <= j < k ==> (#[trigger] out@[j]).0 <= v@.len() && out@[j].1 <= v@.len(),
        decreases ms@.len() - k,
    {
        let ls = line_start_exec(v, ms[k].0);
        let le = line_end_exec(v, ms[k].1);
        proof {
            assert(ms@.map_values(to_int)[k as int] == to_int(ms@[k as int]));
            assert(goal[k as int] == (line_start(v@, ms@[k as int].0 as int), line_end(
                v@,
                ms@[k as int].1 as int,
            )));
        }
        out.push((ls, le));
        proof {
            assert(out@[k as int] == (ls, le));
            assert(to_int((ls, le)) == (ls as int, le as int));
            assert(to_int(out@[k as int]) == goal[k as int]);
            lemma_line_start_props(v@, ms@[k as int].0 as int);
        }
        k = k + 1;
    }
    proof {
        assert forall|j: int| 0 <= j < out@.len() implies out@.map_values(to_int)[j] == goal[j] by {
            assert(out@.map_values(to_int)[j] == to_int(out@[j]));
        }
        assert(out@.map_values(to_int) =~= goal);
    }
    out
}

/// Merge ranges that overlap or are separated by at most one position,
/// assuming they arrive ordered by start.
pub open spec fn merge_touching(rs: Seq<(int, int)>) -> Seq<(int, int)>
    decreases rs.len(),
{
    if rs.len() <= 1 {
        rs
    } else if rs[1].0 <= rs[0].1 + 1 {
        merge_touching(
            seq![
                (
                    rs[0].0,
                    if rs[0].1 >= rs[1].1 {
                        rs[0].1
                    } else {
                        rs[1].1
                    },
                ),
            ] + rs.skip(2),
        )
    } else {
        seq![rs[0]] + merge_touching(rs.drop_first())
    }
}

fn merge_touching_exec(rs: &Vec<(usize, usize)>) -> (r: Vec<(usize, usize)>)
    ensures
        r@.map_values(|m: (usize, usize)| (m.0 as int, m.1 as int)) == merge_touching(
            rs@.map_values(|m: (usize, usize)| (m.0 as int, m.1 as int)),
        ),
{
    let ghost to_int = |m: (usize, usize)| (m.0 as int, m.1 as int);
    let ghost goal = merge_touching(rs@.map_values(to_int));
    let mut out: Vec<(usize, usize)> = Vec::new();
    let mut k: usize = 0;
    proof {
        assert(rs@.map_values(to_int).skip(0) =~= rs@.map_values(to_int));
    }
    while k < rs.len()
        invariant
            0 <= k <= rs@.len(),
            to_int == (|m: (usize, usize)| (m.0 as int, m.1 as int)),
            goal == merge_touching(rs@.map_values(to_int)),
            rs@.map_values(to_int).len() == rs@.len(),
            out@.len() == 0 ==> k == 0,
            out@.len() == 0 ==> goal == merge_touching(rs@.map_values(to_int).skip(k as int)),
            out@.len() > 0 ==> goal == out@.map_values(to_int).drop_last() + merge_touching(
                seq![to_int(out@.last())] + rs@.map_values(to_int).skip(k as int),
            ),
        decreases rs@.len() - k,
    {
        let ghost rsv = rs@.map_values(to_int);
        let cur = rs[k];
        proof {
            assert(rsv[k as int] == to_int(rs@[k as int]));
            assert(rsv.skip(k as int)[0] == rsv[k as int]);
            assert(rsv.skip(k as int).drop_first() =~= rsv.skip(k + 1 as int));
        }
        if out.len() == 0 {
            let ghost pre = out@;
            out.push(cur);
            proof {
                assert(out@ =~= pre.push(cur));
                assert(out@.last() == cur);
                assert(to_int(cur) == rsv[k as int]);
                assert(seq![rsv[k as int]] + rsv.skip(k + 1 as int) =~= rsv.skip(k as int));
                assert(out@.map_values(to_int).drop_last() =~= Seq::<(int, int)>::empty());
                assert(Seq::<(int, int)>::empty() + merge_touching(rsv.skip(k as int))
                    =~= merge_touching(rsv.skip(k as int)));
            }
        } else {
            let last = out[out.len() - 1];
            let touching: bool = if cur.0 <= last.1 {
                true
            } else {
                cur.0 - last.1 == 1
            };
            let ghost mid = seq![to_int(out@.last())] + rsv.skip(k as int);
            proof {
                assert(out@.last() == out@[out@.len() - 1]);
                assert(out@.last() == last);
                assert(mid[0] == to_int(last));
                assert(mid[1] == rsv.skip(k as int)[0]);
                assert(mid[1] == rsv[k as int]);
                assert(rsv[k as int] == to_int(cur));
                assert(mid.len() >= 2);
                assert(touching == (mid[1].0 <= mid[0].1 + 1));
            }
            if touching {
                let merged_end: usize = if last.1 >= cur.1 {
                    last.1
                } else {
                    cur.1
                };
                let ghost pre = out@;
                let _ = out.pop();
                out.push((last.0, merged_end));
                proof {
                    let ghost merged_pair = (
                        mid[0].0,
                        if mid[0].1 >= mid[1].1 {
                            mid[0].1
                        } else {
                            mid[1].1
                        },
                    );
                    assert(out@ =~= pre.drop_last().push((last.0, merged_end)));
                    assert(out@.len() == pre.len());
                    assert(out@.last() == (last.0, merged_end));
                    assert(to_int((last.0, merged_end)) == merged_pair);
                    assert forall|j: int|
                        0 <= j < out@.len() - 1 implies out@.map_values(to_int)[j]
                        == pre.map_values(to_int)[j] by {
                        assert(out@[j] == pre.drop_last().push((last.0, merged_end))[j]);
                        assert(out@[j] == pre[j]);
                    }
                    assert(out@.map_values(to_int).drop_last() =~= pre.map_values(
                        to_int,
                    ).drop_last());
                    assert(merge_touching(mid) == merge_touching(
                        seq![merged_pair] + mid.skip(2),
                    ));
                    assert(mid.skip(2) =~= rsv.skip(k + 1 as int));
                    assert(seq![to_int(out@.last())] + rsv.skip(k + 1 as int) =~= seq![merged_pair]
                        + mid.skip(2));
                }
            } else {
                let ghost pre = out@;
                out.push(cur);
                proof {
                    assert(merge_touching(mid) == seq![mid[0]] + merge_touching(mid.drop_first()));
                    assert(mid.drop_first() =~= rsv.skip(k as int));
                    assert(out@ =~= pre.push(cur));
                    assert(out@.last() == cur);
                    assert forall|j: int|
                        0 <= j < pre.len() implies out@.map_values(to_int)[j] == pre.map_values(
                        to_int,
                    )[j] by {
                        assert(out@[j] == pre[j]);
                    }
                    assert(out@.map_values(to_int).drop_last() =~= pre.map_values(to_int));
                    assert(pre.map_values(to_int).last() == to_int(pre.last()));
                    assert(pre.map_values(to_int).last() == mid[0]);
                    assert(pre.map_values(to_int).drop_last().push(mid[0]) =~= pre.map_values(
                        to_int,
                    ));
                    assert(seq![to_int(out@.last())] + rsv.skip(k + 1 as int) =~= rsv.skip(
                        k as int,
                    ));
                    assert(pre.map_values(to_int).drop_last() + (seq![mid[0]] + merge_touching(
                        rsv.skip(k as int),
                    )) =~= pre.map_values(to_int) + merge_touching(rsv.skip(k as int)));
                }
            }
        }
        k = k + 1;
    }
    proof {
        let rsv = rs@.map_values(to_int);
        assert(rsv.skip(rsv.len() as int) =~= Seq::<(int, int)>::empty());
        if out@.len() == 0 {
            assert(out@.map_values(to_int) =~= Seq::<(int, int)>::empty());
        } else {
            assert(seq![to_int(out@.last())] + rsv.skip(k as int) =~= seq![to_int(out@.last())]);
            assert(merge_touching(seq![to_int(out@.last())]) == seq![to_int(out@.last())]);
            assert(out@.map_values(to_int).drop_last() + seq![to_int(out@.last())]
                =~= out@.map_values(to_int));
        }
    }
    out
}

/// The synthetic entry a merged marker range yields, at the range's start.
pub open spec fn event_model(pos: int, txt: Seq<char>) -> (int, crate::log_item::ItemModel) {
    (
        pos,
        crate::log_item::ItemModel {
            time: Some(Seq::empty()),
            level: None,
            origin: None,
            tag: None,
            content: txt,
            raw: txt,
        },
    )
}

/// Positioned synthetic entries for all pause markers of a body.
pub open spec fn pause_events(s: Seq<char>) -> Seq<(int, crate::log_item::ItemModel)> {
    merge_touching(expand_lines(s, pause_matches_from(s, 0))).map_values(
        |r: (int, int)| event_model(r.0, "DYEH PAUSED"@),
    )
}

/// Positioned synthetic entries for all resume markers of a body.
pub open spec fn resume_events(s: Seq<char>) -> Seq<(int, crate::log_item::ItemModel)> {
    merge_touching(expand_lines(s, resume_matches_from(s, 0))).map_values(
        |r: (int, int)| event_model(r.0, "DYEH RESUMED"@),
    )
}

fn build_event_items(ranges: &Vec<(usize, usize)>, text: &str) -> (r: Vec<(
    usize,
    crate::log_item::LogItem,
)>)
    ensures
        positioned_obey(
            r@,
            ranges@.map_values(|m: (usize, usize)| (m.0 as int, m.1 as int)).map_values(
                |q: (int, int)| event_model(q.0, text@),
            ),
        ),
{
    let ghost to_int = |m: (usize, usize)| (m.0 as int, m.1 as int);
    let ghost to_model = |q: (int, int)| event_model(q.0, text@);
    let ghost goal = ranges@.map_values(to_int).map_values(to_model);
    let mut out: Vec<(usize, crate::log_item::LogItem)> = Vec::new();
    let mut k: usize = 0;
    while k < ranges.len()
        invariant
            0 <= k <= ranges@.len(),
            to_int == (|m: (usize, usize)| (m.0 as int, m.1 as int)),
            to_model == (|q: (int, int)| event_model(q.0, text@)),
            goal == ranges@.map_values(to_int).map_values(to_model),
            goal.len() == ranges@.len(),
            out@.len() == k,
            forall|j: int|
                0 <= j < k ==> (#[trigger] out@[j]).0 as int == goal[j].0
                    && crate::log_item::item_obeys(out@[j].1, goal[j].1),
        decreases ranges@.len() - k,
    {
        let pos = ranges[k].0;
        let content = text.to_owned();
        let raw = text.to_owned();
        let item = crate::log_item::LogItem::with_time(String::new(), content, raw);
        proof {
            crate::log_item::lemma_meta_get_empty("level"@);
            crate::log_item::lemma_meta_get_empty("origin"@);
            crate::log_item::lemma_meta_get_empty("tag"@);
            assert(goal[k as int] == to_model(to_int(ranges@[k as int])));
            assert(goal[k as int].0 == ranges@[k as int].0 as int);
            assert(crate::log_item::item_obeys(item, goal[k as int].1));
        }
        out.push((pos, item));
        k = k + 1;
    }
    out
}

/// Merge two position-ordered entry lists, the left one first on ties.
pub open spec fn merge_pos(
    a: Seq<(int, crate::log_item::ItemModel)>,
    b: Seq<(int, crate::log_item::ItemModel)>,
) -> Seq<(int, crate::log_item::ItemModel)>
    decreases a.len() + b.len(),
{
    if a.len() == 0 {
        b
    } else if b.len() == 0 {
        a
    } else if a[0].0 <= b[0].0 {
        seq![a[0]] + merge_pos(a.drop_first(), b)
    } else {
        seq![b[0]] + merge_pos(a, b.drop_first())
    }
}

proof fn lemma_merge_pos_empty_right(
    a: Seq<(int, crate::log_item::ItemModel)>,
    b: Seq<(int, crate::log_item::ItemModel)>,
)
    requires
        b.len() == 0,
    ensures
        merge_pos(a, b) == a,
{
    if a.len() == 0 {
        assert(merge_pos(a, b) == b);
        assert(a =~= b);
    }
}

fn merge_positioned(
    a: Vec<(usize, crate::log_item::LogItem)>,
    b: Vec<(usize, crate::log_item::LogItem)>,
    Ghost(am): Ghost<Seq<(int, crate::log_item::ItemModel)>>,
    Ghost(bm): Ghost<Seq<(int, crate::log_item::ItemModel)>>,
) -> (r: Vec<(usize, crate::log_item::LogItem)>)
    requires
        positioned_obey(a@, am),
        positioned_obey(b@, bm),
    ensures
        positioned_obey(r@, merge_pos(am, bm)),
{
    let ghost goal = merge_pos(am, bm);
    let mut out: Vec<(usize, crate::log_item::LogItem)> = Vec::new();
    let mut i: usize = 0;
    let mut j: usize = 0;
    proof {
        lemma_merge_pos_len(am, bm);
        assert(am.skip(0) =~= am);
        assert(bm.skip(0) =~= bm);
    }
    while i < a.len() || j < b.len()
        invariant
            0 <= i <= a@.len(),
            0 <= j <= b@.len(),
            positioned_obey(a@, am),
            positioned_obey(b@, bm),
            goal == merge_pos(am, bm),
            goal.len() == am.len() + bm.len(),
            out@.len() == i + j,
            merge_pos(am.skip(i as int), bm.skip(j as int)) == goal.skip(out@.len() as int),
            forall|q: int|
                0 <= q < out@.len() ==> (#[trigger] out@[q]).0 as int == goal[q].0
                    && crate::log_item::item_obeys(out@[q].1, goal[q].1),
        decreases a@.len() - i + b@.len() - j,
    {
        let ghost n = out@.len() as int;
        let ghost ai = am.skip(i as int);
        let ghost bj = bm.skip(j as int);
        let take_a: bool;
        if i < a.len() && j < b.len() {
            take_a = a[i].0 <= b[j].0;
            proof {
                assert(a@[i as int].0 as int == am[i as int].0);
                assert(b@[j as int].0 as int == bm[j as int].0);
                assert(ai[0] == am[i as int]);
                assert(bj[0] == bm[j as int]);
            }
        } else if i < a.len() {
            take_a = true;
            proof {
                assert(bj.len() == 0);
                assert(ai[0] == am[i as int]);
            }
        } else {
            take_a = false;
            proof {
                assert(ai.len() == 0);
                assert(bj[0] == bm[j as int]);
            }
        }
        if take_a {
            proof {
                if bj.len() == 0 {
                    lemma_merge_pos_empty_right(ai, bj);
                    assert(merge_pos(ai, bj) == ai);
                } else {
                    assert(merge_pos(ai, bj) == seq![ai[0]] + merge_pos(ai.drop_first(), bj));
                }
                assert(merge_pos(ai, bj)[0] == ai[0]);
                assert(goal.skip(n)[0] == goal[n]);
                assert(goal[n] == am[i as int]);
                assert(ai.drop_first() =~= am.skip(i + 1 as int));
                if bj.len() == 0 {
                    assert(merge_pos(am.skip(i + 1 as int), bj) =~= am.skip(i + 1 as int));
                    assert(ai.drop_first() =~= goal.skip(n).drop_first());
                } else {
                    assert((seq![ai[0]] + merge_pos(ai.drop_first(), bj)).drop_first()
                        =~= merge_pos(ai.drop_first(), bj));
                }
                assert(merge_pos(am.skip(i + 1 as int), bm.skip(j as int)) =~= goal.skip(n).drop_first());
                assert(goal.skip(n).drop_first() =~= goal.skip(n + 1));
            }
            let pair = (a[i].0, a[i].1.clone_item());
            proof {
                assert(pair.0 as int == goal[n].0);
                assert(crate::log_item::item_obeys(pair.1, goal[n].1));
            }
            out.push(pair);
            i = i + 1;
        } else {
            proof {
                if ai.len() == 0 {
                    assert(merge_pos(ai, bj) == bj);
                } else {
                    assert(merge_pos(ai, bj) == seq![bj[0]] + merge_pos(ai, bj.drop_first()));
                }
                assert(merge_pos(ai, bj)[0] == bj[0]);
                assert(goal.skip(n)[0] == goal[n]);
                assert(goal[n] == bm[j as int]);
                assert(bj.drop_first() =~= bm.skip(j + 1 as int));
                if ai.len() == 0 {
                    assert(merge_pos(ai, bm.skip(j + 1 as int)) =~= bm.skip(j + 1 as int));
                    assert(bj.drop_first() =~= goal.skip(n).drop_first());
                } else {
                    assert((seq![bj[0]] + merge_pos(ai, bj.drop_first())).drop_first()
                        =~= merge_pos(ai, bj.drop_first()));
                }
                assert(merge_pos(am.skip(i as int), bm.skip(j + 1 as int)) =~= goal.skip(n).drop_first());
                assert(goal.skip(n).drop_first() =~= goal.skip(n + 1));
            }
            let pair = (b[j].0, b[j].1.clone_item());
            proof {
                assert(pair.0 as int == goal[n].0);
                assert(crate::log_item::item_obeys(pair.1, goal[n].1));
            }
            out.push(pair);
            j = j + 1;
        }
    }
    out
}

proof fn lemma_merge_pos_len(
    a: Seq<(int, crate::log_item::ItemModel)>,
    b: Seq<(int, crate::log_item::ItemModel)>,
)
    ensures
        merge_pos(a, b).len() == a.len() + b.len(),
    decreases a.len() + b.len(),
{
    if a.len() == 0 {
    } else if b.len() == 0 {
    } else if a[0].0 <= b[0].0 {
        lemma_merge_pos_len(a.drop_first(), b);
    } else {
        lemma_merge_pos_len(a, b.drop_first());
    }
}

/// The cleaned body a delta reduces to before segmentation.
pub open spec fn body_view(delta: Seq<char>) -> Seq<char> {
    trim_view(remove_inline_from(strip_leading(delta), 0))
}

/// The reassembler's full result on one delta: positioned models of every
/// entry, special events interleaved with delimiter items by source offset.
pub open spec fn reassembled(delta: Seq<char>) -> Seq<(int, crate::log_item::ItemModel)> {
    let body = body_view(delta);
    if body.len() == 0 {
        Seq::empty()
    } else {
        merge_pos(merge_pos(pause_events(body), resume_events(body)), structured_models(body))
    }
}

fn build_marker_events(body: &Vec<char>) -> (r: (
    Vec<(usize, crate::log_item::LogItem)>,
    Vec<(usize, crate::log_item::LogItem)>,
))
    ensures
        positioned_obey(r.0@, pause_events(body@)),
        positioned_obey(r.1@, resume_events(body@)),
{
    let ghost to_int = |m: (usize, usize)| (m.0 as int, m.1 as int);
    let pm = find_pause_matches(body);
    proof {
        lemma_pause_matches_props(body@, 0);
        assert forall|k: int| 0 <= k < pm@.len() implies (#[trigger] pm@[k]).0 <= body@.len()
            && pm@[k].1 <= body@.len() by {
            assert(pm@.map_values(to_int)[k] == to_int(pm@[k]));
            assert(0 <= (pause_matches_from(body@, 0)[k]).0 < pause_matches_from(body@, 0)[k].1
                <= body@.len());
        }
    }
    let pe = expand_lines_exec(body, &pm);
    let pmg = merge_touching_exec(&pe);
    let pause_items = build_event_items(&pmg, "DYEH PAUSED");
    proof {
        assert(pmg@.map_values(to_int) == merge_touching(expand_lines(
            body@,
            pause_matches_from(body@, 0),
        )));
    }
    let rm = find_resume_matches(body);
    proof {
        lemma_resume_matches_props(body@, 0);
        assert forall|k: int| 0 <= k < rm@.len() implies (#[trigger] rm@[k]).0 <= body@.len()
            && rm@[k].1 <= body@.len() by {
            assert(rm@.map_values(to_int)[k] == to_int(rm@[k]));
            assert(0 <= (resume_matches_from(body@, 0)[k]).0 < resume_matches_from(body@, 0)[k].1
                <= body@.len());
        }
    }
    let re = expand_lines_exec(body, &rm);
    let rmg = merge_touching_exec(&re);
    let resume_items = build_event_items(&rmg, "DYEH RESUMED");
    proof {
        assert(rmg@.map_values(to_int) == merge_touching(expand_lines(
            body@,
            resume_matches_from(body@, 0),
        )));
    }
    (pause_items, resume_items)
}

/// Turn one delta into its ordered entries: wrapper noise removed, items
/// carved at delimiters and split into fields, lifecycle markers merged and
/// interleaved at their source offsets.  A body without structured content
/// or markers yields no entries.
pub fn process_delta(delta: &str) -> (r: Vec<crate::log_item::LogItem>)
    ensures
        r@.len() == reassembled(delta@).len(),
        forall|i: int|
            0 <= i < r@.len() ==> crate::log_item::item_obeys(
                #[trigger] r@[i],
                reassembled(delta@)[i].1,
            ),
{
    let v = str_chars(delta);
    let start: usize = match hdr_scan(&v, 0) {
        Some(e) => e,
        None => 0,
    };
    let stripped = sub_chars(&v, start, v.len());
    proof {
        assert(stripped@ =~= strip_leading(delta@));
    }
    let removed = remove_inline_chars(&stripped);
    let body = trim_chars(&removed);
    proof {
        assert(body@ == body_view(delta@));
    }
    if body.len() == 0 {
        let empty_out: Vec<crate::log_item::LogItem> = Vec::new();
        return empty_out;
    }
    let events = build_marker_events(&body);
    let merged_events = merge_positioned(
        events.0,
        events.1,
        Ghost(pause_events(body@)),
        Ghost(resume_events(body@)),
    );
    let structured = build_structured(&body);
    let mut all = merge_positioned(
        merged_events,
        structured,
        Ghost(merge_pos(pause_events(body@), resume_events(body@))),
        Ghost(structured_models(body@)),
    );
    let ghost models = reassembled(delta@);
    let mut out: Vec<crate::log_item::LogItem> = Vec::new();
    let mut k: usize = 0;
    while k < all.len()
        invariant
            0 <= k <= all@.len(),
            positioned_obey(all@, reassembled(delta@)),
            models == reassembled(delta@),
            out@.len() == k,
            forall|j: int|
                0 <= j < k ==> crate::log_item::item_obeys(#[trigger] out@[j], models[j].1),
        decreases all@.len() - k,
    {
        let item = all[k].1.clone_item();
        out.push(item);
        k = k + 1;
    }
    out
}

/// Positioned entries stand in non-decreasing source-offset order.
pub open spec fn pos_sorted(ms: Seq<(int, crate::log_item::ItemModel)>) -> bool {
    forall|p: int, q: int| 0 <= p < q < ms.len() ==> (#[trigger] ms[p]).0 <= (#[trigger] ms[q]).0
}

/// Ranges stand in non-decreasing start order.
pub open spec fn rng_sorted(rs: Seq<(int, int)>) -> bool {
    forall|p: int, q: int| 0 <= p < q < rs.len() ==> (#[trigger] rs[p]).0 <= (#[trigger] rs[q]).0
}

proof fn lemma_merge_touching_sorted(rs: Seq<(int, int)>)
    requires
        rng_sorted(rs),
    ensures
        rng_sorted(merge_touching(rs)),
        forall|k: int|
            0 <= k < merge_touching(rs).len() ==> rs.len() > 0 && (#[trigger] merge_touching(
                rs,
            )[k]).0 >= rs[0].0,
    decreases rs.len(),
{
    let m = merge_touching(rs);
    if rs.len() <= 1 {
    } else if rs[1].0 <= rs[0].1 + 1 {
        let joined = (
            rs[0].0,
            if rs[0].1 >= rs[1].1 {
                rs[0].1
            } else {
                rs[1].1
            },
        );
        let modified = seq![joined] + rs.skip(2);
        assert forall|p: int, q: int| 0 <= p < q < modified.len() implies (#[trigger] modified[p]).0
            <= (#[trigger] modified[q]).0 by {
            if p == 0 {
                assert(modified[0].0 == rs[0].0);
                assert(modified[q] == rs[q + 1]);
                assert(rs[0].0 <= rs[q + 1].0);
            } else {
                assert(modified[p] == rs[p + 1]);
                assert(modified[q] == rs[q + 1]);
                assert(rs[p + 1].0 <= rs[q + 1].0);
            }
        }
        lemma_merge_touching_sorted(modified);
        assert(m == merge_touching(modified));
        assert(modified[0].0 == rs[0].0);
    } else {
        let rest = rs.drop_first();
        assert forall|p: int, q: int| 0 <= p < q < rest.len() implies (#[trigger] rest[p]).0
            <= (#[trigger] rest[q]).0 by {
            assert(rest[p] == rs[p + 1]);
            assert(rest[q] == rs[q + 1]);
            assert(rs[p + 1].0 <= rs[q + 1].0);
        }
        lemma_merge_touching_sorted(rest);
        assert(m == seq![rs[0]] + merge_touching(rest));
        assert forall|p: int, q: int| 0 <= p < q < m.len() implies (#[trigger] m[p]).0
            <= (#[trigger] m[q]).0 by {
            if p == 0 {
                assert(m[0] == rs[0]);
                assert(m[q] == merge_touching(rest)[q - 1]);
                assert(merge_touching(rest)[q - 1].0 >= rest[0].0);
                assert(rest[0] == rs[1]);
                assert(rs[0].0 <= rs[1].0);
            } else {
                assert(m[p] == merge_touching(rest)[p - 1]);
                assert(m[q] == merge_touching(rest)[q - 1]);
            }
        }
        assert forall|k: int| 0 <= k < m.len() implies (#[trigger] m[k]).0 >= rs[0].0 by {
            if k > 0 {
                assert(m[k] == merge_touching(rest)[k - 1]);
                assert(merge_touching(rest)[k - 1].0 >= rest[0].0);
                assert(rest[0] == rs[1]);
            }
        }
    }
}

/// The least position either list starts with; a floor for the merge.
spec fn merge_heads_floor(
    a: Seq<(int, crate::log_item::ItemModel)>,
    b: Seq<(int, crate::log_item::ItemModel)>,
) -> int {
    if a.len() > 0 && b.len() > 0 {
        if a[0].0 <= b[0].0 {
            a[0].0
        } else {
            b[0].0
        }
    } else if a.len() > 0 {
        a[0].0
    } else if b.len() > 0 {
        b[0].0
    } else {
        0
    }
}

proof fn lemma_merge_pos_sorted(
    a: Seq<(int, crate::log_item::ItemModel)>,
    b: Seq<(int, crate::log_item::ItemModel)>,
)
    requires
        pos_sorted(a),
        pos_sorted(b),
    ensures
        pos_sorted(merge_pos(a, b)),
        forall|k: int|
            0 <= k < merge_pos(a, b).len() ==> (#[trigger] merge_pos(a, b)[k]).0
                >= merge_heads_floor(a, b),
    decreases a.len() + b.len(),
{
    let m = merge_pos(a, b);
    if a.len() == 0 || b.len() == 0 {
    } else {
        if a[0].0 <= b[0].0 {
            let rest = a.drop_first();
            assert forall|p: int, q: int| 0 <= p < q < rest.len() implies (#[trigger] rest[p]).0
                <= (#[trigger] rest[q]).0 by {
                assert(rest[p] == a[p + 1]);
                assert(rest[q] == a[q + 1]);
                assert(a[p + 1].0 <= a[q + 1].0);
            }
            lemma_merge_pos_sorted(rest, b);
            assert(m == seq![a[0]] + merge_pos(rest, b));
            assert(rest.len() > 0 ==> rest[0] == a[1] && a[0].0 <= a[1].0);
            assert(merge_heads_floor(rest, b) >= a[0].0);
            assert forall|p: int, q: int| 0 <= p < q < m.len() implies (#[trigger] m[p]).0
                <= (#[trigger] m[q]).0 by {
                if p == 0 {
                    assert(m[0] == a[0]);
                    assert(m[q] == merge_pos(rest, b)[q - 1]);
                    assert(merge_pos(rest, b)[q - 1].0 >= merge_heads_floor(rest, b));
                } else {
                    assert(m[p] == merge_pos(rest, b)[p - 1]);
                    assert(m[q] == merge_pos(rest, b)[q - 1]);
                }
            }
            assert forall|k: int| 0 <= k < m.len() implies (#[trigger] m[k]).0 >= merge_heads_floor(
                a,
                b,
            ) by {
                if k > 0 {
                    assert(m[k] == merge_pos(rest, b)[k - 1]);
                    assert(merge_pos(rest, b)[k - 1].0 >= merge_heads_floor(rest, b));
                }
            }
        } else {
            let rest = b.drop_first();
            assert forall|p: int, q: int| 0 <= p < q < rest.len() implies (#[trigger] rest[p]).0
                <= (#[trigger] rest[q]).0 by {
                assert(rest[p] == b[p + 1]);
                assert(rest[q] == b[q + 1]);
                assert(b[p + 1].0 <= b[q + 1].0);
            }
            lemma_merge_pos_sorted(a, rest);
            assert(m == seq![b[0]] + merge_pos(a, rest));
            assert(rest.len() > 0 ==> rest[0] == b[1] && b[0].0 <= b[1].0);
            assert(merge_heads_floor(a, rest) >= b[0].0);
            assert forall|p: int, q: int| 0 <= p < q < m.len() implies (#[trigger] m[p]).0
                <= (#[trigger] m[q]).0 by {
                if p == 0 {
                    assert(m[0] == b[0]);
                    assert(m[q] == merge_pos(a, rest)[q - 1]);
                    assert(merge_pos(a, rest)[q - 1].0 >= merge_heads_floor(a, rest));
                } else {
                    assert(m[p] == merge_pos(a, rest)[p - 1]);
                    assert(m[q] == merge_pos(a, rest)[q - 1]);
                }
            }
            assert forall|k: int| 0 <= k < m.len() implies (#[trigger] m[k]).0 >= merge_heads_floor(
                a,
                b,
            ) by {
                if k > 0 {
                    assert(m[k] == merge_pos(a, rest)[k - 1]);
                    assert(merge_pos(a, rest)[k - 1].0 >= merge_heads_floor(a, rest));
                }
            }
        }
    }
}

proof fn lemma_matches_rng_sorted(s: Seq<char>, ms: Seq<(int, int)>)
    requires
        forall|k: int| 0 <= k < ms.len() ==> 0 <= (#[trigger] ms[k]).0 < ms[k].1 <= s.len(),
        forall|k: int| 0 <= k < ms.len() - 1 ==> (#[trigger] ms[k]).1 <= ms[k + 1].0,
    ensures
        rng_sorted(expand_lines(s, ms)),
{
    let ex = expand_lines(s, ms);
    assert forall|p: int, q: int| 0 <= p < q < ex.len() implies (#[trigger] ex[p]).0
        <= (#[trigger] ex[q]).0 by {
        lemma_matches_start_chain(ms, p, q);
        assert(ex[p] == (line_start(s, ms[p].0), line_end(s, ms[p].1)));
        assert(ex[q] == (line_start(s, ms[q].0), line_end(s, ms[q].1)));
        lemma_line_start_mono(s, ms[p].0, ms[q].0);
    }
}

proof fn lemma_matches_start_chain(ms: Seq<(int, int)>, p: int, q: int)
    requires
        forall|k: int| 0 <= k < ms.len() ==> 0 <= (#[trigger] ms[k]).0 < ms[k].1,
        forall|k: int| 0 <= k < ms.len() - 1 ==> (#[trigger] ms[k]).1 <= ms[k + 1].0,
        0 <= p <= q < ms.len(),
    ensures
        ms[p].0 <= ms[q].0,
    decreases q - p,
{
    if p < q {
        lemma_matches_start_chain(ms, p, q - 1);
        assert(ms[q - 1].1 <= ms[q].0);
    }
}

proof fn lemma_map_preserves_pos_sorted(rs: Seq<(int, int)>, txt: Seq<char>)
    requires
        rng_sorted(rs),
    ensures
        pos_sorted(rs.map_values(|r: (int, int)| event_model(r.0, txt))),
{
    let ms = rs.map_values(|r: (int, int)| event_model(r.0, txt));
    assert forall|p: int, q: int| 0 <= p < q < ms.len() implies (#[trigger] ms[p]).0
        <= (#[trigger] ms[q]).0 by {
        assert(ms[p].0 == rs[p].0);
        assert(ms[q].0 == rs[q].0);
    }
}

proof fn lemma_structured_sorted(s: Seq<char>)
    ensures
        pos_sorted(structured_models(s)),
{
    lemma_delim_starts_props(s, 0);
    let starts = delim_starts(s);
    let ms = structured_models(s);
    assert forall|p: int, q: int| 0 <= p < q < ms.len() implies (#[trigger] ms[p]).0
        <= (#[trigger] ms[q]).0 by {
        assert(ms[p].0 == starts[p]);
        assert(ms[q].0 == starts[q]);
        lemma_starts_chain(s, p, q);
    }
}

proof fn lemma_starts_chain(s: Seq<char>, p: int, q: int)
    requires
        0 <= p <= q < delim_starts(s).len(),
    ensures
        delim_starts(s)[p] <= delim_starts(s)[q],
    decreases q - p,
{
    if p < q {
        lemma_starts_chain(s, p, q - 1);
        lemma_delim_starts_props(s, 0);
        assert(delim_starts_from(s, 0)[q - 1] + 22 <= delim_starts_from(s, 0)[q]);
    }
}

proof fn lemma_pause_events_sorted(s: Seq<char>)
    ensures
        pos_sorted(pause_events(s)),
{
    lemma_pause_matches_props(s, 0);
    lemma_matches_rng_sorted(s, pause_matches_from(s, 0));
    lemma_merge_touching_sorted(expand_lines(s, pause_matches_from(s, 0)));
    lemma_map_preserves_pos_sorted(
        merge_touching(expand_lines(s, pause_matches_from(s, 0))),
        "DYEH PAUSED"@,
    );
}

proof fn lemma_resume_events_sorted(s: Seq<char>)
    ensures
        pos_sorted(resume_events(s)),
{
    lemma_resume_matches_props(s, 0);
    lemma_matches_rng_sorted(s, resume_matches_from(s, 0));
    lemma_merge_touching_sorted(expand_lines(s, resume_matches_from(s, 0)));
    lemma_map_preserves_pos_sorted(
        merge_touching(expand_lines(s, resume_matches_from(s, 0))),
        "DYEH RESUMED"@,
    );
}

/// Segmentation ordering: the reassembler's entries, delimiter items and
/// synthetic lifecycle events alike, appear in non-decreasing order of the
/// source offset they were derived from, for every delta.
pub proof fn lemma_reassembled_ordered(delta: Seq<char>)
    ensures
        pos_sorted(reassembled(delta)),
{
    let body = body_view(delta);
    if body.len() > 0 {
        lemma_pause_events_sorted(body);
        lemma_resume_events_sorted(body);
        lemma_structured_sorted(body);
        lemma_merge_pos_sorted(pause_events(body), resume_events(body));
        lemma_merge_pos_sorted(
            merge_pos(pause_events(body), resume_events(body)),
            structured_models(body),
        );
    }
}

/// Special-event merging: two marker ranges on overlapping or adjacent
/// lines collapse into exactly one range, so they yield one synthetic entry
/// rather than two.
pub proof fn lemma_touching_ranges_merge(r1: (int, int), r2: (int, int))
    requires
        r1.0 <= r2.0,
        r2.0 <= r1.1 + 1,
    ensures
        merge_touching(seq![r1, r2]) == seq![
            (
                r1.0,
                if r1.1 >= r2.1 {
                    r1.1
                } else {
                    r2.1
                },
            ),
        ],
{
    let rs = seq![r1, r2];
    assert(rs[0] == r1);
    assert(rs[1] == r2);
    let joined = (
        r1.0,
        if r1.1 >= r2.1 {
            r1.1
        } else {
            r2.1
        },
    );
    assert(merge_touching(rs) == merge_touching(seq![joined] + rs.skip(2)));
    assert(seq![joined] + rs.skip(2) =~= seq![joined]);
    assert(merge_touching(seq![joined]) == seq![joined]);
}

} // verus!
