//! Turning entry content into display lines: ANSI escapes and stray control
//! characters are removed, then the text is wrapped at a column width,
//! split at newlines, or truncated to a single line with an ellipsis.

use vstd::prelude::*;

use crate::text::is_ctrl_c;
use crate::text::ctrl_char;
use crate::text::str_chars;
use crate::text::chars_string;

verus! {

/// How content is arranged into display lines.
#[derive(Clone, Copy, PartialEq, Eq, Structural, Debug)]
pub enum WrappingMode {
    /// Break at the width, and at newlines.
    Wrapped,
    /// One display line per source line, whatever its length.
    Unwrapped,
    /// Only the first source line, shortened to the width with `..`.
    Truncated,
}

pub open spec fn is_ascii_alpha_c(c: char) -> bool {
    ('a' <= c && c <= 'z') || ('A' <= c && c <= 'Z')
}

fn ascii_alpha_char(c: char) -> (r: bool)
    ensures
        r == is_ascii_alpha_c(c),
{
    ('a' <= c && c <= 'z') || ('A' <= c && c <= 'Z')
}

/// One past the final byte of an ANSI control sequence whose `ESC [` opener
/// ends at `j`: everything up to and including the first ASCII letter.
pub open spec fn csi_end(s: Seq<char>, j: int) -> int
    decreases s.len() - j,
    when 0 <= j <= s.len()
{
    if j >= s.len() {
        j
    } else if is_ascii_alpha_c(s[j]) {
        j + 1
    } else {
        csi_end(s, j + 1)
    }
}

proof fn lemma_csi_end_bounds(s: Seq<char>, j: int)
    requires
        0 <= j <= s.len(),
    ensures
        j <= csi_end(s, j) <= s.len(),
    decreases s.len() - j,
{
    if j < s.len() && !is_ascii_alpha_c(s[j]) {
        lemma_csi_end_bounds(s, j + 1);
    }
}

/// The text from `i` on with ANSI escape sequences and control characters
/// other than newline removed.
pub open spec fn sanitize_from(s: Seq<char>, i: int) -> Seq<char>
    decreases s.len() - i,
    when 0 <= i <= s.len()
    via sanitize_from_decreases
{
    if i >= s.len() {
        Seq::empty()
    } else if s[i] == '\u{1b}' {
        if i + 1 < s.len() && s[i + 1] == '[' {
            sanitize_from(s, csi_end(s, i + 2))
        } else {
            sanitize_from(s, i + 1)
        }
    } else if is_ctrl_c(s[i]) && s[i] != '\n' {
        sanitize_from(s, i + 1)
    } else {
        seq![s[i]] + sanitize_from(s, i + 1)
    }
}

#[via_fn]
proof fn sanitize_from_decreases(s: Seq<char>, i: int) {
    if 0 <= i < s.len() && s[i] == '\u{1b}' && i + 1 < s.len() && s[i + 1] == '[' {
        lemma_csi_end_bounds(s, i + 2);
    }
}

pub open spec fn sanitize_view(s: Seq<char>) -> Seq<char> {
    sanitize_from(s, 0)
}

pub(crate) fn sanitize_chars(v: &Vec<char>) -> (r: Vec<char>)
    ensures
        r@ == sanitize_view(v@),
{
    let mut out: Vec<char> = Vec::new();
    let mut i: usize = 0;
    proof {
        assert(Seq::<char>::empty() + sanitize_from(v@, 0) =~= sanitize_from(v@, 0));
    }
    while i < v.len()
        invariant
            0 <= i <= v@.len(),
            v@.len() == v.len(),
            sanitize_view(v@) == out@ + sanitize_from(v@, i as int),
        decreases v@.len() - i,
    {
        let c = v[i];
        if c == '\u{1b}' {
            if i + 1 < v.len() && v[i + 1] == '[' {
                let mut j: usize = i + 2;
                while j < v.len() && !ascii_alpha_char(v[j])
                    invariant
                        i + 2 <= j <= v@.len(),
                        csi_end(v@, i + 2 as int) == csi_end(v@, j as int),
                    decreases v@.len() - j,
                {
                    j = j + 1;
                }
                if j < v.len() {
                    j = j + 1;
                }
                proof {
                    lemma_csi_end_bounds(v@, i + 2 as int);
                }
                i = j;
            } else {
                i = i + 1;
            }
        } else if ctrl_char(c) && c != '\n' {
            i = i + 1;
        } else {
            out.push(c);
            proof {
                assert(out@ + sanitize_from(v@, i + 1 as int) =~= sanitize_view(v@));
            }
            i = i + 1;
        }
    }
    proof {
        assert(sanitize_from(v@, v@.len() as int) =~= Seq::<char>::empty());
        assert(out@ + Seq::<char>::empty() =~= out@);
    }
    out
}

/// Remove ANSI escape sequences and control characters other than newline.
pub fn sanitize_control_chars(content: &str) -> (r: String)
    ensures
        r@ == sanitize_view(content@),
{
    let v = str_chars(content);
    let clean = sanitize_chars(&v);
    chars_string(&clean)
}

/// Index of the first newline at or after `i`, or the end of the text.
pub open spec fn nl_pos(s: Seq<char>, i: int) -> int
    decreases s.len() - i,
    when 0 <= i <= s.len()
{
    if i >= s.len() {
        i
    } else if s[i] == '\n' {
        i
    } else {
        nl_pos(s, i + 1)
    }
}

pub proof fn lemma_nl_pos_bounds(s: Seq<char>, i: int)
    requires
        0 <= i <= s.len(),
    ensures
        i <= nl_pos(s, i) <= s.len(),
    decreases s.len() - i,
{
    if i < s.len() && s[i] != '\n' {
        lemma_nl_pos_bounds(s, i + 1);
    }
}

/// A line with a trailing carriage return removed, as `str::lines` yields it.
pub open spec fn strip_cr(l: Seq<char>) -> Seq<char> {
    if l.len() > 0 && l.last() == '\r' {
        l.drop_last()
    } else {
        l
    }
}

/// The source lines from `i` on, split at newlines, `\r\n` endings
/// stripped, the final line ending optional.
pub open spec fn split_lines_from(s: Seq<char>, i: int) -> Seq<Seq<char>>
    decreases s.len() - i,
    when 0 <= i <= s.len()
    via split_lines_from_decreases
{
    if i >= s.len() {
        Seq::empty()
    } else {
        let e = nl_pos(s, i);
        let line = strip_cr(s.subrange(i, e));
        if e < s.len() {
            seq![line] + split_lines_from(s, e + 1)
        } else {
            seq![line]
        }
    }
}

#[via_fn]
proof fn split_lines_from_decreases(s: Seq<char>, i: int) {
    if 0 <= i < s.len() {
        lemma_nl_pos_bounds(s, i);
    }
}

pub open spec fn split_lines(s: Seq<char>) -> Seq<Seq<char>> {
    split_lines_from(s, 0)
}

pub(crate) fn split_lines_chars(v: &Vec<char>) -> (r: Vec<Vec<char>>)
    ensures
        r@.map_values(|l: Vec<char>| l@) == split_lines(v@),
{
    let ghost to_view = |l: Vec<char>| l@;
    let mut out: Vec<Vec<char>> = Vec::new();
    let mut i: usize = 0;
    proof {
        assert(out@.map_values(to_view) =~= Seq::<Seq<char>>::empty());
        assert(Seq::<Seq<char>>::empty() + split_lines_from(v@, 0) =~= split_lines_from(v@, 0));
    }
    while i < v.len()
        invariant
            0 <= i <= v@.len(),
            v@.len() == v.len(),
            to_view == (|l: Vec<char>| l@),
            split_lines(v@) == out@.map_values(to_view) + split_lines_from(v@, i as int),
        decreases v@.len() - i,
    {
        let mut e: usize = i;
        while e < v.len() && v[e] != '\n'
            invariant
                i <= e <= v@.len(),
                nl_pos(v@, i as int) == nl_pos(v@, e as int),
            decreases v@.len() - e,
        {
            e = e + 1;
        }
        let mut line = crate::text::sub_chars(v, i, e);
        if line.len() > 0 && line[line.len() - 1] == '\r' {
            let ghost pre = line@;
            let _ = line.pop();
            proof {
                assert(line@ =~= pre.drop_last());
            }
        }
        let ghost pre_out = out@.map_values(to_view);
        out.push(line);
        proof {
            assert(out@.map_values(to_view) =~= pre_out.push(line@));
            assert(line@ == strip_cr(v@.subrange(i as int, e as int)));
            if e < v.len() {
                assert(pre_out.push(line@) + split_lines_from(v@, e + 1 as int) =~= pre_out + (seq![
                    line@,
                ] + split_lines_from(v@, e + 1 as int)));
            } else {
                assert(split_lines_from(v@, i as int) =~= seq![line@]);
                assert(pre_out.push(line@) =~= pre_out + seq![line@]);
                assert(split_lines_from(v@, v@.len() as int) =~= Seq::<Seq<char>>::empty());
                assert(pre_out.push(line@) + Seq::<Seq<char>>::empty() =~= pre_out.push(line@));
            }
        }
        if e < v.len() {
            i = e + 1;
        } else {
            i = e;
            proof {
                assert(split_lines_from(v@, i as int) =~= Seq::<Seq<char>>::empty());
            }
            return out;
        }
    }
    proof {
        assert(split_lines_from(v@, v@.len() as int) =~= Seq::<Seq<char>>::empty());
        assert(out@.map_values(to_view) + Seq::<Seq<char>>::empty() =~= out@.map_values(to_view));
    }
    out
}

/// The longest line's character count.
pub open spec fn max_line_len(ls: Seq<Seq<char>>) -> int
    decreases ls.len(),
{
    if ls.len() == 0 {
        0
    } else {
        let rest = max_line_len(ls.drop_first());
        if ls[0].len() >= rest {
            ls[0].len() as int
        } else {
            rest
        }
    }
}

/// Width of the widest source line of the sanitized content.
pub open spec fn spec_content_width(s: Seq<char>) -> int {
    max_line_len(split_lines(sanitize_view(s)))
}

/// The widest line of the content after sanitizing, in characters; the
/// scrollable width of the entry.
pub fn calculate_content_width(content: &str) -> (r: usize)
    ensures
        r == spec_content_width(content@),
{
    let v = str_chars(content);
    let clean = sanitize_chars(&v);
    let lines = split_lines_chars(&clean);
    let ghost to_view = |l: Vec<char>| l@;
    let ghost lviews = lines@.map_values(to_view);
    let mut best: usize = 0;
    let mut k: usize = 0;
    proof {
        assert(lviews.skip(0) =~= lviews);
    }
    while k < lines.len()
        invariant
            0 <= k <= lines@.len(),
            to_view == (|l: Vec<char>| l@),
            lviews == lines@.map_values(to_view),
            max_line_len(lviews) == ({
                let rest = max_line_len(lviews.skip(k as int));
                if best >= rest {
                    best as int
                } else {
                    rest
                }
            }),
        decreases lines@.len() - k,
    {
        proof {
            assert(lviews.skip(k as int)[0] == lviews[k as int]);
            assert(lviews[k as int] == lines@[k as int]@);
            assert(lviews.skip(k as int).drop_first() =~= lviews.skip(k + 1 as int));
        }
        if lines[k].len() > best {
            best = lines[k].len();
        }
        k = k + 1;
    }
    proof {
        assert(lviews.skip(lviews.len() as int) =~= Seq::<Seq<char>>::empty());
    }
    best
}

/// The wrapped lines of the text from `i` on, with `cur` the partial line
/// accumulated so far: lines break at newlines and at the column width.
pub open spec fn wrap_from(s: Seq<char>, i: int, cur: Seq<char>, width: int) -> Seq<Seq<char>>
    decreases s.len() - i,
    when 0 <= i <= s.len()
{
    if i >= s.len() {
        if cur.len() > 0 {
            seq![cur]
        } else {
            Seq::empty()
        }
    } else if s[i] == '\n' {
        seq![cur] + wrap_from(s, i + 1, Seq::empty(), width)
    } else {
        let cur2 = cur.push(s[i]);
        if cur2.len() == width {
            seq![cur2] + wrap_from(s, i + 1, Seq::empty(), width)
        } else {
            wrap_from(s, i + 1, cur2, width)
        }
    }
}

/// The display lines of content wrapped at `width`; zero width yields none.
pub open spec fn wrap_lines(s: Seq<char>, width: int) -> Seq<Seq<char>> {
    if width == 0 {
        Seq::empty()
    } else {
        wrap_from(s, 0, Seq::empty(), width)
    }
}

pub(crate) fn wrap_chars(v: &Vec<char>, width: u16) -> (r: Vec<Vec<char>>)
    ensures
        r@.map_values(|l: Vec<char>| l@) == wrap_lines(v@, width as int),
{
    let ghost to_view = |l: Vec<char>| l@;
    let mut out: Vec<Vec<char>> = Vec::new();
    if width == 0 {
        proof {
            assert(out@.map_values(to_view) =~= Seq::<Seq<char>>::empty());
        }
        return out;
    }
    let w: usize = width as usize;
    let mut cur: Vec<char> = Vec::new();
    let mut i: usize = 0;
    proof {
        assert(out@.map_values(to_view) =~= Seq::<Seq<char>>::empty());
        assert(Seq::<Seq<char>>::empty() + wrap_from(v@, 0, Seq::empty(), width as int)
            =~= wrap_from(v@, 0, Seq::empty(), width as int));
        assert(cur@ =~= Seq::<char>::empty());
    }
    while i < v.len()
        invariant
            0 <= i <= v@.len(),
            v@.len() == v.len(),
            w == width as int,
            w >= 1,
            to_view == (|l: Vec<char>| l@),
            wrap_lines(v@, width as int) == out@.map_values(to_view) + wrap_from(
                v@,
                i as int,
                cur@,
                width as int,
            ),
        decreases v@.len() - i,
    {
        let c = v[i];
        if c == '\n' {
            let ghost pre_out = out@.map_values(to_view);
            let ghost pre_cur = cur@;
            let done = cur;
            cur = Vec::new();
            out.push(done);
            proof {
                assert(out@.map_values(to_view) =~= pre_out.push(pre_cur));
                assert(cur@ =~= Seq::<char>::empty());
                assert(pre_out.push(pre_cur) + wrap_from(v@, i + 1 as int, Seq::empty(), width as int)
                    =~= pre_out + (seq![pre_cur] + wrap_from(
                    v@,
                    i + 1 as int,
                    Seq::empty(),
                    width as int,
                )));
            }
        } else {
            cur.push(c);
            if cur.len() == w {
                let ghost pre_out = out@.map_values(to_view);
                let ghost pre_cur = cur@;
                let done = cur;
                cur = Vec::new();
                out.push(done);
                proof {
                    assert(out@.map_values(to_view) =~= pre_out.push(pre_cur));
                    assert(cur@ =~= Seq::<char>::empty());
                    assert(pre_out.push(pre_cur) + wrap_from(
                        v@,
                        i + 1 as int,
                        Seq::empty(),
                        width as int,
                    ) =~= pre_out + (seq![pre_cur] + wrap_from(
                        v@,
                        i + 1 as int,
                        Seq::empty(),
                        width as int,
                    )));
                }
            }
        }
        i = i + 1;
    }
    if cur.len() > 0 {
        let ghost pre_out = out@.map_values(to_view);
        let ghost pre_cur = cur@;
        out.push(cur);
        proof {
            assert(out@.map_values(to_view) =~= pre_out.push(pre_cur));
            assert(wrap_from(v@, v@.len() as int, pre_cur, width as int) =~= seq![pre_cur]);
            assert(pre_out.push(pre_cur) =~= pre_out + seq![pre_cur]);
        }
    } else {
        proof {
            assert(wrap_from(v@, v@.len() as int, cur@, width as int) =~= Seq::<Seq<char>>::empty());
            assert(out@.map_values(to_view) + Seq::<Seq<char>>::empty() =~= out@.map_values(
                to_view,
            ));
        }
    }
    out
}

/// Content wrapped into display lines at the given width.
pub fn wrap_content_to_lines(content: &str, width: u16) -> (r: Vec<String>)
    ensures
        r@.map_values(|l: String| l@) == wrap_lines(content@, width as int),
{
    let v = str_chars(content);
    let lines = wrap_chars(&v, width);
    vecs_to_strings(lines)
}

fn vecs_to_strings(lines: Vec<Vec<char>>) -> (r: Vec<String>)
    ensures
        r@.map_values(|l: String| l@) == lines@.map_values(|l: Vec<char>| l@),
{
    let ghost sview = |l: String| l@;
    let ghost vview = |l: Vec<char>| l@;
    let mut out: Vec<String> = Vec::new();
    let mut k: usize = 0;
    while k < lines.len()
        invariant
            0 <= k <= lines@.len(),
            sview == (|l: String| l@),
            vview == (|l: Vec<char>| l@),
            out@.len() == k,
            forall|j: int| 0 <= j < k ==> sview(#[trigger] out@[j]) == vview(lines@[j]),
        decreases lines@.len() - k,
    {
        out.push(chars_string(&lines[k]));
        k = k + 1;
    }
    proof {
        assert forall|j: int| 0 <= j < out@.len() implies out@.map_values(sview)[j]
            == lines@.map_values(vview)[j] by {
            assert(out@.map_values(sview)[j] == sview(out@[j]));
            assert(lines@.map_values(vview)[j] == vview(lines@[j]));
        }
        assert(out@.map_values(sview) =~= lines@.map_values(vview));
    }
    out
}

/// The single truncated display line: the first source line, shortened to
/// the width with a trailing `..` when it does not fit.
pub open spec fn spec_truncate(s: Seq<char>, width: int) -> Seq<char> {
    if width == 0 {
        Seq::empty()
    } else {
        let first = if split_lines(s).len() > 0 {
            split_lines(s)[0]
        } else {
            Seq::empty()
        };
        if first.len() <= width {
            first
        } else {
            first.take(
                if width >= 2 {
                    width - 2
                } else {
                    0
                },
            ) + seq!['.', '.']
        }
    }
}

fn truncate_chars(v: &Vec<char>, width: u16) -> (r: Vec<char>)
    ensures
        r@ == spec_truncate(v@, width as int),
{
    let mut out: Vec<char> = Vec::new();
    if width == 0 {
        proof {
            assert(out@ =~= spec_truncate(v@, width as int));
        }
        return out;
    }
    let lines = split_lines_chars(v);
    let ghost to_view = |l: Vec<char>| l@;
    let first: Vec<char> = if lines.len() > 0 {
        proof {
            assert(lines@.map_values(to_view)[0] == lines@[0]@);
        }
        crate::text::sub_chars(&lines[0], 0, lines[0].len())
    } else {
        Vec::new()
    };
    proof {
        if lines@.len() > 0 {
            assert(first@ =~= split_lines(v@)[0]);
        } else {
            assert(first@ =~= Seq::<char>::empty());
        }
    }
    let w: usize = width as usize;
    if first.len() <= w {
        first
    } else {
        let keep: usize = if w >= 2 {
            w - 2
        } else {
            0
        };
        let mut short = crate::text::sub_chars(&first, 0, keep);
        short.push('.');
        short.push('.');
        proof {
            assert(first@.subrange(0, keep as int) =~= first@.take(keep as int));
            assert(first@.take(keep as int).push('.').push('.') =~= first@.take(keep as int)
                + seq!['.', '.']);
        }
        short
    }
}

/// The display lines of an entry's content: sanitized, then arranged by the
/// wrapping mode.
pub open spec fn spec_content_lines(s: Seq<char>, width: int, mode: WrappingMode) -> Seq<Seq<char>> {
    let clean = sanitize_view(s);
    match mode {
        WrappingMode::Wrapped => wrap_lines(clean, width),
        WrappingMode::Unwrapped => split_lines(clean),
        WrappingMode::Truncated => seq![spec_truncate(clean, width)],
    }
}

/// Arrange content into display lines: sanitize, then wrap, split or
/// truncate according to the mode.
pub fn content_into_lines(content: &str, width: u16, wrapping_mode: WrappingMode) -> (r: Vec<String>)
    ensures
        r@.map_values(|l: String| l@) == spec_content_lines(content@, width as int, wrapping_mode),
{
    let v = str_chars(content);
    let clean = sanitize_chars(&v);
    match wrapping_mode {
        WrappingMode::Wrapped => vecs_to_strings(wrap_chars(&clean, width)),
        WrappingMode::Unwrapped => vecs_to_strings(split_lines_chars(&clean)),
        WrappingMode::Truncated => {
            let line = truncate_chars(&clean, width);
            let mut out: Vec<String> = Vec::new();
            out.push(chars_string(&line));
            proof {
                assert(out@.map_values(|l: String| l@) =~= seq![
                    spec_truncate(sanitize_view(content@), width as int),
                ]);
            }
            out
        },
    }
}

} // verus!
