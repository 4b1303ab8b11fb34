//! Character classes, trimming, substring search and lower-casing over
//! sequences of characters.  Exec code works on `Vec<char>`; contracts speak
//! of `Seq<char>`, the view that `str` and `String` share.

use vstd::prelude::*;

verus! {

/// ASCII decimal digit.
pub open spec fn is_digit_c(c: char) -> bool {
    '0' <= c && c <= '9'
}

/// ASCII uppercase letter.
pub open spec fn is_upper_c(c: char) -> bool {
    'A' <= c && c <= 'Z'
}

/// Word character as the block headers use it: ASCII letter, digit or underscore.
pub open spec fn is_word_c(c: char) -> bool {
    is_digit_c(c) || is_upper_c(c) || ('a' <= c && c <= 'z') || c == '_'
}

/// The Unicode `White_Space` code points, the set `char::is_whitespace` tests.
pub open spec fn is_wsp_c(c: char) -> bool {
    ||| ('\u{0009}' <= c && c <= '\u{000d}')
    ||| c == ' '
    ||| c == '\u{0085}'
    ||| c == '\u{00a0}'
    ||| c == '\u{1680}'
    ||| ('\u{2000}' <= c && c <= '\u{200a}')
    ||| c == '\u{2028}'
    ||| c == '\u{2029}'
    ||| c == '\u{202f}'
    ||| c == '\u{205f}'
    ||| c == '\u{3000}'
}

/// The Unicode `Cc` (control) code points, the set `char::is_control` tests.
pub open spec fn is_ctrl_c(c: char) -> bool {
    c <= '\u{001f}' || ('\u{007f}' <= c && c <= '\u{009f}')
}

pub fn digit_char(c: char) -> (r: bool)
    ensures
        r == is_digit_c(c),
{
    '0' <= c && c <= '9'
}

pub fn upper_char(c: char) -> (r: bool)
    ensures
        r == is_upper_c(c),
{
    'A' <= c && c <= 'Z'
}

pub fn word_char(c: char) -> (r: bool)
    ensures
        r == is_word_c(c),
{
    digit_char(c) || upper_char(c) || ('a' <= c && c <= 'z') || c == '_'
}

pub fn wsp_char(c: char) -> (r: bool)
    ensures
        r == is_wsp_c(c),
{
    ('\u{0009}' <= c && c <= '\u{000d}') || c == ' ' || c == '\u{0085}' || c == '\u{00a0}'
        || c == '\u{1680}' || ('\u{2000}' <= c && c <= '\u{200a}') || c == '\u{2028}'
        || c == '\u{2029}' || c == '\u{202f}' || c == '\u{205f}' || c == '\u{3000}'
}

pub fn ctrl_char(c: char) -> (r: bool)
    ensures
        r == is_ctrl_c(c),
{
    c <= '\u{001f}' || ('\u{007f}' <= c && c <= '\u{009f}')
}

/// Index of the first character at or after `i` that is not whitespace.
pub open spec fn skip_wsp(s: Seq<char>, i: int) -> int
    decreases s.len() - i,
{
    if 0 <= i < s.len() && is_wsp_c(s[i]) {
        skip_wsp(s, i + 1)
    } else {
        i
    }
}

pub proof fn lemma_skip_wsp_bounds(s: Seq<char>, i: int)
    requires
        0 <= i <= s.len(),
    ensures
        i <= skip_wsp(s, i) <= s.len(),
        forall|k: int| i <= k < skip_wsp(s, i) ==> is_wsp_c(s[k]),
        skip_wsp(s, i) < s.len() ==> !is_wsp_c(s[skip_wsp(s, i)]),
    decreases s.len() - i,
{
    if 0 <= i < s.len() && is_wsp_c(s[i]) {
        lemma_skip_wsp_bounds(s, i + 1);
    }
}

/// End of trailing whitespace scanned backwards: the least `e <= i` such that
/// every character in `[e, i)` is whitespace.
pub open spec fn rskip_wsp(s: Seq<char>, i: int) -> int
    decreases i,
{
    if 0 < i <= s.len() && is_wsp_c(s[i - 1]) {
        rskip_wsp(s, i - 1)
    } else {
        i
    }
}

/// What `str::trim` leaves: the sequence without leading and trailing whitespace.
pub open spec fn trim_view(s: Seq<char>) -> Seq<char> {
    let lo = skip_wsp(s, 0);
    let hi = rskip_wsp(s, s.len() as int);
    if lo <= hi {
        s.subrange(lo, hi)
    } else {
        Seq::empty()
    }
}

fn skip_wsp_exec(v: &Vec<char>, start: usize) -> (r: usize)
    requires
        start <= v@.len(),
    ensures
        r == skip_wsp(v@, start as int),
        start <= r <= v@.len(),
{
    let mut i: usize = start;
    while i < v.len() && wsp_char(v[i])
        invariant
            start <= i <= v@.len(),
            skip_wsp(v@, start as int) == skip_wsp(v@, i as int),
        decreases v@.len() - i,
    {
        i = i + 1;
    }
    proof {
        lemma_skip_wsp_bounds(v@, i as int);
    }
    i
}

fn rskip_wsp_exec(v: &Vec<char>, end: usize) -> (r: usize)
    requires
        end <= v@.len(),
    ensures
        r == rskip_wsp(v@, end as int),
        r <= end,
{
    let mut i: usize = end;
    while i > 0 && wsp_char(v[i - 1])
        invariant
            i <= end <= v@.len(),
            rskip_wsp(v@, end as int) == rskip_wsp(v@, i as int),
        decreases i,
    {
        i = i - 1;
    }
    i
}

/// Copy `v[lo..hi]` into a fresh vector.
pub fn sub_chars(v: &Vec<char>, lo: usize, hi: usize) -> (r: Vec<char>)
    requires
        lo <= hi <= v@.len(),
    ensures
        r@ == v@.subrange(lo as int, hi as int),
{
    let mut out: Vec<char> = Vec::new();
    let mut i: usize = lo;
    while i < hi
        invariant
            lo <= i <= hi <= v@.len(),
            out@ == v@.subrange(lo as int, i as int),
        decreases hi - i,
    {
        out.push(v[i]);
        proof {
            assert(out@ =~= v@.subrange(lo as int, i + 1 as int));
        }
        i = i + 1;
    }
    out
}

/// Trim whitespace from both ends, as `str::trim` does.
pub fn trim_chars(v: &Vec<char>) -> (r: Vec<char>)
    ensures
        r@ == trim_view(v@),
{
    let lo = skip_wsp_exec(v, 0);
    let hi = rskip_wsp_exec(v, v.len());
    if lo <= hi {
        sub_chars(v, lo, hi)
    } else {
        Vec::new()
    }
}

/// `p` occurs in `t` starting at position `i`.
pub open spec fn match_at(t: Seq<char>, p: Seq<char>, i: int) -> bool {
    0 <= i && i + p.len() <= t.len() && forall|j: int| 0 <= j < p.len() ==> t[i + j] == p[j]
}

/// `p` is a substring of `t`.
pub open spec fn has_sub(t: Seq<char>, p: Seq<char>) -> bool {
    exists|i: int| match_at(t, p, i)
}

/// `p` is a prefix of `t`.
pub open spec fn is_prefix(p: Seq<char>, t: Seq<char>) -> bool {
    p.len() <= t.len() && forall|j: int| 0 <= j < p.len() ==> t[j] == p[j]
}

/// A substring match of a concatenation yields a match of its first part.
pub proof fn lemma_has_sub_of_concat(t: Seq<char>, a: Seq<char>, b: Seq<char>)
    requires
        has_sub(t, a + b),
    ensures
        has_sub(t, a),
{
    let i = choose|i: int| match_at(t, a + b, i);
    assert forall|j: int| 0 <= j < a.len() implies t[i + j] == a[j] by {
        assert((a + b)[j] == a[j]);
    }
    assert(match_at(t, a, i));
}

/// Does `p` match inside `t` at exactly position `i`?
fn match_at_exec(t: &Vec<char>, p: &Vec<char>, i: usize) -> (r: bool)
    requires
        i + p@.len() <= t@.len(),
    ensures
        r == match_at(t@, p@, i as int),
{
    let mut j: usize = 0;
    while j < p.len()
        invariant
            0 <= j <= p@.len(),
            i + p@.len() <= t@.len(),
            forall|k: int| 0 <= k < j ==> t@[i + k] == p@[k],
        decreases p@.len() - j,
    {
        proof {
            assert(t.len() == t@.len());
            assert(i + j < t@.len());
        }
        if t[i + j] != p[j] {
            return false;
        }
        j = j + 1;
    }
    true
}

/// Substring containment, the test the filter engine runs per entry.
pub fn contains_chars(t: &Vec<char>, p: &Vec<char>) -> (r: bool)
    ensures
        r == has_sub(t@, p@),
{
    if p.len() > t.len() {
        return false;
    }
    if p.len() == 0 {
        proof {
            assert(match_at(t@, p@, 0));
        }
        return true;
    }
    let bound: usize = t.len() - p.len();
    let mut i: usize = 0;
    loop
        invariant
            0 <= i <= bound,
            p@.len() <= t@.len(),
            bound == t@.len() - p@.len(),
            forall|k: int| 0 <= k < i ==> !match_at(t@, p@, k),
        decreases bound - i,
    {
        if match_at_exec(t, p, i) {
            return true;
        }
        if i == bound {
            proof {
                assert(forall|k: int| match_at(t@, p@, k) ==> 0 <= k <= bound);
            }
            return false;
        }
        i = i + 1;
    }
}

/// Prefix test over character vectors.
pub fn prefix_chars(p: &Vec<char>, t: &Vec<char>) -> (r: bool)
    ensures
        r == is_prefix(p@, t@),
{
    if p.len() > t.len() {
        return false;
    }
    let mut j: usize = 0;
    while j < p.len()
        invariant
            0 <= j <= p@.len() <= t@.len(),
            forall|k: int| 0 <= k < j ==> t@[k] == p@[k],
        decreases p@.len() - j,
    {
        if t[j] != p[j] {
            return false;
        }
        j = j + 1;
    }
    true
}

/// Character-vector equality.
pub fn chars_eq(a: &Vec<char>, b: &Vec<char>) -> (r: bool)
    ensures
        r == (a@ == b@),
{
    if a.len() != b.len() {
        return false;
    }
    let mut j: usize = 0;
    while j < a.len()
        invariant
            0 <= j <= a@.len(),
            a@.len() == b@.len(),
            forall|k: int| 0 <= k < j ==> a@[k] == b@[k],
        decreases a@.len() - j,
    {
        if a[j] != b[j] {
            return false;
        }
        j = j + 1;
    }
    proof {
        assert(a@ =~= b@);
    }
    true
}

/// Append every character of `src` to `dst`.
pub fn extend_chars(dst: &mut Vec<char>, src: &Vec<char>)
    ensures
        final (dst)@ == old(dst)@ + src@,
{
    let mut i: usize = 0;
    while i < src.len()
        invariant
            0 <= i <= src@.len(),
            dst@ == old(dst)@ + src@.subrange(0, i as int),
        decreases src@.len() - i,
    {
        dst.push(src[i]);
        proof {
            assert(old(dst)@ + src@.subrange(0, i as int) + seq![src@[i as int]] =~= old(dst)@
                + src@.subrange(0, i + 1 as int));
        }
        i = i + 1;
    }
    proof {
        assert(src@.subrange(0, src@.len() as int) =~= src@);
    }
}

/// The lowercase expansion of one character, as `char::to_lowercase` yields it.
pub uninterp spec fn char_lower(c: char) -> Seq<char>;

/// Relies on `char::to_lowercase`: the lowercase mapping of a character is a
/// function of that character alone and yields one or more characters.
#[verifier::external_body]
fn lower_char(c: char) -> (r: Vec<char>)
    ensures
        r@ == char_lower(c),
        r@.len() >= 1,
{
    c.to_lowercase().collect()
}

/// Lower-casing a character sequence: each character mapped independently.
pub open spec fn lower_view(s: Seq<char>) -> Seq<char>
    decreases s.len(),
{
    if s.len() == 0 {
        Seq::empty()
    } else {
        char_lower(s[0]) + lower_view(s.drop_first())
    }
}

/// Lower-casing distributes over concatenation.
pub proof fn lemma_lower_append(a: Seq<char>, b: Seq<char>)
    ensures
        lower_view(a + b) == lower_view(a) + lower_view(b),
    decreases a.len(),
{
    if a.len() == 0 {
        assert(a + b =~= b);
        assert(lower_view(a) + lower_view(b) =~= lower_view(b));
    } else {
        lemma_lower_append(a.drop_first(), b);
        assert((a + b).drop_first() =~= a.drop_first() + b);
        assert(lower_view(a + b) =~= lower_view(a) + lower_view(b));
    }
}

/// Lower-case a character vector.
pub fn lower_chars(v: &Vec<char>) -> (r: Vec<char>)
    ensures
        r@ == lower_view(v@),
{
    let mut out: Vec<char> = Vec::new();
    let mut i: usize = 0;
    while i < v.len()
        invariant
            0 <= i <= v@.len(),
            out@ == lower_view(v@.subrange(0, i as int)),
        decreases v@.len() - i,
    {
        let low = lower_char(v[i]);
        extend_chars(&mut out, &low);
        proof {
            let pre = v@.subrange(0, i as int);
            let one = seq![v@[i as int]];
            lemma_lower_append(pre, one);
            assert(pre + one =~= v@.subrange(0, i + 1 as int));
            assert(one.drop_first() =~= Seq::<char>::empty());
            assert(lower_view(one) == char_lower(one[0]) + lower_view(one.drop_first()));
            assert(char_lower(v@[i as int]) + Seq::<char>::empty() =~= char_lower(v@[i as int]));
            assert(lower_view(one) =~= char_lower(v@[i as int]));
        }
        i = i + 1;
    }
    proof {
        assert(v@.subrange(0, v@.len() as int) =~= v@);
    }
    out
}

/// Relies on `str::chars`: yields exactly the characters of the string, which
/// are the string's view.
#[verifier::external_body]
pub fn str_chars(s: &str) -> (r: Vec<char>)
    ensures
        r@ == s@,
{
    s.chars().collect()
}

/// Relies on `String: FromIterator<char>`: collects exactly the given
/// characters into a string whose view they are.
#[verifier::external_body]
pub fn chars_string(v: &Vec<char>) -> (r: String)
    ensures
        r@ == v@,
{
    v.iter().collect()
}

} // verus!
