//! Decision core of the file-tailing source: which log file to follow,
//! whether the file changed since the last poll and which byte range to
//! read, and how a read delta is carved into complete marker-delimited
//! blocks.  The filesystem calls themselves (scanning directories, statting
//! and memory-mapping the file) stay outside the library and hand in plain
//! values.

use vstd::prelude::*;

use vstd::string::StringExecFns;

use crate::reassembler::delim_starts;
use crate::reassembler::delim_starts_from;
use crate::reassembler::lemma_delim_starts_props;
use crate::reassembler::find_delims;
use crate::text::is_digit_c;
use crate::text::digit_char;
use crate::text::trim_view;
use crate::text::trim_chars;
use crate::text::sub_chars;
use crate::text::chars_eq;
use crate::text::str_chars;
use crate::text::chars_string;

verus! {

/// A snapshot of the followed file's metadata: its length and modification
/// time, the two observations that decide whether anything new appeared.
#[derive(Clone, Copy, PartialEq, Eq, Structural, Debug)]
pub struct MetaSnap {
    pub len: u64,
    pub modified_secs: u64,
    pub modified_nanos: u32,
}

/// Did the file change since the previous snapshot?  A first observation
/// always counts as changed.
pub fn has_changed(prev: &Option<MetaSnap>, cur: &MetaSnap) -> (r: bool)
    ensures
        r == match prev {
            Some(p) => p != cur,
            None => true,
        },
{
    match prev {
        Some(p) => !(p.len == cur.len && p.modified_secs == cur.modified_secs && p.modified_nanos
            == cur.modified_nanos),
        None => true,
    }
}

/// The texts of the delimiter windows of a delta, each trimmed.
pub open spec fn window_texts(s: Seq<char>) -> Seq<Seq<char>> {
    let starts = delim_starts(s);
    Seq::new(
        starts.len(),
        |k: int|
            trim_view(
                s.subrange(
                    starts[k],
                    if k + 1 < starts.len() {
                        starts[k + 1]
                    } else {
                        s.len() as int
                    },
                ),
            ),
    )
}

/// The complete marker-delimited blocks of a delta: one per delimiter
/// window, trimmed, empty ones left out.  A delta without a delimiter
/// yields nothing.
pub open spec fn marker_blocks(s: Seq<char>) -> Seq<Seq<char>> {
    window_texts(s).filter(|b: Seq<char>| b.len() > 0)
}

/// Split a read delta into complete `## <date> <time>` blocks.
pub fn split_by_markers(text: &str) -> (r: Vec<String>)
    ensures
        r@.map_values(|b: String| b@) == marker_blocks(text@),
{
    let ghost to_view = |b: String| b@;
    let ghost pred = |b: Seq<char>| b.len() > 0;
    let v = str_chars(text);
    let starts = find_delims(&v);
    let ghost wt = window_texts(v@);
    let mut out: Vec<String> = Vec::new();
    let mut k: usize = 0;
    proof {
        reveal(Seq::filter);
        assert(wt.subrange(0, 0) =~= Seq::<Seq<char>>::empty());
        assert(out@.map_values(to_view) =~= wt.subrange(0, 0).filter(pred));
    }
    while k < starts.len()
        invariant
            0 <= k <= starts@.len(),
            to_view == (|b: String| b@),
            pred == (|b: Seq<char>| b.len() > 0),
            v@ == text@,
            starts@.map_values(|u: usize| u as int) == delim_starts(v@),
            wt == window_texts(v@),
            wt.len() == starts@.len(),
            out@.map_values(to_view) == wt.subrange(0, k as int).filter(pred),
        decreases starts@.len() - k,
    {
        let st = starts[k];
        let en: usize = if k + 1 < starts.len() {
            starts[k + 1]
        } else {
            v.len()
        };
        proof {
            lemma_delim_starts_props(v@, 0);
            let sview = starts@.map_values(|u: usize| u as int);
            assert(sview[k as int] == st as int);
            assert(delim_starts_from(v@, 0)[k as int] == st as int);
            if k + 1 < starts@.len() {
                assert(sview[k + 1 as int] == starts@[k + 1 as int] as int);
                assert(delim_starts_from(v@, 0)[k as int] + 22 <= delim_starts_from(
                    v@,
                    0,
                )[k + 1 as int]);
            }
            assert(st <= en <= v@.len());
            assert(wt[k as int] == trim_view(v@.subrange(st as int, en as int)));
            reveal(Seq::filter);
            assert(wt.subrange(0, k + 1 as int).drop_last() =~= wt.subrange(0, k as int));
            assert(wt.subrange(0, k + 1 as int).last() == wt[k as int]);
        }
        let raw_window = sub_chars(&v, st, en);
        let block = trim_chars(&raw_window);
        if block.len() > 0 {
            let ghost pre = out@.map_values(to_view);
            out.push(chars_string(&block));
            proof {
                assert(out@.map_values(to_view) =~= pre.push(block@));
            }
        }
        k = k + 1;
    }
    proof {
        assert(wt.subrange(0, wt.len() as int) =~= wt);
    }
    out
}

/// Would this file name be followed as a live log?  Only `.log` files
/// count, and rotated copies — a numeric suffix before the extension, as in
/// `name.1.log` — are excluded.
pub open spec fn spec_is_live_log_name(name: Seq<char>) -> bool {
    let ext = ".log"@;
    if name.len() < ext.len() || name.subrange(name.len() - 4, name.len() as int) != ext {
        false
    } else {
        let base = name.subrange(0, name.len() - 4);
        let d = rfind_dot(base);
        if d >= 0 {
            !parses_as_u32(base.subrange(d + 1, base.len() as int))
        } else {
            true
        }
    }
}

/// Index of the last `.` in the text, or `-1`.
pub open spec fn rfind_dot(s: Seq<char>) -> int
    decreases s.len(),
{
    if s.len() == 0 {
        -1
    } else if s.last() == '.' {
        s.len() - 1
    } else {
        rfind_dot(s.drop_last())
    }
}

/// The numeric value of a digit string.
pub open spec fn digits_value(d: Seq<char>) -> int
    decreases d.len(),
{
    if d.len() == 0 {
        0
    } else {
        digits_value(d.drop_last()) * 10 + (d.last() as int - '0' as int)
    }
}

/// Every character is an ASCII digit.
pub open spec fn all_digits(d: Seq<char>) -> bool {
    forall|k: int| 0 <= k < d.len() ==> is_digit_c(#[trigger] d[k])
}

/// Would `u32::from_str` accept this text: an optional plus sign, then one
/// or more digits whose value fits in 32 bits.
pub open spec fn parses_as_u32(s: Seq<char>) -> bool {
    let d = if s.len() > 0 && s[0] == '+' {
        s.skip(1)
    } else {
        s
    };
    d.len() > 0 && all_digits(d) && digits_value(d) <= 0xffff_ffff
}

proof fn lemma_digits_value_nonneg(d: Seq<char>)
    requires
        forall|j: int| 0 <= j < d.len() ==> is_digit_c(#[trigger] d[j]),
    ensures
        digits_value(d) >= 0,
    decreases d.len(),
{
    if d.len() > 0 {
        assert forall|j: int| 0 <= j < d.drop_last().len() implies is_digit_c(
            #[trigger] d.drop_last()[j],
        ) by {
            assert(d.drop_last()[j] == d[j]);
        }
        lemma_digits_value_nonneg(d.drop_last());
        assert(is_digit_c(d.last()));
    }
}

proof fn lemma_digits_value_take_mono(d: Seq<char>, k: int)
    requires
        0 <= k <= d.len(),
        forall|j: int| 0 <= j < d.len() ==> is_digit_c(#[trigger] d[j]),
    ensures
        digits_value(d.take(k)) <= digits_value(d),
    decreases d.len() - k,
{
    if k < d.len() {
        lemma_digits_value_take_mono(d, k + 1);
        assert(d.take(k + 1).drop_last() =~= d.take(k));
        assert(d.take(k + 1).last() == d[k]);
        assert(is_digit_c(d[k]));
        assert forall|j: int| 0 <= j < d.take(k).len() implies is_digit_c(
            #[trigger] d.take(k)[j],
        ) by {
            assert(d.take(k)[j] == d[j]);
        }
        lemma_digits_value_nonneg(d.take(k));
        assert(digits_value(d.take(k + 1)) == digits_value(d.take(k)) * 10 + (d[k] as int
            - '0' as int));
    } else {
        assert(d.take(k) =~= d);
    }
}

fn digits_fit_u32(v: &Vec<char>, from: usize) -> (r: bool)
    requires
        from <= v@.len(),
    ensures
        ({
            let d = v@.skip(from as int);
            r == (d.len() > 0 && all_digits(d) && digits_value(d) <= 0xffff_ffff)
        }),
{
    let ghost d = v@.skip(from as int);
    if from >= v.len() {
        return false;
    }
    let mut acc: u64 = 0;
    let mut i: usize = from;
    while i < v.len()
        invariant
            from <= i <= v@.len(),
            v@.len() == v.len(),
            d == v@.skip(from as int),
            forall|k: int| 0 <= k < i - from ==> is_digit_c(#[trigger] d[k]),
            acc == digits_value(d.take(i - from)),
            acc <= 0xffff_ffff,
        decreases v@.len() - i,
    {
        let c = v[i];
        if !digit_char(c) {
            proof {
                assert(d[i - from] == v@[i as int]);
                assert(!is_digit_c(d[i - from]));
                assert(!all_digits(d));
            }
            return false;
        }
        let dv: u64 = (c as u32 as u64) - 48;
        proof {
            assert(d[i - from] == v@[i as int]);
            assert(d.take(i - from + 1).drop_last() =~= d.take(i - from));
            assert(d.take(i - from + 1).last() == d[i - from]);
            assert('0' <= c && c <= '9');
            assert(dv == (c as int - '0' as int));
            assert(dv <= 9);
        }
        let next: u64 = acc * 10 + dv;
        if next > 0xffff_ffff {
            proof {
                assert(digits_value(d.take(i - from + 1)) == next);
                if all_digits(d) {
                    lemma_digits_value_take_mono(d, i - from + 1);
                    assert(digits_value(d) > 0xffff_ffff);
                }
            }
            return false;
        }
        acc = next;
        i = i + 1;
    }
    proof {
        assert(d.take(d.len() as int) =~= d);
        assert(all_digits(d));
    }
    true
}

/// Exclusion test for rotated log names: true exactly when the name ends in
/// `.log` and the piece between the last dot of the base name and the
/// extension is not a number.
pub fn is_live_log_name(file_name: &str) -> (r: bool)
    ensures
        r == spec_is_live_log_name(file_name@),
{
    let v = str_chars(file_name);
    proof {
        reveal_strlit(".log");
        assert(".log"@.len() == 4);
    }
    if v.len() < 4 {
        return false;
    }
    let ext = str_chars(".log");
    let tail = sub_chars(&v, v.len() - 4, v.len());
    if !chars_eq(&tail, &ext) {
        return false;
    }
    let base = sub_chars(&v, 0, v.len() - 4);
    match rfind_dot_exec(&base) {
        Some(d) => {
            let ghost suffix = base@.subrange(d + 1 as int, base@.len() as int);
            proof {
                assert(suffix =~= base@.skip(d + 1));
            }
            let from: usize = if d + 1 < base.len() && base[d + 1] == '+' {
                d + 2
            } else {
                d + 1
            };
            proof {
                if d + 1 < base@.len() && base@[d + 1] == '+' {
                    assert(suffix[0] == '+');
                    assert(suffix.subrange(1, suffix.len() as int) =~= suffix.skip(1));
                    assert(suffix.skip(1) =~= base@.skip(d + 2));
                } else {
                    if suffix.len() > 0 {
                        assert(suffix[0] == base@[d + 1]);
                    }
                }
                assert(base@.subrange(from as int, base@.len() as int) =~= base@.skip(from as int));
            }
            let numeric = digits_fit_u32(&base, from);
            proof {
                let dd = base@.skip(from as int);
                assert(numeric == (dd.len() > 0 && all_digits(dd) && digits_value(dd)
                    <= 0xffff_ffff));
                let sd = if suffix.len() > 0 && suffix[0] == '+' {
                    suffix.skip(1)
                } else {
                    suffix
                };
                assert(suffix.len() == base@.len() - (d + 1));
                if suffix.len() > 0 && suffix[0] == '+' {
                    assert(base@[d + 1] == '+');
                    assert(from == d + 2);
                    assert(sd == suffix.skip(1));
                    assert(sd == base@.skip(d + 2));
                    assert(dd == base@.skip(d + 2));
                } else {
                    assert(from == d + 1);
                    assert(sd == suffix);
                    assert(suffix =~= base@.skip(d + 1));
                    assert(dd == base@.skip(d + 1));
                }
                assert(sd == dd);
                assert(digits_value(sd) == digits_value(dd));
                assert(all_digits(sd) == all_digits(dd));
                assert(numeric == parses_as_u32(suffix));
            }
            !numeric
        },
        None => true,
    }
}

fn rfind_dot_exec(base: &Vec<char>) -> (r: Option<usize>)
    ensures
        match r {
            Some(d) => rfind_dot(base@) == d as int && (d as int) < base@.len(),
            None => rfind_dot(base@) == -1,
        },
{
    let mut dot: usize = base.len();
    proof {
        assert(base@.take(base@.len() as int) =~= base@);
    }
    loop
        invariant
            0 <= dot <= base@.len(),
            base@.len() == base.len(),
            rfind_dot(base@) == rfind_dot(base@.take(dot as int)),
        decreases dot,
    {
        if dot == 0 {
            proof {
                assert(base@.take(0) =~= Seq::<char>::empty());
            }
            return None;
        }
        proof {
            assert(base@.take(dot as int).drop_last() =~= base@.take(dot - 1));
            assert(base@.take(dot as int).last() == base@[dot - 1]);
        }
        if base[dot - 1] == '.' {
            return Some(dot - 1);
        }
        dot = dot - 1;
    }
}

/// Pick the file to follow from `(name, modification time)` observations:
/// the latest, and among equally fresh ones the one listed last.  `None`
/// exactly when the list is empty.
pub fn select_latest_live_log(files: &Vec<(String, u64)>) -> (r: Option<usize>)
    ensures
        match r {
            Some(i) => {
                &&& (i as int) < files@.len()
                &&& forall|j: int| 0 <= j < files@.len() ==> (#[trigger] files@[j]).1 <= files@[i as int].1
                &&& forall|j: int| i < j < files@.len() ==> (#[trigger] files@[j]).1 < files@[i as int].1
            },
            None => files@.len() == 0,
        },
{
    if files.len() == 0 {
        return None;
    }
    let mut best: usize = 0;
    let mut j: usize = 1;
    while j < files.len()
        invariant
            0 <= best < j <= files@.len(),
            forall|k: int| 0 <= k < j ==> (#[trigger] files@[k]).1 <= files@[best as int].1,
            forall|k: int| best < k < j ==> (#[trigger] files@[k]).1 < files@[best as int].1,
        decreases files@.len() - j,
    {
        if files[j].1 >= files[best].1 {
            best = j;
        }
        j = j + 1;
    }
    Some(best)
}

/// What a poll decided to read: the byte range `[from, to)` of the followed
/// file, or nothing.
pub type ReadPlan = Option<(u64, u64)>;

/// State of the file-tailing source: where it looks, which file it follows,
/// how much of it was already read, and the last metadata snapshot.
pub struct DyehLogProvider {
    pub log_dir_path: String,
    pub log_file_path: String,
    pub last_len: u64,
    pub prev_meta: Option<MetaSnap>,
}

impl DyehLogProvider {
    /// A provider rooted at a log directory, following the discovered file
    /// or a placeholder name until one appears.
    pub fn new(log_dir_path: String, initial_log_file: Option<String>) -> (r: DyehLogProvider)
        ensures
            r.log_dir_path@ == log_dir_path@,
            r.last_len == 0,
            r.prev_meta is None,
            r.log_file_path@ == match initial_log_file {
                Some(p) => p@,
                None => log_dir_path@ + "/__no_log_file_yet__.log"@,
            },
    {
        let file = match initial_log_file {
            Some(p) => p,
            None => {
                let mut f = log_dir_path.clone();
                f.append("/__no_log_file_yet__.log");
                f
            },
        };
        DyehLogProvider { log_dir_path, log_file_path: file, last_len: 0, prev_meta: None }
    }

    /// Decide whether to switch files, given the freshest live log the
    /// directory scan found and whether the followed file still exists.
    pub fn check_for_newer_log_file(&self, latest_found: Option<&String>, current_exists: bool)
        -> (r: Option<String>)
        ensures
            r == match latest_found {
                Some(latest) => {
                    if !current_exists || latest@ != self.log_file_path@ {
                        Some(*latest)
                    } else {
                        None::<String>
                    }
                },
                None => None::<String>,
            },
    {
        match latest_found {
            Some(latest) => {
                let lc = str_chars(latest.as_str());
                let cc = str_chars(self.log_file_path.as_str());
                if !current_exists || !chars_eq(&lc, &cc) {
                    Some(latest.clone())
                } else {
                    None
                }
            },
            None => None,
        }
    }

    /// Follow a different file from its beginning.
    pub fn switch_to_log_file(&mut self, new_file_path: String)
        ensures
            final (self).log_dir_path == old(self).log_dir_path,
            final (self).log_file_path == new_file_path,
            final (self).last_len == 0,
            final (self).prev_meta is None,
    {
        self.log_file_path = new_file_path;
        self.last_len = 0;
        self.prev_meta = None;
    }

    /// Decide what to read after a metadata observation (`None` when the
    /// file is missing or could not be statted).  A shrunken file is taken
    /// as truncated and re-read from the start; an unchanged snapshot reads
    /// nothing; growth reads exactly the appended range.
    pub fn poll_plan(&mut self, current: Option<MetaSnap>) -> (r: ReadPlan)
        ensures
            final (self).log_dir_path == old(self).log_dir_path,
            final (self).log_file_path == old(self).log_file_path,
            match current {
                None => r is None && final (self).last_len == old(self).last_len && final (self).prev_meta == old(self).prev_meta,
                Some(cur) => {
                    if old(self).prev_meta == Some(cur) {
                        r is None && final (self).last_len == old(self).last_len && final (self).prev_meta == old(self).prev_meta
                    } else {
                        let base = if cur.len < old(self).last_len {
                            0
                        } else {
                            old(self).last_len as int
                        };
                        &&& final (self).prev_meta == Some(cur)
                        &&& (if cur.len > base {
                            r == Some((base as u64, cur.len)) && final (self).last_len == cur.len
                        } else {
                            r is None && final (self).last_len == base
                        })
                    }
                },
            },
    {
        let cur = match current {
            Some(c) => c,
            None => {
                return None;
            },
        };
        if !has_changed(&self.prev_meta, &cur) {
            return None;
        }
        if cur.len < self.last_len {
            self.last_len = 0;
        }
        let mut plan: ReadPlan = None;
        if cur.len > self.last_len {
            plan = Some((self.last_len, cur.len));
            self.last_len = cur.len;
        }
        self.prev_meta = Some(cur);
        plan
    }
}

} // verus!
