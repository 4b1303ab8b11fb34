//! The filter engine: incremental, order-preserving text search over the
//! accumulated entries.  A query is lower-cased once and tested as a
//! substring of each entry's lower-cased searchable text.  When the new
//! query textually extends the cached one, only the cached result indices
//! are re-searched; large search spaces are distributed over a worker pool.

use vstd::prelude::*;

use rayon::iter::IntoParallelRefIterator;
use rayon::iter::ParallelIterator;

use crate::log_item::LogItem;
use crate::formatter::LogItemFormatter;
use crate::text::has_sub;
use crate::text::is_prefix;
use crate::text::lower_view;
use crate::text::lower_chars;
use crate::text::contains_chars;
use crate::text::prefix_chars;
use crate::text::chars_eq;
use crate::text::str_chars;
use crate::text::lemma_lower_append;
use crate::text::lemma_has_sub_of_concat;

verus! {

/// The searchable texts of all entries, under a formatter at a detail level.
pub open spec fn texts_of<F: LogItemFormatter>(f: &F, items: Seq<LogItem>, detail_level: u8) -> Seq<
    Seq<char>,
> {
    Seq::new(items.len(), |i: int| f.searchable_model(items[i], detail_level))
}

/// An entry's lower-cased text contains the (already lower-cased) pattern.
pub open spec fn entry_matches(text: Seq<char>, pat: Seq<char>) -> bool {
    has_sub(lower_view(text), pat)
}

/// The indices of `space` whose entries match, in the order `space` lists
/// them.
pub open spec fn matching(space: Seq<usize>, texts: Seq<Seq<char>>, pat: Seq<char>) -> Seq<usize> {
    space.filter(|idx: usize| entry_matches(texts[idx as int], pat))
}

/// The indices `from..to` in ascending order.
pub open spec fn range_indices_view(from: int, to: int) -> Seq<usize> {
    Seq::new((to - from) as nat, |i: int| (from + i) as usize)
}

pub open spec fn full_range(n: int) -> Seq<usize> {
    range_indices_view(0, n)
}

/// The full match set of a query over all entries' texts.
pub open spec fn matched_indices(texts: Seq<Seq<char>>, q: Seq<char>) -> Seq<usize> {
    matching(full_range(texts.len() as int), texts, lower_view(q))
}

/// What one `filter` call returns, as a function of the cached query, the
/// cached result indices and the texts: everything on an empty query, and
/// otherwise the matches within the search space — the cached results when
/// the query extends the cached one and results exist, the full range
/// otherwise.
pub open spec fn filter_result(
    cq: Seq<char>,
    cr: Seq<usize>,
    texts: Seq<Seq<char>>,
    q: Seq<char>,
) -> Seq<usize> {
    if q.len() == 0 {
        full_range(texts.len() as int)
    } else if cq.len() > 0 && is_prefix(cq, q) && cr.len() > 0 {
        matching(cr, texts, lower_view(q))
    } else {
        matching(full_range(texts.len() as int), texts, lower_view(q))
    }
}

/// What one `filter_new_logs` call returns: a full filter on a changed
/// query; the cache on no new entries; everything on an empty query; and
/// otherwise the cache extended by the matches among the new indices alone.
pub open spec fn filter_new_result(
    cq: Seq<char>,
    cr: Seq<usize>,
    texts: Seq<Seq<char>>,
    old_count: int,
    q: Seq<char>,
) -> Seq<usize> {
    if q != cq {
        filter_result(cq, cr, texts, q)
    } else if old_count >= texts.len() {
        cr
    } else if q.len() == 0 {
        full_range(texts.len() as int)
    } else {
        cr + matching(range_indices_view(old_count, texts.len() as int), texts, lower_view(q))
    }
}

/// The cached results after a `filter` call.
pub open spec fn filter_cache_after(r: Seq<usize>, q: Seq<char>) -> Seq<usize> {
    if q.len() == 0 {
        Seq::empty()
    } else {
        r
    }
}

/// The cached results after a `filter_new_logs` call.
pub open spec fn filter_new_cache_after(
    cq: Seq<char>,
    cr: Seq<usize>,
    texts: Seq<Seq<char>>,
    old_count: int,
    q: Seq<char>,
    r: Seq<usize>,
) -> Seq<usize> {
    if q != cq {
        filter_cache_after(r, q)
    } else if old_count >= texts.len() {
        cr
    } else if q.len() == 0 {
        cr
    } else {
        r
    }
}

/// Every element a filter keeps was in the sequence it filtered.
proof fn lemma_filter_elems_in<A>(s: Seq<A>, pred: spec_fn(A) -> bool)
    ensures
        forall|k: int|
            0 <= k < s.filter(pred).len() ==> s.contains(#[trigger] s.filter(pred)[k]),
    decreases s.len(),
{
    reveal(Seq::filter);
    if s.len() > 0 {
        lemma_filter_elems_in(s.drop_last(), pred);
        let f = s.filter(pred);
        let df = s.drop_last().filter(pred);
        assert forall|k: int| 0 <= k < f.len() implies s.contains(#[trigger] f[k]) by {
            if pred(s.last()) {
                assert(f == df.push(s.last()));
                if k < df.len() {
                    assert(f[k] == df[k]);
                    assert(s.drop_last().contains(df[k]));
                    let j = choose|j: int|
                        0 <= j && j < s.drop_last().len() && s.drop_last()[j] == df[k];
                    assert(s[j] == df[k]);
                } else {
                    assert(f[k] == s.last());
                    assert(s[s.len() - 1] == s.last());
                }
            } else {
                assert(f == df);
                assert(s.drop_last().contains(df[k]));
                let j = choose|j: int|
                    0 <= j && j < s.drop_last().len() && s.drop_last()[j] == df[k];
                assert(s[j] == df[k]);
            }
        }
    }
}

/// Stateful incremental filter over an append-only entry sequence: the last
/// applied query and the index list it produced.
pub struct FilterEngine {
    previous_query: String,
    previous_results: Vec<usize>,
}

impl FilterEngine {
    pub closed spec fn cached_query(&self) -> Seq<char> {
        self.previous_query@
    }

    pub closed spec fn cached_results(&self) -> Seq<usize> {
        self.previous_results@
    }

    /// Every cached index refers into the first `n` entries.  Holds whenever
    /// the entry list has only grown since the cache was written, and is
    /// restored by `reset`.
    pub closed spec fn results_in_range(&self, n: int) -> bool {
        forall|k: int|
            0 <= k < self.previous_results@.len() ==> (#[trigger] self.previous_results@[k] as int)
                < n
    }

    /// A fresh engine with an empty cache.
    pub fn new() -> (r: FilterEngine)
        ensures
            r.cached_query() == Seq::<char>::empty(),
            r.cached_results() == Seq::<usize>::empty(),
    {
        FilterEngine { previous_query: String::new(), previous_results: Vec::new() }
    }

    /// Drop the cache, forcing the next filter to scan everything.  Must be
    /// called when the detail level changes or entries are cleared.
    pub fn reset(&mut self)
        ensures
            final (self).cached_query() == Seq::<char>::empty(),
            final (self).cached_results() == Seq::<usize>::empty(),
    {
        self.previous_query = String::new();
        self.previous_results = Vec::new();
    }

    /// Filter all entries and return the indices of those matching the
    /// query, ascending; caches the query and result.  An empty query resets
    /// the cache and returns every index.
    pub fn filter<F: LogItemFormatter + Sync>(
        &mut self,
        formatter: &F,
        raw_logs: &Vec<LogItem>,
        query: &str,
        detail_level: u8,
    ) -> (r: Vec<usize>)
        requires
            old(self).results_in_range(raw_logs@.len() as int),
        ensures
            r@ == filter_result(
                old(self).cached_query(),
                old(self).cached_results(),
                texts_of(formatter, raw_logs@, detail_level),
                query@,
            ),
            final (self).cached_query() == query@,
            final (self).cached_results() == filter_cache_after(r@, query@),
            final (self).results_in_range(raw_logs@.len() as int),
    {
        let ghost texts = texts_of(formatter, raw_logs@, detail_level);
        let query_chars = str_chars(query);
        if query_chars.len() == 0 {
            self.reset();
            return range_indices(raw_logs.len());
        }
        let prev_chars = str_chars(self.previous_query.as_str());
        let can_incremental = prev_chars.len() > 0 && prefix_chars(&prev_chars, &query_chars)
            && self.previous_results.len() > 0;
        let space: Vec<usize> = if can_incremental {
            copy_indices(&self.previous_results)
        } else {
            range_indices(raw_logs.len())
        };
        proof {
            assert(forall|k: int|
                0 <= k < space@.len() ==> (#[trigger] space@[k] as int) < raw_logs@.len());
        }
        let pat = lower_chars(&query_chars);
        let matched: Vec<usize> = if space.len() > 1000 {
            filter_parallel(formatter, raw_logs, &space, &pat, detail_level)
        } else {
            filter_sequential(formatter, raw_logs, &space, &pat, detail_level)
        };
        self.previous_query = query.to_owned();
        self.previous_results = copy_indices(&matched);
        proof {
            assert(matched@ == filter_result(
                old(self).cached_query(),
                old(self).cached_results(),
                texts,
                query@,
            ));
            assert forall|k: int| 0 <= k < matched@.len() implies (#[trigger] matched@[k] as int)
                < raw_logs@.len() by {
                let pred = |idx: usize| entry_matches(texts[idx as int], lower_view(query@));
                lemma_filter_elems_in(space@, pred);
                assert(space@.filter(pred)[k] == matched@[k]);
                assert(space@.contains(matched@[k]));
                let j = choose|j: int| 0 <= j && j < space@.len() && space@[j] == matched@[k];
                assert((space@[j] as int) < raw_logs@.len());
            }
        }
        matched
    }

    /// Re-filter only entries appended since `old_count`, appending their
    /// matches to the cached result; falls back to a full `filter` when the
    /// query changed, and to the cache when nothing arrived.
    pub fn filter_new_logs<F: LogItemFormatter + Sync>(
        &mut self,
        formatter: &F,
        raw_logs: &Vec<LogItem>,
        old_count: usize,
        query: &str,
        detail_level: u8,
    ) -> (r: Vec<usize>)
        requires
            old(self).results_in_range(raw_logs@.len() as int),
        ensures
            r@ == filter_new_result(
                old(self).cached_query(),
                old(self).cached_results(),
                texts_of(formatter, raw_logs@, detail_level),
                old_count as int,
                query@,
            ),
            final (self).cached_query() == query@,
            final (self).cached_results() == filter_new_cache_after(
                old(self).cached_query(),
                old(self).cached_results(),
                texts_of(formatter, raw_logs@, detail_level),
                old_count as int,
                query@,
                r@,
            ),
            final (self).results_in_range(raw_logs@.len() as int),
    {
        let ghost texts = texts_of(formatter, raw_logs@, detail_level);
        let query_chars = str_chars(query);
        let prev_chars = str_chars(self.previous_query.as_str());
        if !chars_eq(&query_chars, &prev_chars) {
            return self.filter(formatter, raw_logs, query, detail_level);
        }
        if old_count >= raw_logs.len() {
            return copy_indices(&self.previous_results);
        }
        if query_chars.len() == 0 {
            return range_indices(raw_logs.len());
        }
        let new_space = range_indices_from(old_count, raw_logs.len());
        let pat = lower_chars(&query_chars);
        let new_matched: Vec<usize> = if new_space.len() > 1000 {
            filter_parallel(formatter, raw_logs, &new_space, &pat, detail_level)
        } else {
            filter_sequential(formatter, raw_logs, &new_space, &pat, detail_level)
        };
        let mut all_results = copy_indices(&self.previous_results);
        let mut k: usize = 0;
        while k < new_matched.len()
            invariant
                0 <= k <= new_matched@.len(),
                all_results@ == self.previous_results@ + new_matched@.subrange(0, k as int),
            decreases new_matched@.len() - k,
        {
            all_results.push(new_matched[k]);
            proof {
                assert(self.previous_results@ + new_matched@.subrange(0, k as int) + seq![
                    new_matched@[k as int],
                ] =~= self.previous_results@ + new_matched@.subrange(0, k + 1 as int));
            }
            k = k + 1;
        }
        proof {
            assert(new_matched@.subrange(0, new_matched@.len() as int) =~= new_matched@);
        }
        self.previous_results = copy_indices(&all_results);
        proof {
            assert(all_results@ == filter_new_result(
                old(self).cached_query(),
                old(self).cached_results(),
                texts,
                old_count as int,
                query@,
            ));
            assert forall|j: int| 0 <= j < all_results@.len() implies (
            #[trigger] all_results@[j] as int) < raw_logs@.len() by {
                if j < old(self).cached_results().len() {
                    assert(all_results@[j] == old(self).cached_results()[j]);
                } else {
                    let jj = j - old(self).cached_results().len();
                    assert(all_results@[j] == new_matched@[jj]);
                    let pred = |idx: usize| entry_matches(texts[idx as int], lower_view(query@));
                    lemma_filter_elems_in(new_space@, pred);
                    assert(new_space@.filter(pred)[jj] == new_matched@[jj]);
                    assert(new_space@.contains(new_matched@[jj]));
                    let w = choose|w: int|
                        0 <= w && w < new_space@.len() && new_space@[w] == new_matched@[jj];
                    assert((new_space@[w] as int) < raw_logs@.len());
                }
            }
        }
        all_results
    }
}

/// The indices `0..n`.
fn range_indices(n: usize) -> (r: Vec<usize>)
    ensures
        r@ == full_range(n as int),
{
    range_indices_from(0, n)
}

/// The indices `from..to` (empty when `from >= to`).
fn range_indices_from(from: usize, to: usize) -> (r: Vec<usize>)
    requires
        from <= to,
    ensures
        r@ == range_indices_view(from as int, to as int),
{
    let mut out: Vec<usize> = Vec::new();
    let mut i: usize = from;
    while i < to
        invariant
            from <= i <= to,
            out@.len() == i - from,
            forall|k: int| 0 <= k < out@.len() ==> #[trigger] out@[k] == (from + k) as usize,
        decreases to - i,
    {
        out.push(i);
        i = i + 1;
    }
    proof {
        assert(out@ =~= range_indices_view(from as int, to as int));
    }
    out
}

/// A fresh vector with the same indices.
fn copy_indices(v: &Vec<usize>) -> (r: Vec<usize>)
    ensures
        r@ == v@,
{
    let mut out: Vec<usize> = Vec::new();
    let mut i: usize = 0;
    while i < v.len()
        invariant
            0 <= i <= v@.len(),
            out@ == v@.subrange(0, i as int),
        decreases v@.len() - i,
    {
        out.push(v[i]);
        proof {
            assert(out@ =~= v@.subrange(0, i + 1 as int));
        }
        i = i + 1;
    }
    proof {
        assert(v@.subrange(0, v@.len() as int) =~= v@);
    }
    out
}

/// Does the entry at `idx` match the lower-cased pattern?
pub(crate) fn matches_entry<F: LogItemFormatter>(
    formatter: &F,
    raw_logs: &Vec<LogItem>,
    idx: usize,
    pat: &Vec<char>,
    detail_level: u8,
) -> (r: bool)
    requires
        (idx as int) < raw_logs@.len(),
    ensures
        r == entry_matches(texts_of(formatter, raw_logs@, detail_level)[idx as int], pat@),
{
    let text = formatter.get_searchable_text(&raw_logs[idx], detail_level);
    let tc = str_chars(text.as_str());
    let lowered = lower_chars(&tc);
    contains_chars(&lowered, pat)
}

/// Sequential filtering for small search spaces.
fn filter_sequential<F: LogItemFormatter>(
    formatter: &F,
    raw_logs: &Vec<LogItem>,
    space: &Vec<usize>,
    pat: &Vec<char>,
    detail_level: u8,
) -> (r: Vec<usize>)
    requires
        forall|k: int| 0 <= k < space@.len() ==> (#[trigger] space@[k] as int) < raw_logs@.len(),
    ensures
        r@ == matching(space@, texts_of(formatter, raw_logs@, detail_level), pat@),
{
    let ghost texts = texts_of(formatter, raw_logs@, detail_level);
    let ghost pred = |idx: usize| entry_matches(texts[idx as int], pat@);
    let mut out: Vec<usize> = Vec::new();
    let mut k: usize = 0;
    proof {
        reveal(Seq::filter);
        assert(space@.subrange(0, 0) =~= Seq::<usize>::empty());
        assert(out@ =~= space@.subrange(0, 0).filter(pred));
    }
    while k < space.len()
        invariant
            0 <= k <= space@.len(),
            texts == texts_of(formatter, raw_logs@, detail_level),
            pred == (|idx: usize| entry_matches(texts[idx as int], pat@)),
            forall|j: int| 0 <= j < space@.len() ==> (#[trigger] space@[j] as int) < raw_logs@.len(),
            out@ == space@.subrange(0, k as int).filter(pred),
        decreases space@.len() - k,
    {
        let idx = space[k];
        let m = matches_entry(formatter, raw_logs, idx, pat, detail_level);
        proof {
            reveal(Seq::filter);
            assert(space@.subrange(0, k + 1 as int).drop_last() =~= space@.subrange(0, k as int));
            assert(space@.subrange(0, k + 1 as int).last() == space@[k as int]);
        }
        if m {
            out.push(idx);
        }
        k = k + 1;
    }
    proof {
        assert(space@.subrange(0, space@.len() as int) =~= space@);
    }
    out
}

proof fn lemma_filter_all_true<A>(s: Seq<A>, pred: spec_fn(A) -> bool)
    requires
        forall|k: int| 0 <= k < s.len() ==> pred(#[trigger] s[k]),
    ensures
        s.filter(pred) == s,
    decreases s.len(),
{
    reveal(Seq::filter);
    if s.len() > 0 {
        assert forall|k: int| 0 <= k < s.drop_last().len() implies pred(
            #[trigger] s.drop_last()[k],
        ) by {
            assert(s.drop_last()[k] == s[k]);
        }
        lemma_filter_all_true(s.drop_last(), pred);
        assert(pred(s.last()));
        assert(s.drop_last().push(s.last()) =~= s);
    }
}

proof fn lemma_filter_of_push<A>(s: Seq<A>, x: A, pred: spec_fn(A) -> bool)
    ensures
        s.push(x).filter(pred) == if pred(x) {
            s.filter(pred).push(x)
        } else {
            s.filter(pred)
        },
{
    reveal(Seq::filter);
    assert(s.push(x).drop_last() =~= s);
    assert(s.push(x).last() == x);
}

proof fn lemma_filter_nested<A>(s: Seq<A>, p1: spec_fn(A) -> bool, p2: spec_fn(A) -> bool)
    requires
        forall|x: A| #[trigger] p2(x) ==> p1(x),
    ensures
        s.filter(p1).filter(p2) == s.filter(p2),
    decreases s.len(),
{
    reveal(Seq::filter);
    if s.len() > 0 {
        lemma_filter_nested(s.drop_last(), p1, p2);
        let last = s.last();
        if p1(last) {
            assert(s.filter(p1) == s.drop_last().filter(p1).push(last));
            lemma_filter_of_push(s.drop_last().filter(p1), last, p2);
        } else {
            assert(!p2(last));
            assert(s.filter(p1) == s.drop_last().filter(p1));
            assert(s.filter(p2) == s.drop_last().filter(p2));
        }
    }
}

proof fn lemma_filter_agree<A>(s: Seq<A>, p1: spec_fn(A) -> bool, p2: spec_fn(A) -> bool)
    requires
        forall|k: int| 0 <= k < s.len() ==> p1(#[trigger] s[k]) == p2(s[k]),
    ensures
        s.filter(p1) == s.filter(p2),
    decreases s.len(),
{
    reveal(Seq::filter);
    if s.len() > 0 {
        assert forall|k: int| 0 <= k < s.drop_last().len() implies p1(#[trigger] s.drop_last()[k])
            == p2(s.drop_last()[k]) by {
            assert(s.drop_last()[k] == s[k]);
        }
        lemma_filter_agree(s.drop_last(), p1, p2);
        assert(s.last() == s[s.len() - 1]);
    }
}

/// An empty pattern matches every entry.
proof fn lemma_empty_query_matches_all(texts: Seq<Seq<char>>)
    ensures
        matched_indices(texts, Seq::empty()) == full_range(texts.len() as int),
{
    let pat = lower_view(Seq::empty());
    assert(pat =~= Seq::<char>::empty());
    let full = full_range(texts.len() as int);
    let pred = |idx: usize| entry_matches(texts[idx as int], pat);
    assert forall|k: int| 0 <= k < full.len() implies pred(#[trigger] full[k]) by {
        let t = lower_view(texts[full[k] as int]);
        assert(crate::text::match_at(t, pat, 0));
    }
    lemma_filter_all_true(full, pred);
}

/// Monotonic filtering: extending the query never matches an entry the
/// shorter query missed, so the match set of `q1 + suffix` is contained in
/// the match set of `q1`.
pub proof fn lemma_filter_monotonic(texts: Seq<Seq<char>>, q1: Seq<char>, q2: Seq<char>)
    requires
        is_prefix(q1, q2),
    ensures
        forall|x: usize|
            matched_indices(texts, q2).contains(x) ==> matched_indices(texts, q1).contains(x),
{
    let suffix = q2.skip(q1.len() as int);
    assert(q2 =~= q1 + suffix);
    lemma_lower_append(q1, suffix);
    let full = full_range(texts.len() as int);
    let p1 = |idx: usize| entry_matches(texts[idx as int], lower_view(q1));
    let p2 = |idx: usize| entry_matches(texts[idx as int], lower_view(q2));
    assert forall|x: usize| matched_indices(texts, q2).contains(x) implies matched_indices(
        texts,
        q1,
    ).contains(x) by {
        let m2 = matched_indices(texts, q2);
        let k = choose|k: int| 0 <= k && k < m2.len() && m2[k] == x;
        full.lemma_filter_pred(p2, k);
        assert(entry_matches(texts[x as int], lower_view(q2)));
        lemma_filter_elems_in(full, p2);
        assert(full.contains(x));
        let j = choose|j: int| 0 <= j && j < full.len() && full[j] == x;
        assert((x as int) < texts.len());
        lemma_has_sub_of_concat(lower_view(texts[x as int]), lower_view(q1), lower_view(suffix));
        assert(p1(x));
        assert(full[x as int] == x);
        full.lemma_filter_contains(p1, x as int);
    }
}

/// The cache, when the incremental path could use it, holds precisely the
/// match set of its query.  An empty cache is vacuously sound.
pub open spec fn cache_sound(cq: Seq<char>, cr: Seq<usize>, texts: Seq<Seq<char>>) -> bool {
    cq.len() > 0 && cr.len() > 0 ==> cr == matched_indices(texts, cq)
}

/// Why incremental narrowing is sound: when the cache is sound, a filter
/// over the narrowed search space returns the exact match set of the new
/// query — for every new query, extension of the cached one or not — and
/// leaves a sound cache behind.
pub proof fn lemma_incremental_sound(
    cq: Seq<char>,
    cr: Seq<usize>,
    texts: Seq<Seq<char>>,
    q: Seq<char>,
)
    requires
        cache_sound(cq, cr, texts),
    ensures
        filter_result(cq, cr, texts, q) == matched_indices(texts, q),
        cache_sound(q, filter_cache_after(filter_result(cq, cr, texts, q), q), texts),
{
    let full = full_range(texts.len() as int);
    if q.len() == 0 {
        assert(q =~= Seq::<char>::empty());
        lemma_empty_query_matches_all(texts);
    } else if cq.len() > 0 && is_prefix(cq, q) && cr.len() > 0 {
        let p_cq = |idx: usize| entry_matches(texts[idx as int], lower_view(cq));
        let p_q = |idx: usize| entry_matches(texts[idx as int], lower_view(q));
        let suffix = q.skip(cq.len() as int);
        assert(q =~= cq + suffix);
        lemma_lower_append(cq, suffix);
        assert forall|x: usize| #[trigger] p_q(x) implies p_cq(x) by {
            lemma_has_sub_of_concat(lower_view(texts[x as int]), lower_view(cq), lower_view(
                suffix,
            ));
        }
        lemma_filter_nested(full, p_cq, p_q);
        assert(cr == full.filter(p_cq));
        assert(matching(cr, texts, lower_view(q)) == full.filter(p_cq).filter(p_q));
    } else {
    }
}

/// Idempotence: with a sound cache, filtering twice with the same query over
/// the same entries yields the identical index list both times.
pub proof fn lemma_filter_idempotent(
    cq: Seq<char>,
    cr: Seq<usize>,
    texts: Seq<Seq<char>>,
    q: Seq<char>,
)
    requires
        cache_sound(cq, cr, texts),
    ensures
        ({
            let first = filter_result(cq, cr, texts, q);
            let cache1 = filter_cache_after(first, q);
            filter_result(q, cache1, texts, q) == first
        }),
{
    lemma_incremental_sound(cq, cr, texts, q);
    let first = filter_result(cq, cr, texts, q);
    let cache1 = filter_cache_after(first, q);
    lemma_incremental_sound(q, cache1, texts, q);
}

/// Incremental/full equivalence: with an unchanged query whose cache is the
/// exact match set of the first `old_count` entries, filtering only the new
/// entries and appending gives the same index list as a fresh full filter
/// over the whole extended entry list.
pub proof fn lemma_incremental_full_equivalence(
    texts: Seq<Seq<char>>,
    old_count: int,
    q: Seq<char>,
    cr: Seq<usize>,
)
    requires
        0 <= old_count <= texts.len(),
        cr == matched_indices(texts.take(old_count), q),
    ensures
        filter_new_result(q, cr, texts, old_count, q) == matched_indices(texts, q),
{
    let texts_old = texts.take(old_count);
    if old_count >= texts.len() {
        assert(texts_old =~= texts);
    } else if q.len() == 0 {
        lemma_empty_query_matches_all(texts);
    } else {
        let pat = lower_view(q);
        let old_full = full_range(old_count);
        let old_pred = |idx: usize| entry_matches(texts_old[idx as int], pat);
        let new_pred = |idx: usize| entry_matches(texts[idx as int], pat);
        assert(cr == old_full.filter(old_pred));
        assert forall|k: int| 0 <= k < old_full.len() implies old_pred(#[trigger] old_full[k])
            == new_pred(old_full[k]) by {
            assert(old_full[k] == k as usize);
            assert(texts_old[k] == texts[k]);
        }
        lemma_filter_agree(old_full, old_pred, new_pred);
        let tail = range_indices_view(old_count, texts.len() as int);
        assert(full_range(texts.len() as int) =~= old_full + tail);
        Seq::filter_distributes_over_add(old_full, tail, new_pred);
        assert(matched_indices(texts, q) == old_full.filter(new_pred) + tail.filter(new_pred));
        assert(filter_new_result(q, cr, texts, old_count, q) == cr + tail.filter(new_pred));
    }
}

/// Relies on rayon's parallel iterator over a slice: `filter` keeps exactly
/// the items the predicate accepts, and collecting into a `Vec` preserves
/// their original order.  The predicate is the verified `matches_entry`.
#[verifier::external_body]
fn filter_parallel<F: LogItemFormatter + Sync>(
    formatter: &F,
    raw_logs: &Vec<LogItem>,
    space: &Vec<usize>,
    pat: &Vec<char>,
    detail_level: u8,
) -> (r: Vec<usize>)
    requires
        forall|k: int| 0 <= k < space@.len() ==> (#[trigger] space@[k] as int) < raw_logs@.len(),
    ensures
        r@ == matching(space@, texts_of(formatter, raw_logs@, detail_level), pat@),
{
    space.par_iter().filter(
        |idx: &&usize| matches_entry(formatter, raw_logs, **idx, pat, detail_level),
    ).copied().collect()
}

} // verus!
