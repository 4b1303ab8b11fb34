//! The Android logcat decoder: the `-v long` format's bracketed header line
//! `[ date time pid:tid LEVEL/TAG ]` followed by message lines.  A second
//! decoder keeps only entries tagged as effect output whose message embeds
//! structured content, and hands that to the reassembler.

use vstd::prelude::*;

use crate::formatter::LogItemFormatter;
use crate::formatter::LogParser;
use crate::log_item::LogItem;
use crate::log_item::ItemModel;
use crate::log_item::item_obeys;
use crate::content_lines::split_lines;
use crate::content_lines::split_lines_chars;
use crate::reassembler::run_end;
use crate::reassembler::delim_at;
use crate::reassembler::delim_at_exec;
use crate::reassembler::reassembled;
use crate::reassembler::process_delta;
use crate::render::shorten_view;
use crate::render::shorten_content;
use crate::render::bracketed;
use crate::render::meta_or_empty;
use crate::render::meta_chars;
use crate::render::build_preview;
use crate::text::is_wsp_c;
use crate::text::wsp_char;
use crate::text::trim_view;
use crate::text::trim_chars;
use crate::text::sub_chars;
use crate::text::extend_chars;
use crate::text::chars_eq;
use crate::text::str_chars;
use crate::text::chars_string;

verus! {

/// Everything but the one sought character.
pub open spec fn not_char(ch: char) -> spec_fn(char) -> bool {
    |c: char| c != ch
}

/// First occurrence of `ch` at or after `start`, or the end of the text.
pub(crate) fn find_char(v: &Vec<char>, start: usize, ch: char) -> (r: usize)
    requires
        start <= v@.len(),
    ensures
        r == run_end(v@, start as int, not_char(ch)),
        start <= r <= v@.len(),
{
    let mut j: usize = start;
    while j < v.len() && v[j] != ch
        invariant
            start <= j <= v@.len(),
            run_end(v@, start as int, not_char(ch)) == run_end(v@, j as int, not_char(ch)),
        decreases v@.len() - j,
    {
        j = j + 1;
    }
    proof {
        crate::reassembler::lemma_run_end(v@, j as int, not_char(ch));
    }
    j
}

/// Index just past the last whitespace strictly before `end`, or zero.
pub open spec fn last_ws_before(s: Seq<char>, end: int) -> int
    decreases end,
    when 0 <= end <= s.len()
{
    if end <= 0 {
        0
    } else if is_wsp_c(s[end - 1]) {
        end
    } else {
        last_ws_before(s, end - 1)
    }
}

fn last_ws_before_exec(v: &Vec<char>, end: usize) -> (r: usize)
    requires
        end <= v@.len(),
    ensures
        r == last_ws_before(v@, end as int),
        r <= end,
{
    let mut j: usize = end;
    while j > 0 && !wsp_char(v[j - 1])
        invariant
            0 <= j <= end <= v@.len(),
            last_ws_before(v@, end as int) == last_ws_before(v@, j as int),
        decreases j,
    {
        j = j - 1;
    }
    j
}

/// Lines joined back with single newlines.
pub open spec fn join_nl(ls: Seq<Seq<char>>) -> Seq<char>
    decreases ls.len(),
{
    if ls.len() == 0 {
        Seq::empty()
    } else if ls.len() == 1 {
        ls[0]
    } else {
        ls[0] + seq!['\n'] + join_nl(ls.drop_first())
    }
}

proof fn lemma_join_nl_push(a: Seq<Seq<char>>, x: Seq<char>)
    ensures
        join_nl(a.push(x)) == if a.len() == 0 {
            x
        } else {
            join_nl(a) + seq!['\n'] + x
        },
    decreases a.len(),
{
    if a.len() == 0 {
        assert(a.push(x)[0] == x);
        assert(a.push(x).len() == 1);
    } else {
        assert(a.push(x)[0] == a[0]);
        assert(a.push(x).drop_first() =~= a.drop_first().push(x));
        lemma_join_nl_push(a.drop_first(), x);
        if a.len() == 1 {
            assert(a.drop_first().len() == 0);
            assert(join_nl(a.push(x)) == a[0] + seq!['\n'] + x);
            assert(join_nl(a) == a[0]);
        } else {
            assert(join_nl(a) + seq!['\n'] + x =~= a[0] + seq!['\n'] + (join_nl(a.drop_first())
                + seq!['\n'] + x));
        }
    }
}

fn join_tail_lines(lines: &Vec<Vec<char>>) -> (r: Vec<char>)
    requires
        lines@.len() >= 1,
    ensures
        r@ == join_nl(lines@.map_values(|l: Vec<char>| l@).skip(1)),
{
    let ghost to_view = |l: Vec<char>| l@;
    let ghost tail = lines@.map_values(to_view).skip(1);
    let mut out: Vec<char> = Vec::new();
    let mut k: usize = 1;
    while k < lines.len()
        invariant
            1 <= k <= lines@.len(),
            to_view == (|l: Vec<char>| l@),
            tail == lines@.map_values(to_view).skip(1),
            tail.len() == lines@.len() - 1,
            out@ == join_nl(tail.take(k - 1)),
        decreases lines@.len() - k,
    {
        proof {
            assert(tail[k - 1] == lines@.map_values(to_view)[k as int]);
            assert(tail[k - 1] == lines@[k as int]@);
            assert(tail.take(k as int) =~= tail.take(k - 1).push(tail[k - 1]));
            lemma_join_nl_push(tail.take(k - 1), tail[k - 1]);
        }
        if k > 1 {
            out.push('\n');
        }
        extend_chars(&mut out, &lines[k]);
        proof {
            if k == 1 {
                assert(tail.take(0).len() == 0);
                assert(out@ =~= join_nl(tail.take(1)));
            } else {
                assert(out@ =~= join_nl(tail.take(k - 1)) + seq!['\n'] + tail[k - 1]);
                assert(out@ =~= join_nl(tail.take(k as int)));
            }
        }
        k = k + 1;
    }
    proof {
        assert(tail.take(tail.len() as int) =~= tail);
    }
    out
}

/// The entry an Android raw block passes through unparsed.
pub open spec fn android_fallback(raw: Seq<char>) -> ItemModel {
    ItemModel { time: None, level: None, origin: None, tag: None, content: raw, raw: raw }
}

/// What `AndroidParser::parse` yields: `None` only on empty input; a header
/// line `[ ... LEVEL/TAG ]` gives level and tag metadata and the remaining
/// lines as content; anything malformed passes through unparsed.
pub open spec fn android_parse_model(raw: Seq<char>) -> Option<ItemModel> {
    let lines = split_lines(raw);
    if lines.len() == 0 {
        None
    } else {
        let first = lines[0];
        if first.len() < 1 || first[0] != '[' || first.last() != ']' {
            Some(android_fallback(raw))
        } else {
            let header = first.subrange(1, first.len() - 1);
            let slash = run_end(header, 0, not_char('/'));
            if slash >= header.len() {
                Some(android_fallback(raw))
            } else {
                let level_start = last_ws_before(header, slash);
                let level = trim_view(header.subrange(level_start, slash));
                let tag = trim_view(header.subrange(slash + 1, header.len() as int));
                let message = join_nl(lines.skip(1));
                Some(
                    ItemModel {
                        time: None,
                        level: Some(level),
                        origin: None,
                        tag: Some(tag),
                        content: message,
                        raw: raw,
                    },
                )
            }
        }
    }
}

fn android_fallback_item(raw_log: &str) -> (r: LogItem)
    ensures
        item_obeys(r, android_fallback(raw_log@)),
{
    let item = LogItem::new(raw_log.to_owned(), raw_log.to_owned());
    proof {
        crate::log_item::lemma_meta_get_empty("level"@);
        crate::log_item::lemma_meta_get_empty("origin"@);
        crate::log_item::lemma_meta_get_empty("tag"@);
    }
    item
}

/// Raw preservation: every entry the Android decoder accepts carries the
/// raw string it was derived from, verbatim.
pub proof fn lemma_android_raw_preserved(raw: Seq<char>)
    ensures
        match android_parse_model(raw) {
            Some(m) => m.raw == raw,
            None => true,
        },
{
}

/// Decoder for Android `adb logcat -v long` blocks.
pub struct AndroidParser;

impl AndroidParser {
    pub fn new() -> AndroidParser {
        AndroidParser
    }
}

/// The fields an Android preview shows at a detail level, in order.
pub open spec fn android_fields(item: LogItem, detail_level: u8) -> Seq<Seq<char>> {
    let all = seq![
        item.time@,
        meta_or_empty(item, "level"@),
        meta_or_empty(item, "origin"@),
        meta_or_empty(item, "tag"@),
    ];
    if detail_level == 0 {
        Seq::empty()
    } else if detail_level == 1 {
        all.take(1)
    } else if detail_level == 2 {
        all.take(2)
    } else if detail_level == 3 {
        all.take(3)
    } else {
        all
    }
}

pub open spec fn android_preview(item: LogItem, detail_level: u8) -> Seq<char> {
    bracketed(android_fields(item, detail_level), shorten_view(item.content@))
}

fn android_fields_exec(item: &LogItem, detail_level: u8) -> (r: Vec<Vec<char>>)
    ensures
        r@.map_values(|f: Vec<char>| f@) == android_fields(*item, detail_level),
{
    let ghost to_view = |f: Vec<char>| f@;
    let mut all: Vec<Vec<char>> = Vec::new();
    all.push(str_chars(item.time.as_str()));
    all.push(meta_chars(item, "level"));
    all.push(meta_chars(item, "origin"));
    all.push(meta_chars(item, "tag"));
    let count: usize = if detail_level == 0 {
        0
    } else if detail_level >= 4 {
        4
    } else {
        detail_level as usize
    };
    let mut out: Vec<Vec<char>> = Vec::new();
    let mut k: usize = 0;
    while k < count
        invariant
            0 <= k <= count <= all@.len(),
            all@.len() == 4,
            to_view == (|f: Vec<char>| f@),
            out@.len() == k,
            forall|j: int| 0 <= j < k ==> to_view(#[trigger] out@[j]) == to_view(all@[j]),
        decreases count - k,
    {
        let f = &all[k];
        out.push(sub_chars(f, 0, f.len()));
        proof {
            assert(out@[k as int]@ =~= all@[k as int]@.subrange(0, all@[k as int]@.len() as int));
            assert(out@[k as int]@ =~= all@[k as int]@);
        }
        k = k + 1;
    }
    proof {
        let fields = android_fields(*item, detail_level);
        assert(all@.map_values(to_view) =~= seq![
            item.time@,
            meta_or_empty(*item, "level"@),
            meta_or_empty(*item, "origin"@),
            meta_or_empty(*item, "tag"@),
        ]);
        assert forall|j: int| 0 <= j < out@.len() implies out@.map_values(to_view)[j]
            == fields[j] by {
            assert(out@.map_values(to_view)[j] == to_view(out@[j]));
            assert(fields[j] == all@.map_values(to_view)[j]);
        }
        assert(out@.map_values(to_view) =~= fields);
    }
    out
}

impl LogItemFormatter for AndroidParser {
    open spec fn preview_model(&self, item: LogItem, detail_level: u8) -> Seq<char> {
        android_preview(item, detail_level)
    }

    open spec fn searchable_model(&self, item: LogItem, detail_level: u8) -> Seq<char> {
        android_preview(item, detail_level)
    }

    open spec fn yank_model(&self, item: LogItem) -> Seq<char> {
        item.time@ + seq![' '] + item.raw_content@
    }

    open spec fn max_level_model(&self) -> u8 {
        4
    }

    fn format_preview(&self, item: &LogItem, detail_level: u8) -> (r: String) {
        let fields = android_fields_exec(item, detail_level);
        let short = shorten_content(item.content.as_str());
        let short_chars = str_chars(short.as_str());
        build_preview(&fields, &short_chars)
    }

    fn get_searchable_text(&self, item: &LogItem, detail_level: u8) -> (r: String) {
        self.format_preview(item, detail_level)
    }

    fn make_yank_content(&self, item: &LogItem) -> (r: String) {
        let mut out = str_chars(item.time.as_str());
        out.push(' ');
        let raw = str_chars(item.raw_content.as_str());
        extend_chars(&mut out, &raw);
        proof {
            assert(item.time@.push(' ') =~= item.time@ + seq![' ']);
        }
        chars_string(&out)
    }

    fn max_detail_level(&self) -> (r: u8) {
        4
    }
}

impl LogParser for AndroidParser {
    open spec fn parse_model(&self, raw: Seq<char>) -> Option<ItemModel> {
        android_parse_model(raw)
    }

    fn parse(&self, raw_log: &str) -> (r: Option<LogItem>) {
        let v = str_chars(raw_log);
        let lines = split_lines_chars(&v);
        let ghost to_view = |l: Vec<char>| l@;
        if lines.len() == 0 {
            return None;
        }
        let first = &lines[0];
        proof {
            assert(lines@.map_values(to_view)[0] == lines@[0]@);
        }
        if first.len() < 1 || first[0] != '[' || first[first.len() - 1] != ']' {
            return Some(android_fallback_item(raw_log));
        }
        let header = sub_chars(first, 1, first.len() - 1);
        let slash = find_char(&header, 0, '/');
        if slash >= header.len() {
            return Some(android_fallback_item(raw_log));
        }
        let level_start = last_ws_before_exec(&header, slash);
        let level_raw = sub_chars(&header, level_start, slash);
        let level = trim_chars(&level_raw);
        let tag_raw = sub_chars(&header, slash + 1, header.len());
        let tag = trim_chars(&tag_raw);
        let message = join_tail_lines(&lines);
        let level_s = chars_string(&level);
        let tag_s = chars_string(&tag);
        let item = LogItem::new(chars_string(&message), raw_log.to_owned()).with_metadata(
            "level",
            level_s.as_str(),
        ).with_metadata("tag", tag_s.as_str());
        proof {
            crate::log_item::lemma_meta_get_empty("level"@);
            crate::log_item::lemma_meta_get_empty("origin"@);
            crate::log_item::lemma_meta_get_empty("tag"@);
            crate::log_item::lemma_meta_keys_distinct();
        }
        Some(item)
    }
}

/// Is a structured item delimiter present anywhere in the text?
pub(crate) fn has_delim(v: &Vec<char>) -> (r: bool)
    ensures
        r == exists|i: int| delim_at(v@, i),
{
    let mut i: usize = 0;
    while i < v.len()
        invariant
            0 <= i <= v@.len(),
            forall|j: int| 0 <= j < i ==> !delim_at(v@, j),
        decreases v@.len() - i,
    {
        if delim_at_exec(v, i) {
            return true;
        }
        i = i + 1;
    }
    proof {
        assert forall|j: int| !delim_at(v@, j) by {
            if 0 <= j < v@.len() {
            } else {
                assert(!delim_at(v@, j));
            }
        }
    }
    false
}

/// What `AndroidEffectParser::parse` yields: only blocks whose tag marks
/// effect output and whose message embeds a structured delimiter survive;
/// they are reassembled and the first structured entry is taken.
pub open spec fn android_effect_parse_model(raw: Seq<char>) -> Option<ItemModel> {
    match android_parse_model(raw) {
        None => None,
        Some(m) => {
            if m.tag != Some("[Effect]"@) && m.tag != Some("CKE-Editor"@) {
                None
            } else if !(exists|i: int| delim_at(raw, i)) {
                None
            } else {
                let models = reassembled(m.content);
                if models.len() > 0 {
                    Some(models[0].1)
                } else {
                    None
                }
            }
        },
    }
}

/// Decoder that keeps only structured effect entries from Android logcat.
pub struct AndroidEffectParser {
    full_parser: AndroidParser,
}

impl AndroidEffectParser {
    pub fn new() -> AndroidEffectParser {
        AndroidEffectParser { full_parser: AndroidParser }
    }
}

impl LogItemFormatter for AndroidEffectParser {
    open spec fn preview_model(&self, item: LogItem, detail_level: u8) -> Seq<char> {
        android_preview(item, detail_level)
    }

    open spec fn searchable_model(&self, item: LogItem, detail_level: u8) -> Seq<char> {
        android_preview(item, detail_level)
    }

    open spec fn yank_model(&self, item: LogItem) -> Seq<char> {
        item.time@ + seq![' '] + item.raw_content@
    }

    open spec fn max_level_model(&self) -> u8 {
        4
    }

    fn format_preview(&self, item: &LogItem, detail_level: u8) -> (r: String) {
        self.full_parser.format_preview(item, detail_level)
    }

    fn get_searchable_text(&self, item: &LogItem, detail_level: u8) -> (r: String) {
        self.full_parser.get_searchable_text(item, detail_level)
    }

    fn make_yank_content(&self, item: &LogItem) -> (r: String) {
        self.full_parser.make_yank_content(item)
    }

    fn max_detail_level(&self) -> (r: u8) {
        4
    }
}

impl LogParser for AndroidEffectParser {
    open spec fn parse_model(&self, raw: Seq<char>) -> Option<ItemModel> {
        android_effect_parse_model(raw)
    }

    fn parse(&self, raw_log: &str) -> (r: Option<LogItem>) {
        let parsed = match self.full_parser.parse(raw_log) {
            Some(p) => p,
            None => {
                return None;
            },
        };
        let ghost m = android_parse_model(raw_log@).unwrap();
        let tag_chars = meta_chars(&parsed, "tag");
        let effect_lit = str_chars("[Effect]");
        let editor_lit = str_chars("CKE-Editor");
        let allowed = chars_eq(&tag_chars, &effect_lit) || chars_eq(&tag_chars, &editor_lit);
        proof {
            if m.tag is None {
                reveal_strlit("[Effect]");
                reveal_strlit("CKE-Editor");
                assert("[Effect]"@.len() == 8);
                assert("CKE-Editor"@.len() == 10);
            }
        }
        if !allowed {
            return None;
        }
        let v = str_chars(raw_log);
        if !has_delim(&v) {
            return None;
        }
        let mut items = process_delta(parsed.content.as_str());
        if items.len() > 0 {
            let first = items.remove(0);
            proof {
                assert(item_obeys(first, reassembled(m.content)[0].1));
            }
            Some(first)
        } else {
            None
        }
    }
}

} // verus!
