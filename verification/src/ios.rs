//! The iOS syslog decoders: the plain parser splits the syslog preamble
//! `Mon DD HH:MM:SS host process[pid] <Level>: message` into tag, level and
//! message; the effect parser strips that preamble and hands the embedded
//! structured content to the reassembler.

use vstd::prelude::*;

use crate::formatter::LogItemFormatter;
use crate::formatter::LogParser;
use crate::log_item::LogItem;
use crate::log_item::ItemModel;
use crate::log_item::item_obeys;
use crate::reassembler::run_end;
use crate::reassembler::delim_at;
use crate::reassembler::reassembled;
use crate::reassembler::process_delta;
use crate::render::shorten_view;
use crate::render::shorten_content;
use crate::render::bracketed;
use crate::render::meta_or_empty;
use crate::render::meta_chars;
use crate::render::build_preview;
use crate::android::not_char;
use crate::android::find_char;
use crate::android::has_delim;
use crate::text::trim_view;
use crate::text::trim_chars;
use crate::text::sub_chars;
use crate::text::str_chars;
use crate::text::chars_string;

verus! {

/// First position at or after `i` where `a` is immediately followed by `b`,
/// or the end of the text.
pub open spec fn pair_pos(s: Seq<char>, i: int, a: char, b: char) -> int
    decreases s.len() - i,
    when 0 <= i <= s.len()
{
    if i >= s.len() {
        i
    } else if i + 1 < s.len() && s[i] == a && s[i + 1] == b {
        i
    } else {
        pair_pos(s, i + 1, a, b)
    }
}

proof fn lemma_pair_pos_bounds(s: Seq<char>, i: int, a: char, b: char)
    requires
        0 <= i <= s.len(),
    ensures
        i <= pair_pos(s, i, a, b) <= s.len(),
        pair_pos(s, i, a, b) < s.len() ==> pair_pos(s, i, a, b) + 1 < s.len() && s[pair_pos(
            s,
            i,
            a,
            b,
        )] == a && s[pair_pos(s, i, a, b) + 1] == b,
    decreases s.len() - i,
{
    if i < s.len() && !(i + 1 < s.len() && s[i] == a && s[i + 1] == b) {
        lemma_pair_pos_bounds(s, i + 1, a, b);
    }
}

fn pair_pos_exec(v: &Vec<char>, start: usize, a: char, b: char) -> (r: usize)
    requires
        start <= v@.len(),
    ensures
        r == pair_pos(v@, start as int, a, b),
        start <= r <= v@.len(),
{
    let mut j: usize = start;
    while j < v.len() && !(j + 1 < v.len() && v[j] == a && v[j + 1] == b)
        invariant
            start <= j <= v@.len(),
            v@.len() == v.len(),
            pair_pos(v@, start as int, a, b) == pair_pos(v@, j as int, a, b),
        decreases v@.len() - j,
    {
        j = j + 1;
    }
    proof {
        lemma_pair_pos_bounds(v@, j as int, a, b);
    }
    j
}

/// The entry an iOS line passes through unparsed.
pub open spec fn ios_fallback(raw: Seq<char>) -> ItemModel {
    ItemModel { time: None, level: None, origin: None, tag: None, content: raw, raw: raw }
}

/// What `IosFullParser::parse` yields.  The line is split at its first four
/// spaces; the fourth piece, cut at the first `[` or `(`, names the tag;
/// the remainder holds `<Level>:` and the message.  A line with fewer
/// pieces passes through unparsed.
pub open spec fn ios_parse_model(raw: Seq<char>) -> Option<ItemModel> {
    let p0 = run_end(raw, 0, not_char(' '));
    if p0 >= raw.len() {
        Some(ios_fallback(raw))
    } else {
        let p1 = run_end(raw, p0 + 1, not_char(' '));
        if p1 >= raw.len() {
            Some(ios_fallback(raw))
        } else {
            let p2 = run_end(raw, p1 + 1, not_char(' '));
            if p2 >= raw.len() {
                Some(ios_fallback(raw))
            } else {
                let p3 = run_end(raw, p2 + 1, not_char(' '));
                if p3 >= raw.len() {
                    Some(ios_fallback(raw))
                } else {
                    ios_parsed_model(raw, p2, p3)
                }
            }
        }
    }
}

/// The parsed form once four spaces were found, `p2` and `p3` the third and
/// fourth of them.
pub open spec fn ios_parsed_model(raw: Seq<char>, p2: int, p3: int) -> Option<ItemModel> {
    {
        let part3 = raw.subrange(p2 + 1, p3);
        let part4 = raw.subrange(p3 + 1, raw.len() as int);
        let prefix1 = part3.take(run_end(part3, 0, not_char('[')));
        let tag = prefix1.take(run_end(prefix1, 0, not_char('(')));
        let lt = run_end(part4, 0, not_char('<'));
        let g = pair_pos(part4, 0, '>', ':');
        let matched = lt < part4.len() && g < part4.len() && g >= lt + 1;
        let level = if matched {
            part4.subrange(lt + 1, g)
        } else {
            Seq::empty()
        };
        let content = if matched {
            trim_view(part4.subrange(g + 2, part4.len() as int))
        } else {
            part4
        };
        Some(
            ItemModel {
                time: None,
                level: if level.len() > 0 {
                    Some(level)
                } else {
                    None
                },
                origin: None,
                tag: if tag.len() > 0 {
                    Some(tag)
                } else {
                    None
                },
                content: content,
                raw: raw,
            },
        )
    }
}

/// Raw preservation: every entry the plain iOS decoder accepts carries the
/// raw string it was derived from, verbatim.
pub proof fn lemma_ios_raw_preserved(raw: Seq<char>)
    ensures
        match ios_parse_model(raw) {
            Some(m) => m.raw == raw,
            None => true,
        },
{
}

/// Decoder for plain iOS syslog lines.
pub struct IosFullParser;

impl IosFullParser {
    pub fn new() -> IosFullParser {
        IosFullParser
    }
}

/// The fields an iOS preview shows at a detail level, in order.
pub open spec fn ios_fields(item: LogItem, detail_level: u8) -> Seq<Seq<char>> {
    let all = seq![item.time@, meta_or_empty(item, "tag"@), meta_or_empty(item, "level"@)];
    if detail_level == 0 {
        Seq::empty()
    } else if detail_level == 1 {
        all.take(1)
    } else if detail_level == 2 {
        all.take(2)
    } else {
        all
    }
}

pub open spec fn ios_preview(item: LogItem, detail_level: u8) -> Seq<char> {
    bracketed(ios_fields(item, detail_level), shorten_view(item.content@))
}

fn ios_fields_exec(item: &LogItem, detail_level: u8) -> (r: Vec<Vec<char>>)
    ensures
        r@.map_values(|f: Vec<char>| f@) == ios_fields(*item, detail_level),
{
    let ghost to_view = |f: Vec<char>| f@;
    let mut all: Vec<Vec<char>> = Vec::new();
    all.push(str_chars(item.time.as_str()));
    all.push(meta_chars(item, "tag"));
    all.push(meta_chars(item, "level"));
    let count: usize = if detail_level == 0 {
        0
    } else if detail_level >= 3 {
        3
    } else {
        detail_level as usize
    };
    let mut out: Vec<Vec<char>> = Vec::new();
    let mut k: usize = 0;
    while k < count
        invariant
            0 <= k <= count <= all@.len(),
            all@.len() == 3,
            to_view == (|f: Vec<char>| f@),
            out@.len() == k,
            forall|j: int| 0 <= j < k ==> to_view(#[trigger] out@[j]) == to_view(all@[j]),
        decreases count - k,
    {
        let f = &all[k];
        out.push(sub_chars(f, 0, f.len()));
        proof {
            assert(out@[k as int]@ =~= all@[k as int]@.subrange(0, all@[k as int]@.len() as int));
            assert(out@[k as int]@ =~= all@[k as int]@);
        }
        k = k + 1;
    }
    proof {
        let fields = ios_fields(*item, detail_level);
        assert(all@.map_values(to_view) =~= seq![
            item.time@,
            meta_or_empty(*item, "tag"@),
            meta_or_empty(*item, "level"@),
        ]);
        assert forall|j: int| 0 <= j < out@.len() implies out@.map_values(to_view)[j]
            == fields[j] by {
            assert(out@.map_values(to_view)[j] == to_view(out@[j]));
            assert(fields[j] == all@.map_values(to_view)[j]);
        }
        assert(out@.map_values(to_view) =~= fields);
    }
    out
}

impl LogItemFormatter for IosFullParser {
    open spec fn preview_model(&self, item: LogItem, detail_level: u8) -> Seq<char> {
        ios_preview(item, detail_level)
    }

    open spec fn searchable_model(&self, item: LogItem, detail_level: u8) -> Seq<char> {
        ios_preview(item, detail_level)
    }

    open spec fn yank_model(&self, item: LogItem) -> Seq<char> {
        item.raw_content@
    }

    open spec fn max_level_model(&self) -> u8 {
        3
    }

    fn format_preview(&self, item: &LogItem, detail_level: u8) -> (r: String) {
        let fields = ios_fields_exec(item, detail_level);
        let short = shorten_content(item.content.as_str());
        let short_chars = str_chars(short.as_str());
        build_preview(&fields, &short_chars)
    }

    fn get_searchable_text(&self, item: &LogItem, detail_level: u8) -> (r: String) {
        self.format_preview(item, detail_level)
    }

    fn make_yank_content(&self, item: &LogItem) -> (r: String) {
        item.raw_content.clone()
    }

    fn max_detail_level(&self) -> (r: u8) {
        3
    }
}

fn ios_fallback_item(raw_log: &str) -> (r: LogItem)
    ensures
        item_obeys(r, ios_fallback(raw_log@)),
{
    let item = LogItem::new(raw_log.to_owned(), raw_log.to_owned());
    proof {
        crate::log_item::lemma_meta_get_empty("level"@);
        crate::log_item::lemma_meta_get_empty("origin"@);
        crate::log_item::lemma_meta_get_empty("tag"@);
    }
    item
}

impl LogParser for IosFullParser {
    open spec fn parse_model(&self, raw: Seq<char>) -> Option<ItemModel> {
        ios_parse_model(raw)
    }

    fn parse(&self, raw_log: &str) -> (r: Option<LogItem>) {
        let v = str_chars(raw_log);
        let p0 = find_char(&v, 0, ' ');
        if p0 >= v.len() {
            return Some(ios_fallback_item(raw_log));
        }
        let p1 = find_char(&v, p0 + 1, ' ');
        if p1 >= v.len() {
            return Some(ios_fallback_item(raw_log));
        }
        let p2 = find_char(&v, p1 + 1, ' ');
        if p2 >= v.len() {
            return Some(ios_fallback_item(raw_log));
        }
        let p3 = find_char(&v, p2 + 1, ' ');
        if p3 >= v.len() {
            return Some(ios_fallback_item(raw_log));
        }
        let part3 = sub_chars(&v, p2 + 1, p3);
        let part4 = sub_chars(&v, p3 + 1, v.len());
        let b1 = find_char(&part3, 0, '[');
        let prefix1 = sub_chars(&part3, 0, b1);
        proof {
            assert(prefix1@ =~= part3@.take(run_end(part3@, 0, not_char('['))));
        }
        let b2 = find_char(&prefix1, 0, '(');
        let tag = sub_chars(&prefix1, 0, b2);
        proof {
            assert(tag@ =~= prefix1@.take(run_end(prefix1@, 0, not_char('('))));
        }
        let lt = find_char(&part4, 0, '<');
        let g = pair_pos_exec(&part4, 0, '>', ':');
        proof {
            lemma_pair_pos_bounds(part4@, 0, '>', ':');
        }
        let matched = lt < part4.len() && g < part4.len() && g >= lt + 1;
        let level: Vec<char> = if matched {
            sub_chars(&part4, lt + 1, g)
        } else {
            Vec::new()
        };
        let content: Vec<char> = if matched {
            let tail = sub_chars(&part4, g + 2, part4.len());
            trim_chars(&tail)
        } else {
            sub_chars(&part4, 0, part4.len())
        };
        proof {
            if !matched {
                assert(content@ =~= part4@);
            }
        }
        let mut item = LogItem::new(chars_string(&content), raw_log.to_owned());
        proof {
            crate::log_item::lemma_meta_get_empty("level"@);
            crate::log_item::lemma_meta_get_empty("origin"@);
            crate::log_item::lemma_meta_get_empty("tag"@);
            crate::log_item::lemma_meta_keys_distinct();
        }
        if level.len() > 0 {
            let level_s = chars_string(&level);
            item = item.with_metadata("level", level_s.as_str());
        }
        if tag.len() > 0 {
            let tag_s = chars_string(&tag);
            item = item.with_metadata("tag", tag_s.as_str());
        }
        Some(item)
    }
}

/// Where the iOS preamble ends: just past the first `>: ` marker.
pub open spec fn ios_wrapper_end(s: Seq<char>) -> int
    decreases s.len(),
{
    triple_pos(s, 0)
}

/// First position of the literal `>: `, or the end of the text.
pub open spec fn triple_pos(s: Seq<char>, i: int) -> int
    decreases s.len() - i,
    when 0 <= i <= s.len()
{
    if i >= s.len() {
        i
    } else if i + 2 < s.len() && s[i] == '>' && s[i + 1] == ':' && s[i + 2] == ' ' {
        i
    } else {
        triple_pos(s, i + 1)
    }
}

proof fn lemma_triple_pos_bounds(s: Seq<char>, i: int)
    requires
        0 <= i <= s.len(),
    ensures
        i <= triple_pos(s, i) <= s.len(),
        triple_pos(s, i) < s.len() ==> triple_pos(s, i) + 2 < s.len() && s[triple_pos(s, i)] == '>'
            && s[triple_pos(s, i) + 1] == ':' && s[triple_pos(s, i) + 2] == ' ',
    decreases s.len() - i,
{
    if i < s.len() && !(i + 2 < s.len() && s[i] == '>' && s[i + 1] == ':' && s[i + 2] == ' ') {
        lemma_triple_pos_bounds(s, i + 1);
    }
}

/// The text after the iOS preamble, when the `>: ` marker is present.
pub open spec fn spec_strip_ios_wrapper(s: Seq<char>) -> Option<Seq<char>> {
    let g = triple_pos(s, 0);
    if g < s.len() {
        Some(s.subrange(g + 3, s.len() as int))
    } else {
        None
    }
}

/// Strip the syslog preamble up to and including the first `>: `, exposing
/// the embedded structured content; `None` when no marker is present.
pub fn strip_ios_wrapper(ios_log: &str) -> (r: Option<String>)
    ensures
        match r {
            Some(inner) => spec_strip_ios_wrapper(ios_log@) == Some(inner@),
            None => spec_strip_ios_wrapper(ios_log@) is None,
        },
{
    let v = str_chars(ios_log);
    let mut j: usize = 0;
    while j < v.len() && !(v.len() - j > 2 && v[j] == '>' && v[j + 1] == ':' && v[j + 2] == ' ')
        invariant
            0 <= j <= v@.len(),
            v@.len() == v.len(),
            triple_pos(v@, 0) == triple_pos(v@, j as int),
        decreases v@.len() - j,
    {
        j = j + 1;
    }
    proof {
        lemma_triple_pos_bounds(v@, j as int);
    }
    if j < v.len() {
        let inner = sub_chars(&v, j + 3, v.len());
        Some(chars_string(&inner))
    } else {
        None
    }
}

/// What `IosEffectParser::parse` yields: only lines embedding a structured
/// delimiter survive; the preamble is stripped, the rest reassembled, and
/// the first structured entry taken.
pub open spec fn ios_effect_parse_model(raw: Seq<char>) -> Option<ItemModel> {
    if !(exists|i: int| delim_at(raw, i)) {
        None
    } else {
        match spec_strip_ios_wrapper(raw) {
            Some(inner) => {
                let models = reassembled(inner);
                if models.len() > 0 {
                    Some(models[0].1)
                } else {
                    None
                }
            },
            None => None,
        }
    }
}

/// Decoder that keeps only structured effect entries from the iOS syslog.
pub struct IosEffectParser {
    simple_parser: IosFullParser,
}

impl IosEffectParser {
    pub fn new() -> IosEffectParser {
        IosEffectParser { simple_parser: IosFullParser }
    }
}

impl LogItemFormatter for IosEffectParser {
    open spec fn preview_model(&self, item: LogItem, detail_level: u8) -> Seq<char> {
        ios_preview(item, detail_level)
    }

    open spec fn searchable_model(&self, item: LogItem, detail_level: u8) -> Seq<char> {
        ios_preview(item, detail_level)
    }

    open spec fn yank_model(&self, item: LogItem) -> Seq<char> {
        item.raw_content@
    }

    open spec fn max_level_model(&self) -> u8 {
        3
    }

    fn format_preview(&self, item: &LogItem, detail_level: u8) -> (r: String) {
        self.simple_parser.format_preview(item, detail_level)
    }

    fn get_searchable_text(&self, item: &LogItem, detail_level: u8) -> (r: String) {
        self.simple_parser.get_searchable_text(item, detail_level)
    }

    fn make_yank_content(&self, item: &LogItem) -> (r: String) {
        self.simple_parser.make_yank_content(item)
    }

    fn max_detail_level(&self) -> (r: u8) {
        3
    }
}

impl LogParser for IosEffectParser {
    open spec fn parse_model(&self, raw: Seq<char>) -> Option<ItemModel> {
        ios_effect_parse_model(raw)
    }

    fn parse(&self, raw_log: &str) -> (r: Option<LogItem>) {
        let v = str_chars(raw_log);
        if !has_delim(&v) {
            return None;
        }
        match strip_ios_wrapper(raw_log) {
            Some(inner) => {
                let mut items = process_delta(inner.as_str());
                if items.len() > 0 {
                    let first = items.remove(0);
                    proof {
                        let m = spec_strip_ios_wrapper(raw_log@).unwrap();
                        assert(item_obeys(first, reassembled(m)[0].1));
                    }
                    Some(first)
                } else {
                    None
                }
            },
            None => None,
        }
    }
}

} // verus!
