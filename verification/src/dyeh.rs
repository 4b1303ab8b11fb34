//! The DYEH decoder and formatter: parsing delegates to the structured
//! reassembler, previews show `[time] [level] [tag] [origin]` up to the
//! chosen detail level, and the searchable text is exactly the preview.

use vstd::prelude::*;

use crate::formatter::LogItemFormatter;
use crate::formatter::LogParser;
use crate::log_item::LogItem;
use crate::log_item::ItemModel;
use crate::log_item::item_obeys;
use crate::reassembler::reassembled;
use crate::reassembler::process_delta;
use crate::render::shorten_view;
use crate::render::shorten_content;
use crate::render::bracketed;
use crate::render::meta_or_empty;
use crate::render::meta_chars;
use crate::render::build_preview;
use crate::text::str_chars;

verus! {

/// The fields a DYEH preview shows at a detail level, in order.
pub open spec fn dyeh_fields(item: LogItem, detail_level: u8) -> Seq<Seq<char>> {
    let all = seq![
        item.time@,
        meta_or_empty(item, "level"@),
        meta_or_empty(item, "tag"@),
        meta_or_empty(item, "origin"@),
    ];
    if detail_level == 0 {
        Seq::empty()
    } else if detail_level == 1 {
        all.take(1)
    } else if detail_level == 2 {
        all.take(2)
    } else if detail_level == 3 {
        all.take(3)
    } else {
        all
    }
}

/// The DYEH preview: bracketed fields, then the shortened content.
pub open spec fn dyeh_preview(item: LogItem, detail_level: u8) -> Seq<char> {
    bracketed(dyeh_fields(item, detail_level), shorten_view(item.content@))
}

/// What `DyehParser::parse` yields: the first reassembled entry of the raw
/// text, or the raw text passed through unparsed when it holds no
/// structured content.
pub open spec fn dyeh_parse_model(raw: Seq<char>) -> Option<ItemModel> {
    let models = reassembled(raw);
    if models.len() > 0 {
        Some(models[0].1)
    } else {
        Some(
            ItemModel {
                time: None,
                level: None,
                origin: None,
                tag: None,
                content: raw,
                raw: raw,
            },
        )
    }
}

fn dyeh_fields_exec(item: &LogItem, detail_level: u8) -> (r: Vec<Vec<char>>)
    ensures
        r@.map_values(|f: Vec<char>| f@) == dyeh_fields(*item, detail_level),
{
    let ghost to_view = |f: Vec<char>| f@;
    let mut all: Vec<Vec<char>> = Vec::new();
    all.push(str_chars(item.time.as_str()));
    all.push(meta_chars(item, "level"));
    all.push(meta_chars(item, "tag"));
    all.push(meta_chars(item, "origin"));
    let count: usize = if detail_level == 0 {
        0
    } else if detail_level >= 4 {
        4
    } else {
        detail_level as usize
    };
    let mut out: Vec<Vec<char>> = Vec::new();
    let mut k: usize = 0;
    while k < count
        invariant
            0 <= k <= count <= all@.len(),
            all@.len() == 4,
            to_view == (|f: Vec<char>| f@),
            out@.len() == k,
            forall|j: int| 0 <= j < k ==> to_view(#[trigger] out@[j]) == to_view(all@[j]),
        decreases count - k,
    {
        let f = &all[k];
        out.push(crate::text::sub_chars(f, 0, f.len()));
        proof {
            assert(out@[k as int]@ =~= all@[k as int]@.subrange(0, all@[k as int]@.len() as int));
            assert(out@[k as int]@ =~= all@[k as int]@);
        }
        k = k + 1;
    }
    proof {
        let fields = dyeh_fields(*item, detail_level);
        assert(all@.map_values(to_view) =~= seq![
            item.time@,
            meta_or_empty(*item, "level"@),
            meta_or_empty(*item, "tag"@),
            meta_or_empty(*item, "origin"@),
        ]);
        assert forall|j: int| 0 <= j < out@.len() implies out@.map_values(to_view)[j]
            == fields[j] by {
            assert(out@.map_values(to_view)[j] == to_view(out@[j]));
            assert(fields[j] == all@.map_values(to_view)[j]);
        }
        assert(out@.map_values(to_view) =~= fields);
    }
    out
}

/// Raw preservation for the pass-through case: a raw block without
/// structured content becomes one entry carrying that block verbatim.
pub proof fn lemma_dyeh_raw_preserved_passthrough(raw: Seq<char>)
    requires
        reassembled(raw).len() == 0,
    ensures
        dyeh_parse_model(raw) == Some(
            ItemModel { time: None, level: None, origin: None, tag: None, content: raw, raw: raw },
        ),
{
}

/// Decoder for DYEH structured logs.
pub struct DyehParser;

impl DyehParser {
    pub fn new() -> DyehParser {
        DyehParser
    }
}

impl LogItemFormatter for DyehParser {
    open spec fn preview_model(&self, item: LogItem, detail_level: u8) -> Seq<char> {
        dyeh_preview(item, detail_level)
    }

    open spec fn searchable_model(&self, item: LogItem, detail_level: u8) -> Seq<char> {
        dyeh_preview(item, detail_level)
    }

    open spec fn yank_model(&self, item: LogItem) -> Seq<char> {
        item.raw_content@
    }

    open spec fn max_level_model(&self) -> u8 {
        4
    }

    fn format_preview(&self, item: &LogItem, detail_level: u8) -> (r: String) {
        let fields = dyeh_fields_exec(item, detail_level);
        let short = shorten_content(item.content.as_str());
        let short_chars = str_chars(short.as_str());
        build_preview(&fields, &short_chars)
    }

    fn get_searchable_text(&self, item: &LogItem, detail_level: u8) -> (r: String) {
        self.format_preview(item, detail_level)
    }

    fn make_yank_content(&self, item: &LogItem) -> (r: String) {
        item.raw_content.clone()
    }

    fn max_detail_level(&self) -> (r: u8) {
        4
    }
}

impl LogParser for DyehParser {
    open spec fn parse_model(&self, raw: Seq<char>) -> Option<ItemModel> {
        dyeh_parse_model(raw)
    }

    fn parse(&self, raw_log: &str) -> (r: Option<LogItem>) {
        let mut items = process_delta(raw_log);
        if items.len() > 0 {
            let first = items.remove(0);
            proof {
                assert(item_obeys(first, reassembled(raw_log@)[0].1));
            }
            Some(first)
        } else {
            let item = LogItem::new(raw_log.to_owned(), raw_log.to_owned());
            proof {
                crate::log_item::lemma_meta_get_empty("level"@);
                crate::log_item::lemma_meta_get_empty("origin"@);
                crate::log_item::lemma_meta_get_empty("tag"@);
            }
            Some(item)
        }
    }
}

/// Formatter for DYEH entries, identical in rendering to the parser.
pub struct DyehLogFormatter;

impl DyehLogFormatter {
    pub fn new() -> DyehLogFormatter {
        DyehLogFormatter
    }
}

impl LogItemFormatter for DyehLogFormatter {
    open spec fn preview_model(&self, item: LogItem, detail_level: u8) -> Seq<char> {
        dyeh_preview(item, detail_level)
    }

    open spec fn searchable_model(&self, item: LogItem, detail_level: u8) -> Seq<char> {
        dyeh_preview(item, detail_level)
    }

    open spec fn yank_model(&self, item: LogItem) -> Seq<char> {
        item.raw_content@
    }

    open spec fn max_level_model(&self) -> u8 {
        4
    }

    fn format_preview(&self, item: &LogItem, detail_level: u8) -> (r: String) {
        let fields = dyeh_fields_exec(item, detail_level);
        let short = shorten_content(item.content.as_str());
        let short_chars = str_chars(short.as_str());
        build_preview(&fields, &short_chars)
    }

    fn get_searchable_text(&self, item: &LogItem, detail_level: u8) -> (r: String) {
        self.format_preview(item, detail_level)
    }

    fn make_yank_content(&self, item: &LogItem) -> (r: String) {
        item.raw_content.clone()
    }

    fn max_detail_level(&self) -> (r: u8) {
        4
    }
}

} // verus!
