//! The decoder-side interfaces the core depends on: turning raw text into
//! entries, and rendering entries as preview, searchable and yank text at a
//! chosen detail level.  Each exec method's result is pinned to an abstract
//! model the implementor defines, so the filter engine's contracts can speak
//! of what any formatter returns.

use vstd::prelude::*;

use crate::log_item::LogItem;
use crate::log_item::ItemModel;
use crate::log_item::item_obeys;

verus! {

/// Renders entries at a detail level.  `searchable_model` is what the filter
/// engine searches; it must stay consistent with the preview, which the
/// implementations here guarantee by building both from one model.
pub trait LogItemFormatter: Sized {
    /// The preview text of an entry at a detail level.
    spec fn preview_model(&self, item: LogItem, detail_level: u8) -> Seq<char>;

    /// The text the filter engine searches for an entry at a detail level.
    spec fn searchable_model(&self, item: LogItem, detail_level: u8) -> Seq<char>;

    /// The text a yank copies for an entry.
    spec fn yank_model(&self, item: LogItem) -> Seq<char>;

    /// The largest meaningful detail level.
    spec fn max_level_model(&self) -> u8;

    fn format_preview(&self, item: &LogItem, detail_level: u8) -> (r: String)
        ensures
            r@ == self.preview_model(*item, detail_level),
    ;

    fn get_searchable_text(&self, item: &LogItem, detail_level: u8) -> (r: String)
        ensures
            r@ == self.searchable_model(*item, detail_level),
    ;

    fn make_yank_content(&self, item: &LogItem) -> (r: String)
        ensures
            r@ == self.yank_model(*item),
    ;

    fn max_detail_level(&self) -> (r: u8)
        ensures
            r == self.max_level_model(),
    ;
}

/// A decoder: parses raw text into an entry — `None` filters the line out
/// intentionally — and renders entries like a formatter.
pub trait LogParser: LogItemFormatter {
    /// What parsing yields on given raw text: `None` where the line is
    /// filtered out, otherwise the model the entry realizes.
    spec fn parse_model(&self, raw: Seq<char>) -> Option<ItemModel>;

    fn parse(&self, raw_log: &str) -> (r: Option<LogItem>)
        ensures
            match r {
                Some(item) => self.parse_model(raw_log@) is Some && item_obeys(
                    item,
                    self.parse_model(raw_log@).unwrap(),
                ),
                None => self.parse_model(raw_log@) is None,
            },
    ;
}

} // verus!
