//! Core engine of a terminal log viewer: a structured-log reassembler that
//! turns byte deltas into field-tagged entries, an incremental text-filter
//! engine over the accumulated entries, and a bounded lossy hand-off queue
//! feeding entries from a polling source to the consumer.

pub mod text;
pub mod log_item;
pub use crate::log_item::LogItem;
pub use crate::log_item::LogDetailLevel;
pub use crate::log_item::increment_detail_level;
pub use crate::log_item::decrement_detail_level;
pub use crate::formatter::LogItemFormatter;
pub use crate::formatter::LogParser;
pub use crate::reassembler::process_delta;
pub use crate::reassembler::strip_leading_header;
pub use crate::reassembler::remove_inline_headers;
pub use crate::reassembler::split_header;
pub use crate::filter::FilterEngine;
pub use crate::queue::HandoffQueue;
pub use crate::queue::enqueue_all;
pub use crate::pipeline::PipelineState;
pub use crate::pipeline::PipelineEvent;
pub use crate::pipeline::PipelineAction;
pub use crate::pipeline::pipeline_step;
pub use crate::pipeline::ingest_batch;
pub use crate::syslog::decode_syslog;
pub use crate::content_lines::WrappingMode;
pub use crate::content_lines::content_into_lines;
pub use crate::content_lines::wrap_content_to_lines;
pub use crate::content_lines::calculate_content_width;
pub use crate::content_lines::sanitize_control_chars;
pub use crate::render::shorten_content;
pub use crate::dyeh::DyehParser;
pub use crate::dyeh::DyehLogFormatter;
pub use crate::android::AndroidParser;
pub use crate::android::AndroidEffectParser;
pub use crate::ios::IosFullParser;
pub use crate::ios::IosEffectParser;
pub use crate::ios::strip_ios_wrapper;
pub use crate::provider::DyehLogProvider;
pub use crate::provider::MetaSnap;
pub use crate::provider::has_changed;
pub use crate::provider::split_by_markers;
pub use crate::provider::is_live_log_name;
pub use crate::provider::select_latest_live_log;
pub use crate::cli::UsageOptions;
pub mod reassembler;
pub mod formatter;
pub mod filter;
pub mod queue;
pub mod pipeline;
pub mod syslog;
pub mod content_lines;
pub mod render;
pub mod dyeh;
pub mod android;
pub mod ios;
pub mod provider;
pub mod cli;
