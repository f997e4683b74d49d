//! Word-frequency counting in two phases: text is split into chunks, each
//! chunk is counted by a pool of map workers that write one record per
//! worker slot, and a pool of reduce workers merges the records into one
//! corpus-wide count, which is then ranked and reported.

pub mod text;
pub mod chunker;
pub mod counts;
pub mod words;
pub mod record;
pub mod merge;
pub mod ranking;
pub mod pool;

pub use chunker::split_lines;
pub use counts::WordCounts;
pub use merge::{merge_into, MergeError};
pub use pool::{map_step, record_name, reduce_step, WorkQueue, WrittenSlots};
pub use ranking::{format_report, top_words};
pub use text::lex_less;
pub use record::{decode_record, encode_record, parse_record_line};
pub use words::{count_words, split_tokens};
