//! HAR scanning, entry decoding results and message rendering.

pub mod message;
pub mod parser;
pub mod scanner;
pub mod types;

use vstd::prelude::*;

pub use types::{
    EntryDetail, EntryRange, EntrySummary, HarContent, HarEntry, HarError, HarErrorKind, HarHeader,
    HarPostData, HarRequest, HarResponse, IndexResult, IndexStats, TimingBreakdown,
};

verus! {

/// The bytes of one entry: `file_bytes[range.start..range.end]`, or
/// `InvalidRange` when the range does not lie inside the file.
pub fn entry_slice(file_bytes: &[u8], range: EntryRange) -> (r: Result<&[u8], HarError>)
    ensures
        match r {
            Ok(s) => range.start <= range.end <= file_bytes@.len() && s@ == file_bytes@.subrange(
                range.start as int,
                range.end as int,
            ),
            Err(e) => e is InvalidRange && !(range.start <= range.end <= file_bytes@.len()),
        },
{
    if range.start <= range.end && range.end <= file_bytes.len() {
        Ok(vstd::slice::slice_subrange(file_bytes, range.start, range.end))
    } else {
        Err(HarError::InvalidRange)
    }
}

/// Whether an indexing run that has just summarized entry `entry_id`
/// reports its progress and yields to the event loop: after the first entry
/// and then after every 128th.
pub fn progress_checkpoint(entry_id: usize) -> (r: bool)
    ensures
        r == (entry_id % 128 == 0),
{
    entry_id % 128 == 0
}

} // verus!
