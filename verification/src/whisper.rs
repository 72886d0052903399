use vstd::prelude::*;

use crate::text::{trim_whitespace, trimmed};

verus! {

/// A segment as the recogniser reports it: times in milliseconds and the trimmed text.
#[derive(Clone, Debug)]
pub struct RawTranscriptSegment {
    pub start_ms: u64,
    pub end_ms: u64,
    pub text: String,
}

/// A recogniser timestamp, counted in centiseconds, in milliseconds; negative ones count as zero.
pub open spec fn timestamp_ms(timestamp: i64) -> int {
    if timestamp < 0 {
        0
    } else {
        timestamp * 10
    }
}

/// Converts a recogniser timestamp, counted in centiseconds, to milliseconds.
/// Negative timestamps count as zero.
pub fn timestamp_to_ms(timestamp: i64) -> (ms: u64)
    requires
        timestamp <= u64::MAX / 10,
    ensures
        ms == timestamp_ms(timestamp),
{
    let clamped: i64 = if timestamp < 0 { 0 } else { timestamp };
    (clamped as u64) * 10
}

/// The segment for the recogniser's timestamps of one utterance, shifted by `offset_ms`,
/// with its text trimmed.
pub fn raw_segment_from(start_timestamp: i64, end_timestamp: i64, text: &str, offset_ms: u64) -> (segment:
    RawTranscriptSegment)
    requires
        start_timestamp <= u64::MAX / 10,
        end_timestamp <= u64::MAX / 10,
        offset_ms + timestamp_ms(start_timestamp) <= u64::MAX,
        offset_ms + timestamp_ms(end_timestamp) <= u64::MAX,
    ensures
        segment.start_ms == offset_ms + timestamp_ms(start_timestamp),
        segment.end_ms == offset_ms + timestamp_ms(end_timestamp),
        segment.text@ == trimmed(text@),
{
    let start_ms = offset_ms + timestamp_to_ms(start_timestamp);
    let end_ms = offset_ms + timestamp_to_ms(end_timestamp);
    let trimmed_text = trim_whitespace(text);
    RawTranscriptSegment { start_ms, end_ms, text: trimmed_text.to_owned() }
}

/// Number of threads the recogniser runs on: the available parallelism, at most eight,
/// or four when it is unknown.
pub fn whisper_thread_count(available_parallelism: Option<usize>) -> (threads: i32)
    ensures
        threads == match available_parallelism {
            Some(count) => if count <= 8 {
                count as int
            } else {
                8
            },
            None => 4,
        },
{
    match available_parallelism {
        Some(count) => {
            if count <= 8 {
                count as i32
            } else {
                8
            }
        },
        None => 4,
    }
}

} // verus!
