use vstd::prelude::*;

use crate::text::{
    append_zero_padded, decimal_digits, lemma_decimal_value_of_zero_padded, trim_whitespace, trimmed,
    zero_padded,
};
use crate::whisper::RawTranscriptSegment;

verus! {

/// Sample rate, in hertz, of the audio handed to the recogniser.
pub const TARGET_SAMPLE_RATE: u32 = 16000;

/// The result of transcribing one audio file.
#[derive(Clone, Debug)]
pub struct Transcript {
    pub source_path: String,
    pub model_path: String,
    pub vad_model_path: String,
    pub original_sample_rate: u32,
    pub segments: Vec<TranscriptSegment>,
}

/// One recognised utterance, with its position in the transcript (counted from one)
/// and its time span in milliseconds.
#[derive(Clone, Debug)]
pub struct TranscriptSegment {
    pub index: usize,
    pub start_ms: u64,
    pub end_ms: u64,
    pub text: String,
}

// ---------------------------------------------------------------------------------------------
// Timestamps
// ---------------------------------------------------------------------------------------------

/// `ms` written as `MM:SS.mmm`, or `HH:MM:SS.mmm` from one hour on; every field is
/// zero-padded, and the hours take more digits when they need them.
pub open spec fn timestamp_text(ms: u64) -> Seq<char> {
    let total_seconds = ms / 1000;
    let milliseconds = ms % 1000;
    let hours = total_seconds / 3600;
    let minutes = (total_seconds % 3600) / 60;
    let seconds = total_seconds % 60;
    let tail = zero_padded(minutes as nat, 2) + seq![':'] + zero_padded(seconds as nat, 2) + seq![
        '.',
    ] + zero_padded(milliseconds as nat, 3);
    if hours > 0 {
        zero_padded(hours as nat, 2) + seq![':'] + tail
    } else {
        tail
    }
}

/// Formats a time in milliseconds as `MM:SS.mmm`, or `HH:MM:SS.mmm` from one hour on.
pub fn format_timestamp(ms: u64) -> (text: String)
    ensures
        text@ == timestamp_text(ms),
{
    let total_seconds = ms / 1000;
    let milliseconds = ms % 1000;
    let hours = total_seconds / 3600;
    let minutes = (total_seconds % 3600) / 60;
    let seconds = total_seconds % 60;
    proof {
        reveal_strlit(":");
        reveal_strlit(".");
    }
    let mut out = String::new();
    if hours > 0 {
        append_zero_padded(&mut out, hours, 2);
        out.append(":");
    }
    let ghost head = out@;
    append_zero_padded(&mut out, minutes, 2);
    out.append(":");
    append_zero_padded(&mut out, seconds, 2);
    out.append(".");
    append_zero_padded(&mut out, milliseconds, 3);
    proof {
        let tail = zero_padded(minutes as nat, 2) + seq![':'] + zero_padded(seconds as nat, 2)
            + seq!['.'] + zero_padded(milliseconds as nat, 3);
        assert(out@ =~= head + tail);
        if hours > 0 {
            assert(head =~= zero_padded(hours as nat, 2) + seq![':']);
        } else {
            assert(head =~= Seq::<char>::empty());
        }
        assert(out@ =~= timestamp_text(ms));
    }
    out
}

// ---------------------------------------------------------------------------------------------
// Plain-text rendering
// ---------------------------------------------------------------------------------------------

/// The line of a segment in the plain-text rendering: `[start - end] text`.
pub open spec fn segment_line(segment: TranscriptSegment) -> Seq<char> {
    "["@ + timestamp_text(segment.start_ms) + " - "@ + timestamp_text(segment.end_ms) + "] "@
        + segment.text@ + "\n"@
}

/// The lines of the segments, in order.
pub open spec fn segment_lines(segments: Seq<TranscriptSegment>) -> Seq<char>
    decreases segments.len(),
{
    if segments.len() == 0 {
        Seq::empty()
    } else {
        segment_lines(segments.drop_last()) + segment_line(segments.last())
    }
}

/// The three header lines and the blank line that open the plain-text rendering.
pub open spec fn transcript_header(transcript: Transcript) -> Seq<char> {
    "source: "@ + transcript.source_path@ + "\n"@ + "model: "@ + transcript.model_path@ + "\n"@
        + "vad_model: "@ + transcript.vad_model_path@ + "\n\n"@
}

/// The plain-text rendering of a transcript.
pub open spec fn transcript_text(transcript: Transcript) -> Seq<char> {
    transcript_header(transcript) + segment_lines(transcript.segments@)
}

/// Appends the line of one segment.
fn append_segment_line(output: &mut String, segment: &TranscriptSegment)
    ensures
        final(output)@ == old(output)@ + segment_line(*segment),
{
    output.append("[");
    let start = format_timestamp(segment.start_ms);
    output.append(start.as_str());
    output.append(" - ");
    let end = format_timestamp(segment.end_ms);
    output.append(end.as_str());
    output.append("] ");
    output.append(segment.text.as_str());
    output.append("\n");
    assert(final(output)@ =~= old(output)@ + segment_line(*segment));
}

impl Transcript {
    /// Renders the transcript as plain text: the paths, a blank line, then one line per segment.
    pub fn to_text(&self) -> (text: String)
        ensures
            text@ == transcript_text(*self),
    {
        let mut output = String::new();
        output.append("source: ");
        output.append(self.source_path.as_str());
        output.append("\n");
        output.append("model: ");
        output.append(self.model_path.as_str());
        output.append("\n");
        output.append("vad_model: ");
        output.append(self.vad_model_path.as_str());
        output.append("\n\n");
        let ghost header = output@;
        assert(header =~= transcript_header(*self));
        let n = self.segments.len();
        let mut i: usize = 0;
        assert(self.segments@.subrange(0, 0) =~= Seq::<TranscriptSegment>::empty());
        while i < n
            invariant
                n == self.segments@.len(),
                i <= n,
                header == transcript_header(*self),
                output@ == header + segment_lines(self.segments@.subrange(0, i as int)),
            decreases n - i,
        {
            let ghost before = output@;
            append_segment_line(&mut output, &self.segments[i]);
            proof {
                let prefix = self.segments@.subrange(0, i + 1);
                assert(prefix.drop_last() =~= self.segments@.subrange(0, i as int));
                assert(prefix.last() == self.segments@[i as int]);
                assert(output@ =~= before + segment_line(self.segments@[i as int]));
            }
            i = i + 1;
        }
        assert(self.segments@.subrange(0, n as int) =~= self.segments@);
        output
    }
}

// ---------------------------------------------------------------------------------------------
// Ordering segments by time
// ---------------------------------------------------------------------------------------------

/// `a` comes no later than `b`: by start time, then by end time.
pub open spec fn time_key_le(a: TranscriptSegment, b: TranscriptSegment) -> bool {
    a.start_ms < b.start_ms || (a.start_ms == b.start_ms && a.end_ms <= b.end_ms)
}

/// `a` and `b` have the same start and end times.
pub open spec fn same_time_key(a: TranscriptSegment, b: TranscriptSegment) -> bool {
    a.start_ms == b.start_ms && a.end_ms == b.end_ms
}

/// The segments are in order of (start, end).
pub open spec fn sorted_by_time(s: Seq<TranscriptSegment>) -> bool {
    forall|i: int, j: int| 0 <= i < j < s.len() ==> time_key_le(#[trigger] s[i], #[trigger] s[j])
}

/// `p` is a permutation of `0..n`.
pub open spec fn is_index_permutation(p: Seq<int>, n: nat) -> bool {
    &&& p.len() == n
    &&& forall|k: int| 0 <= k < n ==> 0 <= #[trigger] p[k] < n
    &&& forall|k: int, l: int| 0 <= k < l < n ==> #[trigger] p[k] != #[trigger] p[l]
}

/// `output` is `input` rearranged by the permutation `p` (`output[k] == input[p[k]]`) into
/// (start, end) order, with segments of equal times kept in their input order.
pub open spec fn stable_time_sort_witness(
    input: Seq<TranscriptSegment>,
    output: Seq<TranscriptSegment>,
    p: Seq<int>,
) -> bool {
    &&& is_index_permutation(p, input.len())
    &&& output.len() == input.len()
    &&& forall|k: int| 0 <= k < output.len() ==> #[trigger] output[k] == input[p[k]]
    &&& sorted_by_time(output)
    &&& forall|k: int, l: int|
        0 <= k < l < output.len() && same_time_key(output[k], output[l]) ==> #[trigger] p[k]
            < #[trigger] p[l]
}

/// `output` is the stable sort of `input` by (start, end): what `sort_by_key` on that key gives.
pub open spec fn is_stable_time_sort(input: Seq<TranscriptSegment>, output: Seq<TranscriptSegment>) -> bool {
    exists|p: Seq<int>| #[trigger] stable_time_sort_witness(input, output, p)
}

fn time_key_le_exec(a: &TranscriptSegment, b: &TranscriptSegment) -> (r: bool)
    ensures
        r == time_key_le(*a, *b),
{
    a.start_ms < b.start_ms || (a.start_ms == b.start_ms && a.end_ms <= b.end_ms)
}

/// The state of an insertion sort of `orig` after `i` elements: `s` is `orig` rearranged by
/// `perm`, its first `i` elements are the first `i` of `orig`, in stable time order, and the rest
/// is untouched.
spec fn insertion_inv(orig: Seq<TranscriptSegment>, s: Seq<TranscriptSegment>, perm: Seq<int>, i: int) -> bool {
    let n = orig.len();
    &&& s.len() == n
    &&& 0 <= i <= n
    &&& is_index_permutation(perm, n)
    &&& forall|k: int| 0 <= k < n ==> #[trigger] s[k] == orig[perm[k]]
    &&& forall|k: int| i <= k < n ==> #[trigger] perm[k] == k
    &&& forall|k: int| 0 <= k < i ==> #[trigger] perm[k] < i
    &&& forall|a: int, b: int| 0 <= a < b < i ==> time_key_le(#[trigger] s[a], #[trigger] s[b])
    &&& forall|a: int, b: int|
        0 <= a < b < i && same_time_key(s[a], s[b]) ==> #[trigger] perm[a] < #[trigger] perm[b]
}

/// Moving element `i` to position `j`, past the elements that come strictly later than it,
/// extends the sorted prefix by one.
proof fn lemma_insertion_step(
    orig: Seq<TranscriptSegment>,
    current: Seq<TranscriptSegment>,
    perm: Seq<int>,
    i: int,
    j: int,
)
    requires
        insertion_inv(orig, current, perm, i),
        0 <= j <= i < orig.len(),
        j == 0 || time_key_le(current[j - 1], current[i]),
        forall|k: int| j <= k < i ==> !time_key_le(#[trigger] current[k], current[i]),
    ensures
        insertion_inv(
            orig,
            current.remove(i).insert(j, current[i]),
            perm.remove(i).insert(j, i),
            i + 1,
        ),
{
    let n = orig.len();
    let s = current.remove(i).insert(j, current[i]);
    let np = perm.remove(i).insert(j, i);
    let x = current[i];
    assert(s.len() == n);
    assert(np.len() == n);
    assert forall|k: int| 0 <= k < n implies #[trigger] s[k] == current[if k < j {
        k
    } else if k == j {
        i
    } else if k <= i {
        k - 1
    } else {
        k
    }] && np[k] == (if k < j {
        perm[k]
    } else if k == j {
        i
    } else if k <= i {
        perm[k - 1]
    } else {
        perm[k]
    }) by {}
    assert forall|k: int| 0 <= k < n implies #[trigger] s[k] == orig[np[k]] by {
        assert(s[k] == s[k]);
    }
    assert forall|k: int| 0 <= k < n implies 0 <= #[trigger] np[k] < n by {
        assert(s[k] == s[k]);
    }
    assert forall|k: int, l: int| 0 <= k < l < n implies #[trigger] np[k] != #[trigger] np[l] by {
        assert(s[k] == s[k]);
        assert(s[l] == s[l]);
        if k > j && k <= i {
            assert(perm[k - 1] < i);
        }
        if k < j {
            assert(perm[k] < i);
        }
        if l > j && l <= i {
            assert(perm[l - 1] < i);
        }
    }
    assert forall|k: int| i + 1 <= k < n implies #[trigger] np[k] == k by {
        assert(s[k] == s[k]);
    }
    assert forall|k: int| 0 <= k < i + 1 implies #[trigger] np[k] < i + 1 by {
        assert(s[k] == s[k]);
    }
    assert forall|a: int, b: int| 0 <= a < b < i + 1 implies time_key_le(
        #[trigger] s[a],
        #[trigger] s[b],
    ) by {
        if b < j {
        } else if b == j {
            assert(time_key_le(current[a], current[j - 1]));
        } else if a < j {
        } else if a == j {
            assert(!time_key_le(current[b - 1], x));
        } else {
        }
    }
    assert forall|a: int, b: int|
        0 <= a < b < i + 1 && same_time_key(s[a], s[b]) implies #[trigger] np[a]
        < #[trigger] np[b] by {
        if b < j {
        } else if b == j {
            assert(perm[a] < i);
        } else if a < j {
        } else if a == j {
            assert(!time_key_le(current[b - 1], x));
        } else {
        }
    }
}

/// Sorts the segments by (start, end), keeping segments with equal times in their order.
/// Segments that are already in order are left as they are.
pub fn sort_segments_by_time(segments: &mut Vec<TranscriptSegment>)
    ensures
        is_stable_time_sort(old(segments)@, final(segments)@),
        sorted_by_time(old(segments)@) ==> final(segments)@ == old(segments)@,
{
    let ghost orig = segments@;
    let n = segments.len();
    let ghost mut perm: Seq<int> = Seq::new(n as nat, |k: int| k);
    let mut i: usize = 0;
    while i < n
        invariant
            n == orig.len(),
            insertion_inv(orig, segments@, perm, i as int),
            sorted_by_time(orig) ==> segments@ == orig,
        decreases n - i,
    {
        let ghost current = segments@;
        let mut j: usize = i;
        while j > 0
            invariant
                j <= i < n,
                segments@ == current,
                current.len() == n,
                forall|k: int| j <= k < i ==> !time_key_le(#[trigger] current[k], current[i as int]),
            ensures
                j <= i,
                segments@ == current,
                j == 0 || time_key_le(current[j - 1], current[i as int]),
                forall|k: int| j <= k < i ==> !time_key_le(#[trigger] current[k], current[i as int]),
            decreases j,
        {
            if time_key_le_exec(&segments[j - 1], &segments[i]) {
                break;
            }
            j = j - 1;
        }
        proof {
            if sorted_by_time(orig) && j < i {
                assert(time_key_le(orig[j as int], orig[i as int]));
            }
            lemma_insertion_step(orig, current, perm, i as int, j as int);
        }
        if j < i {
            let x = segments.remove(i);
            segments.insert(j, x);
            proof {
                perm = perm.remove(i as int).insert(j as int, i as int);
            }
        } else {
            proof {
                assert(current.remove(i as int).insert(j as int, current[i as int]) =~= current);
                assert(perm.remove(i as int).insert(j as int, i as int) =~= perm);
            }
        }
        i = i + 1;
    }
    proof {
        assert(stable_time_sort_witness(orig, segments@, perm));
    }
}

/// A copy of the segments.
pub fn clone_segments(segments: &Vec<TranscriptSegment>) -> (copy: Vec<TranscriptSegment>)
    ensures
        copy@ == segments@,
{
    let mut copy: Vec<TranscriptSegment> = Vec::new();
    let n = segments.len();
    let mut i: usize = 0;
    while i < n
        invariant
            n == segments@.len(),
            i <= n,
            copy@ == segments@.subrange(0, i as int),
        decreases n - i,
    {
        let segment = &segments[i];
        copy.push(
            TranscriptSegment {
                index: segment.index,
                start_ms: segment.start_ms,
                end_ms: segment.end_ms,
                text: segment.text.clone(),
            },
        );
        assert(copy@ =~= segments@.subrange(0, i + 1));
        i = i + 1;
    }
    assert(segments@.subrange(0, n as int) =~= segments@);
    copy
}

/// The segments in (start, end) order, equal times keeping their order; the input is not changed.
pub fn sorted_segments(segments: &Vec<TranscriptSegment>) -> (sorted: Vec<TranscriptSegment>)
    ensures
        is_stable_time_sort(segments@, sorted@),
        sorted_by_time(segments@) ==> sorted@ == segments@,
{
    let mut sorted = clone_segments(segments);
    sort_segments_by_time(&mut sorted);
    sorted
}

// ---------------------------------------------------------------------------------------------
// Building a transcript from recognised segments
// ---------------------------------------------------------------------------------------------

/// A text that is empty once trimmed.
pub open spec fn is_blank(text: Seq<char>) -> bool {
    trimmed(text).len() == 0
}

/// The end time a kept segment gets: one that would end no later than it starts lasts
/// ten milliseconds instead.
pub open spec fn settled_end_ms(start_ms: u64, end_ms: u64) -> int {
    if end_ms <= start_ms {
        start_ms + 10
    } else {
        end_ms as int
    }
}

/// The settled end time of a segment that is kept fits in a `u64`.
pub open spec fn raw_segment_fits(raw: RawTranscriptSegment) -> bool {
    !is_blank(raw.text@) && raw.end_ms <= raw.start_ms ==> raw.start_ms + 10 <= u64::MAX
}

/// The segments that are kept, in recognition order: blank ones are dropped, end times are
/// settled, and each is numbered by its position.
pub open spec fn kept_segments(raws: Seq<RawTranscriptSegment>) -> Seq<TranscriptSegment>
    decreases raws.len(),
{
    if raws.len() == 0 {
        Seq::empty()
    } else {
        let earlier = kept_segments(raws.drop_last());
        let raw = raws.last();
        if is_blank(raw.text@) {
            earlier
        } else {
            earlier.push(
                TranscriptSegment {
                    index: (earlier.len() + 1) as usize,
                    start_ms: raw.start_ms,
                    end_ms: settled_end_ms(raw.start_ms, raw.end_ms) as u64,
                    text: raw.text,
                },
            )
        }
    }
}

/// The segments numbered by their position, from one.
pub open spec fn renumbered(s: Seq<TranscriptSegment>) -> Seq<TranscriptSegment> {
    Seq::new(
        s.len(),
        |k: int|
            TranscriptSegment {
                index: (k + 1) as usize,
                start_ms: s[k].start_ms,
                end_ms: s[k].end_ms,
                text: s[k].text,
            },
    )
}

/// `segments` are what a transcript holds for the recognised `raws`: the kept segments,
/// stably sorted by (start, end), then numbered by position.
pub open spec fn transcript_segments_from(
    raws: Seq<RawTranscriptSegment>,
    segments: Seq<TranscriptSegment>,
) -> bool {
    exists|sorted: Seq<TranscriptSegment>|
        #[trigger] is_stable_time_sort(kept_segments(raws), sorted) && segments == renumbered(
            sorted,
        )
}

/// Every kept segment is numbered by its position, ends after it starts and has text.
proof fn lemma_kept_segments(raws: Seq<RawTranscriptSegment>)
    requires
        raws.len() <= usize::MAX,
        forall|i: int| 0 <= i < raws.len() ==> raw_segment_fits(#[trigger] raws[i]),
    ensures
        kept_segments(raws).len() <= raws.len(),
        forall|k: int|
            0 <= k < kept_segments(raws).len() ==> {
                let s = #[trigger] kept_segments(raws)[k];
                &&& s.index == k + 1
                &&& s.start_ms < s.end_ms
                &&& !is_blank(s.text@)
            },
    decreases raws.len(),
{
    if raws.len() > 0 {
        let earlier = raws.drop_last();
        assert forall|i: int| 0 <= i < earlier.len() implies raw_segment_fits(#[trigger] earlier[i]) by {
            assert(earlier[i] == raws[i]);
        }
        lemma_kept_segments(earlier);
        let prev = kept_segments(earlier);
        let raw = raws.last();
        assert(raw_segment_fits(raws[raws.len() - 1]));
        let kept = kept_segments(raws);
        if !is_blank(raw.text@) {
            assert forall|k: int| 0 <= k < kept.len() implies {
                let s = #[trigger] kept[k];
                &&& s.index == k + 1
                &&& s.start_ms < s.end_ms
                &&& !is_blank(s.text@)
            } by {
                if k < prev.len() {
                    assert(kept[k] == prev[k]);
                } else {
                    assert(k == prev.len());
                }
            }
        }
    }
}

/// The segments that are kept of `raws`, in recognition order.
fn collect_segments(raws: &Vec<RawTranscriptSegment>) -> (segments: Vec<TranscriptSegment>)
    requires
        forall|i: int| 0 <= i < raws@.len() ==> raw_segment_fits(#[trigger] raws@[i]),
    ensures
        segments@ == kept_segments(raws@),
{
    let mut segments: Vec<TranscriptSegment> = Vec::new();
    let n = raws.len();
    let mut i: usize = 0;
    assert(raws@.subrange(0, 0) =~= Seq::<RawTranscriptSegment>::empty());
    while i < n
        invariant
            n == raws@.len(),
            i <= n,
            forall|k: int| 0 <= k < raws@.len() ==> raw_segment_fits(#[trigger] raws@[k]),
            segments@ == kept_segments(raws@.subrange(0, i as int)),
            segments@.len() <= i,
        decreases n - i,
    {
        let raw = &raws[i];
        let prefix = Ghost(raws@.subrange(0, i + 1));
        proof {
            assert(prefix@.drop_last() =~= raws@.subrange(0, i as int));
            assert(prefix@.last() == raws@[i as int]);
            assert(raw_segment_fits(raws@[i as int]));
        }
        let trimmed_text = trim_whitespace(raw.text.as_str());
        if !trimmed_text.is_empty() {
            let end_ms = if raw.end_ms <= raw.start_ms {
                raw.start_ms + 10
            } else {
                raw.end_ms
            };
            segments.push(
                TranscriptSegment {
                    index: segments.len() + 1,
                    start_ms: raw.start_ms,
                    end_ms,
                    text: raw.text.clone(),
                },
            );
        }
        i = i + 1;
    }
    assert(raws@.subrange(0, n as int) =~= raws@);
    segments
}

/// Numbers the segments by their position, from one.
fn renumber_segments(segments: &mut Vec<TranscriptSegment>)
    ensures
        final(segments)@ == renumbered(old(segments)@),
{
    let ghost orig = segments@;
    let n = segments.len();
    let mut k: usize = 0;
    while k < n
        invariant
            n == orig.len(),
            segments@.len() == n,
            k <= n,
            forall|m: int| 0 <= m < k ==> #[trigger] segments@[m] == renumbered(orig)[m],
            forall|m: int| k <= m < n ==> #[trigger] segments@[m] == orig[m],
        decreases n - k,
    {
        let text = segments[k].text.clone();
        let renumbered_segment = TranscriptSegment {
            index: k + 1,
            start_ms: segments[k].start_ms,
            end_ms: segments[k].end_ms,
            text,
        };
        segments.set(k, renumbered_segment);
        k = k + 1;
    }
    assert(segments@ =~= renumbered(orig));
}

/// Puts the recognised segments of an audio file into a transcript: blank segments are dropped,
/// a segment that would end no later than it starts lasts ten milliseconds, the segments are
/// stably sorted by (start, end) and numbered from one.
pub fn build_transcript(
    source_path: String,
    model_path: String,
    vad_model_path: String,
    original_sample_rate: u32,
    raw_segments: &Vec<RawTranscriptSegment>,
) -> (transcript: Transcript)
    requires
        forall|i: int| 0 <= i < raw_segments@.len() ==> raw_segment_fits(#[trigger] raw_segments@[i]),
    ensures
        transcript.source_path == source_path,
        transcript.model_path == model_path,
        transcript.vad_model_path == vad_model_path,
        transcript.original_sample_rate == original_sample_rate,
        transcript_segments_from(raw_segments@, transcript.segments@),
        sorted_by_time(transcript.segments@),
        forall|k: int|
            0 <= k < transcript.segments@.len() ==> {
                let s = #[trigger] transcript.segments@[k];
                &&& s.index == k + 1
                &&& s.start_ms < s.end_ms
                &&& !is_blank(s.text@)
            },
        transcript.segments@.len() == spoken_segments(raw_segments@).len(),
        exists|p: Seq<int>|
            #[trigger] is_index_permutation(p, transcript.segments@.len()) && forall|k: int|
                0 <= k < transcript.segments@.len() ==> {
                    let raw = spoken_segments(raw_segments@)[p[k]];
                    &&& (#[trigger] transcript.segments@[k]).start_ms == raw.start_ms
                    &&& transcript.segments@[k].end_ms == settled_end_ms(raw.start_ms, raw.end_ms)
                    &&& transcript.segments@[k].text == raw.text
                },
{
    let raw_count = raw_segments.len();
    let mut segments = collect_segments(raw_segments);
    let ghost kept = segments@;
    sort_segments_by_time(&mut segments);
    let ghost sorted = segments@;
    renumber_segments(&mut segments);
    proof {
        lemma_kept_segments(raw_segments@);
        let p = choose|p: Seq<int>| stable_time_sort_witness(kept, sorted, p);
        assert(stable_time_sort_witness(kept, sorted, p));
        assert forall|k: int| 0 <= k < segments@.len() implies {
            let s = #[trigger] segments@[k];
            &&& s.index == k + 1
            &&& s.start_ms < s.end_ms
            &&& !is_blank(s.text@)
        } by {
            assert(segments@[k] == renumbered(sorted)[k]);
            assert(sorted[k] == kept[p[k]]);
            let q = p[k];
            assert(0 <= q < kept.len());
            let t = kept[q];
            assert(t.start_ms < t.end_ms);
        }
        assert forall|a: int, b: int| 0 <= a < b < segments@.len() implies time_key_le(
            #[trigger] segments@[a],
            #[trigger] segments@[b],
        ) by {
            assert(time_key_le(sorted[a], sorted[b]));
        }
    }
    proof {
        assert(is_stable_time_sort(kept, sorted));
        assert(transcript_segments_from(raw_segments@, segments@));
        lemma_every_spoken_segment_is_kept(raw_segments@, segments@);
    }
    Transcript { source_path, model_path, vad_model_path, original_sample_rate, segments }
}

/// The segments of a transcript built from recognised segments are already in display
/// order, so displaying them keeps them as they are.
pub proof fn lemma_built_segments_in_display_order(
    raws: Seq<RawTranscriptSegment>,
    segments: Seq<TranscriptSegment>,
)
    requires
        transcript_segments_from(raws, segments),
    ensures
        sorted_by_time(segments),
        segments.len() == kept_segments(raws).len(),
{
    let sorted = choose|sorted: Seq<TranscriptSegment>|
        #[trigger] is_stable_time_sort(kept_segments(raws), sorted) && segments == renumbered(
            sorted,
        );
    let p = choose|p: Seq<int>| stable_time_sort_witness(kept_segments(raws), sorted, p);
    assert(stable_time_sort_witness(kept_segments(raws), sorted, p));
    assert forall|a: int, b: int| 0 <= a < b < segments.len() implies time_key_le(
        #[trigger] segments[a],
        #[trigger] segments[b],
    ) by {
        assert(time_key_le(sorted[a], sorted[b]));
    }
}

/// Segments in time order are their own stable sort.
pub proof fn lemma_sorted_is_own_stable_sort(segments: Seq<TranscriptSegment>)
    requires
        sorted_by_time(segments),
    ensures
        is_stable_time_sort(segments, segments),
{
    let p = Seq::new(segments.len(), |k: int| k);
    assert(stable_time_sort_witness(segments, segments, p));
}

/// Below ten thousand a number has at most four digits.
proof fn lemma_decimal_digits_short(n: nat)
    ensures
        n < 10 ==> decimal_digits(n).len() == 1,
        10 <= n < 100 ==> decimal_digits(n).len() == 2,
        100 <= n < 1000 ==> decimal_digits(n).len() == 3,
    decreases n,
{
    if n >= 10 {
        lemma_decimal_digits_short(n / 10);
    }
}

/// Zero padding to a width that the number fits in gives exactly that width.
proof fn lemma_zero_padded_width(n: nat, width: nat)
    requires
        1 <= width <= 3,
        width == 1 ==> n < 10,
        width == 2 ==> n < 100,
        width == 3 ==> n < 1000,
    ensures
        zero_padded(n, width).len() == width,
{
    lemma_decimal_digits_short(n);
}

/// Under an hour a timestamp is written `MM:SS.mmm`: nine characters, with the colon and the
/// dot at fixed places.
pub proof fn lemma_timestamp_under_an_hour(ms: u64)
    requires
        ms < 3600000,
    ensures
        timestamp_text(ms).len() == 9,
        timestamp_text(ms)[2] == ':',
        timestamp_text(ms)[5] == '.',
{
    let total_seconds = ms / 1000;
    lemma_zero_padded_width(((total_seconds % 3600) / 60) as nat, 2);
    lemma_zero_padded_width((total_seconds % 60) as nat, 2);
    lemma_zero_padded_width((ms % 1000) as nat, 3);
}

/// The `MM:SS.mmm` part of a timestamp, which always ends it.
pub open spec fn timestamp_tail(ms: u64) -> Seq<char> {
    let total_seconds = ms / 1000;
    zero_padded(((total_seconds % 3600) / 60) as nat, 2) + seq![':'] + zero_padded(
        (total_seconds % 60) as nat,
        2,
    ) + seq!['.'] + zero_padded((ms % 1000) as nat, 3)
}

/// A timestamp is its hours and a colon, when there are hours, then its nine-character
/// `MM:SS.mmm` part, whose fields sit at fixed places; and the fields make up the time.
proof fn lemma_timestamp_shape(ms: u64)
    ensures
        timestamp_tail(ms).len() == 9,
        timestamp_tail(ms).subrange(0, 2) == zero_padded((((ms / 1000) % 3600) / 60) as nat, 2),
        timestamp_tail(ms).subrange(3, 5) == zero_padded(((ms / 1000) % 60) as nat, 2),
        timestamp_tail(ms).subrange(6, 9) == zero_padded((ms % 1000) as nat, 3),
        (ms / 1000) / 3600 > 0 ==> timestamp_text(ms) == zero_padded(
            ((ms / 1000) / 3600) as nat,
            2,
        ) + seq![':'] + timestamp_tail(ms),
        (ms / 1000) / 3600 > 0 ==> zero_padded(((ms / 1000) / 3600) as nat, 2).len() >= 2,
        (ms / 1000) / 3600 == 0 ==> timestamp_text(ms) == timestamp_tail(ms),
        ms == ((((ms / 1000) / 3600) * 3600 + (((ms / 1000) % 3600) / 60) * 60 + (ms / 1000) % 60)
            * 1000 + ms % 1000),
{
    let total = ms / 1000;
    let hours = total / 3600;
    let minutes = (total % 3600) / 60;
    let seconds = total % 60;
    let millis = ms % 1000;
    lemma_zero_padded_width(minutes as nat, 2);
    lemma_zero_padded_width(seconds as nat, 2);
    lemma_zero_padded_width(millis as nat, 3);
    lemma_decimal_value_of_zero_padded(hours as nat, 2);
    let mm = zero_padded(minutes as nat, 2);
    let ss = zero_padded(seconds as nat, 2);
    let ff = zero_padded(millis as nat, 3);
    let tail = timestamp_tail(ms);
    assert(tail =~= mm + seq![':'] + ss + seq!['.'] + ff);
    assert(tail.subrange(0, 2) =~= mm);
    assert(tail.subrange(3, 5) =~= ss);
    assert(tail.subrange(6, 9) =~= ff);
    assert(ms == total * 1000 + millis);
    assert(total == hours * 3600 + total % 3600);
    assert(total % 3600 == minutes * 60 + (total % 3600) % 60);
    assert((total % 3600) % 60 == total % 60) by (nonlinear_arith)
        requires
            total == hours * 3600 + total % 3600,
            0 <= total % 3600 < 3600,
            hours >= 0,
    ;
}

/// Different times give different timestamps: a timestamp can be read back to its time.
pub proof fn lemma_timestamp_text_injective(a: u64, b: u64)
    requires
        timestamp_text(a) == timestamp_text(b),
    ensures
        a == b,
{
    lemma_timestamp_shape(a);
    lemma_timestamp_shape(b);
    let text = timestamp_text(a);
    let len = text.len() as int;
    let ha = (a / 1000) / 3600;
    let hb = (b / 1000) / 3600;
    if ha > 0 {
        assert(text.subrange(len - 9, len) =~= timestamp_tail(a));
        assert(text.subrange(0, len - 10) =~= zero_padded(ha as nat, 2));
    } else {
        assert(text =~= timestamp_tail(a));
    }
    if hb > 0 {
        assert(text.subrange(len - 9, len) =~= timestamp_tail(b));
        assert(text.subrange(0, len - 10) =~= zero_padded(hb as nat, 2));
    } else {
        assert(text =~= timestamp_tail(b));
    }
    assert(ha > 0 <==> hb > 0);
    assert(timestamp_tail(a) == timestamp_tail(b));
    lemma_decimal_value_of_zero_padded(ha as nat, 2);
    lemma_decimal_value_of_zero_padded(hb as nat, 2);
    lemma_decimal_value_of_zero_padded((((a / 1000) % 3600) / 60) as nat, 2);
    lemma_decimal_value_of_zero_padded((((b / 1000) % 3600) / 60) as nat, 2);
    lemma_decimal_value_of_zero_padded(((a / 1000) % 60) as nat, 2);
    lemma_decimal_value_of_zero_padded(((b / 1000) % 60) as nat, 2);
    lemma_decimal_value_of_zero_padded((a % 1000) as nat, 3);
    lemma_decimal_value_of_zero_padded((b % 1000) as nat, 3);
    assert(ha == hb);
    assert(((a / 1000) % 3600) / 60 == ((b / 1000) % 3600) / 60);
    assert((a / 1000) % 60 == (b / 1000) % 60);
    assert(a % 1000 == b % 1000);
}

/// A timestamp has nine characters exactly when the time is under an hour; from one hour on
/// it has at least twelve.
pub proof fn lemma_timestamp_nine_chars_iff_under_an_hour(ms: u64)
    ensures
        timestamp_text(ms).len() == 9 <==> ms < 3600000,
        ms >= 3600000 ==> timestamp_text(ms).len() >= 12,
{
    lemma_timestamp_shape(ms);
}

/// The rendering of segments after one more: the earlier rendering, then the new segment's line.
pub proof fn lemma_segment_lines_push(segments: Seq<TranscriptSegment>, segment: TranscriptSegment)
    ensures
        segment_lines(segments.push(segment)) == segment_lines(segments) + segment_line(segment),
{
    assert(segments.push(segment).drop_last() =~= segments);
    assert(segments.push(segment).last() == segment);
}

/// The plain-text rendering is the header followed by exactly one line per segment, in the
/// order of the segments: the concatenation of every segment's line.
pub proof fn lemma_text_has_one_line_per_segment(transcript: Transcript)
    ensures
        transcript_text(transcript) == transcript_header(transcript) + transcript.segments@.map_values(
            |segment: TranscriptSegment| segment_line(segment),
        ).flatten(),
{
    lemma_segment_lines_are_all_lines(transcript.segments@);
}

/// The lines of the segments are the concatenation of every segment's line.
proof fn lemma_segment_lines_are_all_lines(segments: Seq<TranscriptSegment>)
    ensures
        segment_lines(segments) == segments.map_values(
            |segment: TranscriptSegment| segment_line(segment),
        ).flatten(),
    decreases segments.len(),
{
    let lines = segments.map_values(|segment: TranscriptSegment| segment_line(segment));
    if segments.len() == 0 {
        assert(lines =~= Seq::<Seq<char>>::empty());
    } else {
        let earlier = segments.drop_last();
        lemma_segment_lines_are_all_lines(earlier);
        let earlier_lines = earlier.map_values(|segment: TranscriptSegment| segment_line(segment));
        assert(lines =~= earlier_lines.push(segment_line(segments.last())));
        earlier_lines.lemma_flatten_push(segment_line(segments.last()));
    }
}

/// The recognised segments whose text is not blank once trimmed, in recognition order.
pub open spec fn spoken_segments(raws: Seq<RawTranscriptSegment>) -> Seq<RawTranscriptSegment> {
    raws.filter(|raw: RawTranscriptSegment| !is_blank(raw.text@))
}

/// The kept segments are the spoken ones, one for one and in order, each with its start, its
/// settled end and its text, numbered by position.
proof fn lemma_kept_are_spoken(raws: Seq<RawTranscriptSegment>)
    requires
        forall|i: int| 0 <= i < raws.len() ==> raw_segment_fits(#[trigger] raws[i]),
    ensures
        kept_segments(raws).len() == spoken_segments(raws).len(),
        forall|k: int|
            0 <= k < spoken_segments(raws).len() ==> raw_segment_fits(
                #[trigger] spoken_segments(raws)[k],
            ),
        forall|k: int|
            0 <= k < kept_segments(raws).len() ==> {
                let kept = #[trigger] kept_segments(raws)[k];
                let raw = spoken_segments(raws)[k];
                &&& kept.start_ms == raw.start_ms
                &&& kept.end_ms == settled_end_ms(raw.start_ms, raw.end_ms) as u64
                &&& kept.text == raw.text
            },
    decreases raws.len(),
{
    reveal(Seq::filter);
    if raws.len() > 0 {
        let earlier = raws.drop_last();
        assert forall|i: int| 0 <= i < earlier.len() implies raw_segment_fits(#[trigger] earlier[i]) by {
            assert(earlier[i] == raws[i]);
        }
        lemma_kept_are_spoken(earlier);
        let raw = raws.last();
        assert(raw_segment_fits(raws[raws.len() - 1]));
        let spoken = spoken_segments(raws);
        let spoken_earlier = spoken_segments(earlier);
        if is_blank(raw.text@) {
            assert(spoken == spoken_earlier);
        } else {
            assert(spoken == spoken_earlier.push(raw));
            let kept = kept_segments(raws);
            assert forall|k: int| 0 <= k < kept.len() implies {
                let kept_k = #[trigger] kept[k];
                let raw_k = spoken[k];
                &&& kept_k.start_ms == raw_k.start_ms
                &&& kept_k.end_ms == settled_end_ms(raw_k.start_ms, raw_k.end_ms) as u64
                &&& kept_k.text == raw_k.text
            } by {
                if k < kept.len() - 1 {
                    assert(kept[k] == kept_segments(earlier)[k]);
                    assert(spoken[k] == spoken_earlier[k]);
                }
            }
        }
    }
}

/// Every spoken segment gives exactly one segment of the transcript and nothing else does: the
/// transcript's segments are the spoken segments rearranged, each with its start, its text and
/// its end (ten milliseconds after the start when it would end no later than it starts).
pub proof fn lemma_every_spoken_segment_is_kept(
    raws: Seq<RawTranscriptSegment>,
    segments: Seq<TranscriptSegment>,
)
    requires
        forall|i: int| 0 <= i < raws.len() ==> raw_segment_fits(#[trigger] raws[i]),
        transcript_segments_from(raws, segments),
    ensures
        segments.len() == spoken_segments(raws).len(),
        exists|p: Seq<int>|
            #[trigger] is_index_permutation(p, segments.len()) && forall|k: int|
                0 <= k < segments.len() ==> {
                    let raw = spoken_segments(raws)[p[k]];
                    &&& (#[trigger] segments[k]).start_ms == raw.start_ms
                    &&& segments[k].end_ms == settled_end_ms(raw.start_ms, raw.end_ms)
                    &&& segments[k].text == raw.text
                },
{
    lemma_kept_are_spoken(raws);
    let kept = kept_segments(raws);
    let sorted = choose|sorted: Seq<TranscriptSegment>|
        #[trigger] is_stable_time_sort(kept, sorted) && segments == renumbered(sorted);
    let p = choose|p: Seq<int>| stable_time_sort_witness(kept, sorted, p);
    assert(stable_time_sort_witness(kept, sorted, p));
    let spoken = spoken_segments(raws);
    assert forall|k: int| 0 <= k < segments.len() implies {
        let raw = spoken[p[k]];
        &&& (#[trigger] segments[k]).start_ms == raw.start_ms
        &&& segments[k].end_ms == settled_end_ms(raw.start_ms, raw.end_ms)
        &&& segments[k].text == raw.text
    } by {
        assert(segments[k] == renumbered(sorted)[k]);
        assert(sorted[k] == kept[p[k]]);
        let q = p[k];
        assert(0 <= q < kept.len());
        assert(kept[q] == kept_segments(raws)[q]);
        let raw = spoken[q];
        assert(raw_segment_fits(spoken[q]));
        assert(settled_end_ms(raw.start_ms, raw.end_ms) == kept[q].end_ms);
    }
    assert(is_index_permutation(p, segments.len()));
}

} // verus!
