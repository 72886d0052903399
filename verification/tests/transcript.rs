use mojiokoshi::audio::resampled_len;
use mojiokoshi::text::{append_decimal, append_zero_padded, decimal_len, lowercase_equals};
use mojiokoshi::transcription::{
    Transcript, TranscriptSegment, build_transcript, clone_segments, format_timestamp,
    sort_segments_by_time, sorted_segments, TARGET_SAMPLE_RATE,
};
use mojiokoshi::whisper::{
    RawTranscriptSegment, raw_segment_from, timestamp_to_ms, whisper_thread_count,
};

fn segment(index: usize, start_ms: u64, end_ms: u64, text: &str) -> TranscriptSegment {
    TranscriptSegment {
        index,
        start_ms,
        end_ms,
        text: text.to_owned(),
    }
}

fn raw(start_ms: u64, end_ms: u64, text: &str) -> RawTranscriptSegment {
    RawTranscriptSegment {
        start_ms,
        end_ms,
        text: text.to_owned(),
    }
}

fn keys(segments: &[TranscriptSegment]) -> Vec<(usize, u64, u64, String)> {
    segments
        .iter()
        .map(|s| (s.index, s.start_ms, s.end_ms, s.text.clone()))
        .collect()
}

#[test]
fn format_timestamp_zero() {
    assert_eq!(format_timestamp(0), "00:00.000");
}

#[test]
fn format_timestamp_under_an_hour() {
    assert_eq!(format_timestamp(59_999), "00:59.999");
    assert_eq!(format_timestamp(61_005), "01:01.005");
    assert_eq!(format_timestamp(3_599_999), "59:59.999");
}

#[test]
fn format_timestamp_with_hours() {
    assert_eq!(format_timestamp(3_600_000), "01:00:00.000");
    assert_eq!(format_timestamp(3_723_004), "01:02:03.004");
    assert_eq!(format_timestamp(360_000_000), "100:00:00.000");
}

#[test]
fn format_timestamp_largest() {
    assert_eq!(format_timestamp(u64::MAX), "5124095576030:25:51.615");
}

#[test]
fn timestamp_under_an_hour_has_fixed_width() {
    for ms in [0u64, 1, 999, 1_000, 59_999, 60_000, 1_234_567, 3_599_999] {
        let text = format_timestamp(ms);
        assert_eq!(text.chars().count(), 9);
        assert_eq!(text.chars().nth(2), Some(':'));
        assert_eq!(text.chars().nth(5), Some('.'));
    }
}

#[test]
fn decimal_helpers() {
    assert_eq!(decimal_len(0), 1);
    assert_eq!(decimal_len(9), 1);
    assert_eq!(decimal_len(10), 2);
    assert_eq!(decimal_len(u64::MAX), 20);
    let mut out = String::from("x");
    append_decimal(&mut out, 4096);
    assert_eq!(out, "x4096");
    let mut padded = String::new();
    append_zero_padded(&mut padded, 7, 3);
    assert_eq!(padded, "007");
    let mut wide = String::new();
    append_zero_padded(&mut wide, 12345, 2);
    assert_eq!(wide, "12345");
}

#[test]
fn lowercase_equals_ignores_ascii_case() {
    assert!(lowercase_equals("WaV", &['w', 'a', 'v']));
    assert!(lowercase_equals("M4A", &['m', '4', 'a']));
    assert!(!lowercase_equals("wavv", &['w', 'a', 'v']));
    assert!(!lowercase_equals("wau", &['w', 'a', 'v']));
}

#[test]
fn to_text_renders_header_and_lines() {
    let transcript = Transcript {
        source_path: "meeting.wav".to_owned(),
        model_path: "models/a.bin".to_owned(),
        vad_model_path: "models/v.bin".to_owned(),
        original_sample_rate: 44_100,
        segments: vec![
            segment(1, 0, 1_500, "おはようございます"),
            segment(2, 3_600_000, 3_601_250, "議題に入ります"),
        ],
    };
    assert_eq!(
        transcript.to_text(),
        "source: meeting.wav\nmodel: models/a.bin\nvad_model: models/v.bin\n\n\
         [00:00.000 - 00:01.500] おはようございます\n\
         [01:00:00.000 - 01:00:01.250] 議題に入ります\n"
    );
}

#[test]
fn to_text_without_segments() {
    let transcript = Transcript {
        source_path: String::new(),
        model_path: "m".to_owned(),
        vad_model_path: "v".to_owned(),
        original_sample_rate: 16_000,
        segments: Vec::new(),
    };
    assert_eq!(transcript.to_text(), "source: \nmodel: m\nvad_model: v\n\n");
}

#[test]
fn sort_is_stable_for_equal_times() {
    let mut segments = vec![
        segment(1, 500, 900, "b"),
        segment(2, 100, 400, "a1"),
        segment(3, 100, 300, "a0"),
        segment(4, 100, 400, "a2"),
        segment(5, 500, 900, "c"),
    ];
    sort_segments_by_time(&mut segments);
    let texts: Vec<&str> = segments.iter().map(|s| s.text.as_str()).collect();
    assert_eq!(texts, vec!["a0", "a1", "a2", "b", "c"]);
    let indices: Vec<usize> = segments.iter().map(|s| s.index).collect();
    assert_eq!(indices, vec![3, 2, 4, 1, 5]);
}

#[test]
fn sorting_sorted_segments_keeps_them() {
    let segments = vec![
        segment(1, 0, 10, "x"),
        segment(2, 0, 10, "y"),
        segment(3, 5, 6, "z"),
    ];
    let sorted = sorted_segments(&segments);
    assert_eq!(keys(&sorted), keys(&segments));
    let again = sorted_segments(&sorted);
    assert_eq!(keys(&again), keys(&sorted));
}

#[test]
fn sorted_segments_leaves_input_alone() {
    let segments = vec![segment(1, 9, 10, "late"), segment(2, 1, 2, "early")];
    let sorted = sorted_segments(&segments);
    assert_eq!(segments[0].text, "late");
    assert_eq!(sorted[0].text, "early");
    assert_eq!(keys(&clone_segments(&segments)), keys(&segments));
}

#[test]
fn build_transcript_drops_blank_fixes_ends_sorts_and_numbers() {
    let raws = vec![
        raw(2_000, 3_000, "二つ目"),
        raw(500, 500, "一つ目"),
        raw(700, 900, "   "),
        raw(100, 50, "最初"),
        raw(4_000, 5_000, "\u{3000}\n"),
        raw(2_000, 2_500, "同時"),
    ];
    let transcript = build_transcript(
        "in.wav".to_owned(),
        "m.bin".to_owned(),
        "v.bin".to_owned(),
        48_000,
        &raws,
    );
    assert_eq!(transcript.source_path, "in.wav");
    assert_eq!(transcript.model_path, "m.bin");
    assert_eq!(transcript.vad_model_path, "v.bin");
    assert_eq!(transcript.original_sample_rate, 48_000);
    assert_eq!(
        keys(&transcript.segments),
        vec![
            (1, 100, 110, "最初".to_owned()),
            (2, 500, 510, "一つ目".to_owned()),
            (3, 2_000, 2_500, "同時".to_owned()),
            (4, 2_000, 3_000, "二つ目".to_owned()),
        ]
    );
}

#[test]
fn build_transcript_keeps_order_of_equal_times() {
    let raws = vec![raw(10, 20, "a"), raw(10, 20, "b"), raw(10, 20, "c")];
    let transcript = build_transcript(String::new(), String::new(), String::new(), 0, &raws);
    let texts: Vec<&str> = transcript.segments.iter().map(|s| s.text.as_str()).collect();
    assert_eq!(texts, vec!["a", "b", "c"]);
}

#[test]
fn build_transcript_of_nothing() {
    let transcript = build_transcript(String::new(), String::new(), String::new(), 0, &Vec::new());
    assert!(transcript.segments.is_empty());
}

#[test]
fn built_transcript_is_in_display_order() {
    let raws = vec![raw(900, 950, "c"), raw(10, 5, "a"), raw(300, 400, "b")];
    let transcript = build_transcript(String::new(), String::new(), String::new(), 0, &raws);
    let displayed = sorted_segments(&transcript.segments);
    assert_eq!(keys(&displayed), keys(&transcript.segments));
    for (position, segment) in transcript.segments.iter().enumerate() {
        assert_eq!(segment.index, position + 1);
        assert!(segment.start_ms < segment.end_ms);
    }
}

#[test]
fn timestamp_conversion() {
    assert_eq!(timestamp_to_ms(-3), 0);
    assert_eq!(timestamp_to_ms(0), 0);
    assert_eq!(timestamp_to_ms(123), 1_230);
}

#[test]
fn raw_segment_trims_and_offsets() {
    let segment = raw_segment_from(150, 320, "  こんにちは \n", 1_000);
    assert_eq!(segment.start_ms, 2_500);
    assert_eq!(segment.end_ms, 4_200);
    assert_eq!(segment.text, "こんにちは");
    let blank = raw_segment_from(-5, 10, "\u{3000}\t", 0);
    assert_eq!(blank.start_ms, 0);
    assert_eq!(blank.end_ms, 100);
    assert_eq!(blank.text, "");
}

#[test]
fn thread_count() {
    assert_eq!(whisper_thread_count(Some(1)), 1);
    assert_eq!(whisper_thread_count(Some(8)), 8);
    assert_eq!(whisper_thread_count(Some(64)), 8);
    assert_eq!(whisper_thread_count(None), 4);
}

#[test]
fn resampled_length() {
    assert_eq!(TARGET_SAMPLE_RATE, 16_000);
    assert_eq!(resampled_len(0, 44_100, 16_000), 0);
    assert_eq!(resampled_len(5, 16_000, 16_000), 5);
    assert_eq!(resampled_len(48_000, 48_000, 16_000), 16_000);
    assert_eq!(resampled_len(3, 44_100, 16_000), 1);
    assert_eq!(resampled_len(10, 8_000, 16_000), 20);
}

#[test]
fn timestamps_read_back_and_differ() {
    let times = [0u64, 999, 1_000, 59_999, 60_000, 3_599_999, 3_600_000, 36_000_000, 86_399_999];
    for (i, a) in times.iter().enumerate() {
        for b in times.iter().skip(i + 1) {
            assert_ne!(format_timestamp(*a), format_timestamp(*b));
        }
    }
    assert_eq!(format_timestamp(3_600_000).chars().count(), 12);
    assert_eq!(format_timestamp(3_599_999).chars().count(), 9);
}
