use mojiokoshi::minutes::{ExportKind, MinutesState, WorkerEvent, is_audio_extension, is_audio_file};
use mojiokoshi::transcription::{Transcript, TranscriptSegment};

fn transcript_with(segments: Vec<TranscriptSegment>) -> Transcript {
    Transcript {
        source_path: "a.wav".to_owned(),
        model_path: "m".to_owned(),
        vad_model_path: "v".to_owned(),
        original_sample_rate: 16_000,
        segments,
    }
}

fn seg(index: usize, start_ms: u64, end_ms: u64, text: &str) -> TranscriptSegment {
    TranscriptSegment {
        index,
        start_ms,
        end_ms,
        text: text.to_owned(),
    }
}

fn selected_state() -> MinutesState {
    let mut state = MinutesState::new();
    let dropped = vec![Some("/tmp/meeting.wav".to_owned())];
    assert_eq!(state.handle_dropped_files(&dropped), Some(0));
    state
}

#[test]
fn audio_extensions() {
    for extension in ["wav", "mp3", "m4a", "mp4", "aac", "flac", "ogg", "opus", "aiff"] {
        assert!(is_audio_extension(extension));
    }
    assert!(is_audio_extension("FLAC"));
    assert!(is_audio_extension("Mp3"));
    assert!(!is_audio_extension("txt"));
    assert!(!is_audio_extension("wave"));
    assert!(!is_audio_extension(""));
}

#[test]
fn audio_files() {
    assert!(is_audio_file("C:/会議/録音.WAV"));
    assert!(is_audio_file("archive.tar.Mp3"));
    assert!(is_audio_file("recording.opus"));
    assert!(!is_audio_file("notes.txt"));
    assert!(!is_audio_file("noextension"));
    assert!(!is_audio_file(".wav"));
    assert!(!is_audio_file("dir.wav/.."));
}

#[test]
fn plain_paths() {
    assert!(is_audio_file("/home/user/b.Wav"));
    assert!(is_audio_file("/x/..wav"));
    assert!(is_audio_file("relative/dir.d/take.2.ogg"));
    assert!(!is_audio_file("/x/.wav"));
    assert!(!is_audio_file("dir.wav/noext"));
    assert!(!is_audio_file("/x/a."));
}

#[test]
fn drive_paths() {
    assert!(is_audio_file("C:\\rec\\a.wav"));
    assert!(is_audio_file("D:\\x.y\\take.Opus"));
    assert!(is_audio_file("c:/会議/第1回.m4a"));
    assert!(!is_audio_file("C:\\rec\\notes.txt"));
}

#[test]
fn colons_outside_a_drive_prefix() {
    assert!(!is_audio_file("x.wav:y"));
    assert!(is_audio_file("ab:c/d.wav"));
    assert!(is_audio_file("C:take.flac"));
    assert!(is_audio_file("1:.wav"));
}

#[test]
fn trailing_separators_and_unc_shares() {
    assert!(is_audio_file("x/a.wav/"));
    assert!(is_audio_file("x/a.wav/./"));
    assert!(is_audio_file("C:\\rec\\take.Opus//"));
    assert!(!is_audio_file("x/notes.txt/"));
    assert!(is_audio_file("\\\\server\\share\\rec\\a.wav"));
    assert!(is_audio_file("\\\\server\\share\\a.FLAC"));
    assert!(!is_audio_file("\\\\server\\share\\rec\\a.doc"));
}

#[test]
fn dropping_selects_path_with_trailing_separator() {
    let mut state = MinutesState::new();
    let dropped = vec![Some("x/a.txt/".to_owned()), Some("x/a.wav/".to_owned())];
    assert_eq!(state.handle_dropped_files(&dropped), Some(1));
}

#[test]
fn dropping_selects_drive_path() {
    let mut state = MinutesState::new();
    let dropped = vec![
        Some("C:\\rec\\agenda.docx".to_owned()),
        Some("C:\\rec\\meeting.MP3".to_owned()),
    ];
    assert_eq!(state.handle_dropped_files(&dropped), Some(1));
    assert_eq!(state.selected_file.as_deref(), Some("C:\\rec\\meeting.MP3"));
}

#[test]
fn dropping_skips_non_audio_plain_paths() {
    let mut state = MinutesState::new();
    let dropped = vec![
        Some("/x/.wav".to_owned()),
        Some("/x/notes.wav.txt".to_owned()),
        Some("/x/take.OPUS".to_owned()),
    ];
    assert_eq!(state.handle_dropped_files(&dropped), Some(2));
    assert_eq!(state.selected_file.as_deref(), Some("/x/take.OPUS"));
}

#[test]
fn new_state() {
    let state = MinutesState::new();
    assert_eq!(state.status, "音声ファイルをドロップしてください");
    assert!(state.selected_file.is_none());
    assert!(!state.running);
    assert_eq!(state.progress_permille, 0);
    assert!(state.error.is_none());
    assert!(state.transcript.is_none());
    assert!(!state.can_run());
    assert!(!state.can_export());
}

#[test]
fn dropping_selects_first_audio_file() {
    let mut state = MinutesState::new();
    state.error = Some("old".to_owned());
    state.progress_permille = 700;
    let dropped = vec![
        None,
        Some("memo.txt".to_owned()),
        Some("b.flac".to_owned()),
        Some("c.wav".to_owned()),
    ];
    assert_eq!(state.handle_dropped_files(&dropped), Some(2));
    assert_eq!(state.selected_file.as_deref(), Some("b.flac"));
    assert_eq!(state.status, "実行できます");
    assert!(state.error.is_none());
    assert_eq!(state.progress_permille, 0);
    assert!(state.can_run());
}

#[test]
fn dropping_nothing_audio_changes_nothing() {
    let mut state = MinutesState::new();
    let dropped = vec![None, Some("slides.pdf".to_owned())];
    assert_eq!(state.handle_dropped_files(&dropped), None);
    assert_eq!(state.status, "音声ファイルをドロップしてください");
    assert!(state.selected_file.is_none());
}

#[test]
fn select_with_given_flags() {
    let mut state = MinutesState::new();
    let dropped = vec![Some("a".to_owned()), None, Some("c".to_owned())];
    assert_eq!(state.select_dropped_file(&dropped, &vec![false, true, true]), Some(2));
    assert_eq!(state.selected_file.as_deref(), Some("c"));
    let mut other = MinutesState::new();
    assert_eq!(other.select_dropped_file(&dropped, &vec![false, true, false]), None);
    assert!(other.selected_file.is_none());
}

#[test]
fn begin_without_file() {
    let mut state = MinutesState::new();
    assert!(!state.begin_transcription("m", true, "v", true));
    assert_eq!(state.error.as_deref(), Some("音声ファイルが選択されていません"));
    assert!(!state.running);
}

#[test]
fn begin_without_model() {
    let mut state = selected_state();
    assert!(!state.begin_transcription("models/x.bin", false, "v", true));
    assert_eq!(
        state.error.as_deref(),
        Some("Whisperモデルが見つかりません: models/x.bin")
    );
    assert!(!state.running);
}

#[test]
fn begin_without_vad_model() {
    let mut state = selected_state();
    assert!(!state.begin_transcription("m", true, "models/v.bin", false));
    assert_eq!(
        state.error.as_deref(),
        Some("Whisper VADモデルが見つかりません: models/v.bin")
    );
}

#[test]
fn begin_and_finish() {
    let mut state = selected_state();
    assert!(state.begin_transcription("m", true, "v", true));
    assert!(state.running);
    assert_eq!(state.status, "開始しています");
    assert!(!state.can_run());
    assert!(!state.can_export());

    let finished = state.apply_worker_events(vec![
        WorkerEvent::Progress {
            status: "読み込み".to_owned(),
            permille: 50,
        },
        WorkerEvent::Progress {
            status: "整形".to_owned(),
            permille: 1_500,
        },
    ]);
    assert!(!finished);
    assert_eq!(state.status, "整形");
    assert_eq!(state.progress_permille, 1_000);
    assert!(state.running);

    let finished = state.apply_worker_events(vec![
        WorkerEvent::Progress {
            status: "途中".to_owned(),
            permille: 980,
        },
        WorkerEvent::Finished(Ok(transcript_with(vec![seg(1, 0, 10, "x")]))),
    ]);
    assert!(finished);
    assert!(!state.running);
    assert_eq!(state.progress_permille, 1_000);
    assert_eq!(state.status, "完了");
    assert!(state.error.is_none());
    assert!(state.can_export());
    assert!(state.can_run());
}

#[test]
fn failed_run() {
    let mut state = selected_state();
    assert!(state.begin_transcription("m", true, "v", true));
    assert!(state.apply_worker_event(WorkerEvent::Finished(Err("壊れています".to_owned()))));
    assert_eq!(state.status, "失敗");
    assert_eq!(state.error.as_deref(), Some("壊れています"));
    assert!(state.transcript.is_none());
    assert!(!state.running);
}

#[test]
fn exports_recorded() {
    let mut state = MinutesState::new();
    state.record_export(ExportKind::Json, Ok("/out/minutes.json".to_owned()));
    assert_eq!(state.status, "JSONを書き出しました: /out/minutes.json");
    state.record_export(ExportKind::Text, Ok("/out/minutes.txt".to_owned()));
    assert_eq!(state.status, "テキストを書き出しました: /out/minutes.txt");
    state.record_export(ExportKind::Text, Err("書けません".to_owned()));
    assert_eq!(state.error.as_deref(), Some("書けません"));
    assert_eq!(state.status, "テキストを書き出しました: /out/minutes.txt");
}

#[test]
fn display_segments_in_time_order() {
    let mut state = MinutesState::new();
    assert!(state.display_segments().is_empty());
    state.transcript = Some(transcript_with(vec![
        seg(1, 30, 40, "c"),
        seg(2, 10, 20, "a"),
        seg(3, 10, 20, "b"),
    ]));
    let texts: Vec<String> = state
        .display_segments()
        .into_iter()
        .map(|s| s.text)
        .collect();
    assert_eq!(texts, vec!["a", "b", "c"]);
}

#[test]
fn run_goes_on_until_finished() {
    let mut state = selected_state();
    assert!(state.begin_transcription("m", true, "v", true));
    assert!(!state.apply_worker_events(Vec::new()));
    assert!(state.running);
    assert!(!state.apply_worker_events(vec![WorkerEvent::Progress {
        status: "a".to_owned(),
        permille: 5_000,
    }]));
    assert!(state.running);
    assert!(state.progress_permille <= 1_000);
    assert!(state.apply_worker_events(vec![
        WorkerEvent::Finished(Err("x".to_owned())),
        WorkerEvent::Progress {
            status: "b".to_owned(),
            permille: 10,
        },
    ]));
    assert!(!state.running);
    assert_eq!(state.progress_permille, 10);
}
