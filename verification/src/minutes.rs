use vstd::prelude::*;

use crate::text::{ascii_lowercase, lowercase_equals};
use crate::transcription::{is_stable_time_sort, sorted_by_time, sorted_segments, Transcript, TranscriptSegment};

verus! {

// ---------------------------------------------------------------------------------------------
// Audio files
// ---------------------------------------------------------------------------------------------

/// The extensions, lowercase, of the audio files that can be transcribed.
pub open spec fn is_audio_extension_text(extension: Seq<char>) -> bool {
    let lower = ascii_lowercase(extension);
    ||| lower == seq!['w', 'a', 'v']
    ||| lower == seq!['m', 'p', '3']
    ||| lower == seq!['m', '4', 'a']
    ||| lower == seq!['m', 'p', '4']
    ||| lower == seq!['a', 'a', 'c']
    ||| lower == seq!['f', 'l', 'a', 'c']
    ||| lower == seq!['o', 'g', 'g']
    ||| lower == seq!['o', 'p', 'u', 's']
    ||| lower == seq!['a', 'i', 'f', 'f']
}

/// The audio extensions, lowercase: wav, mp3, m4a, mp4, aac, flac, ogg, opus and aiff.
pub open spec fn audio_extensions() -> Set<Seq<char>> {
    set![
        seq!['w', 'a', 'v'],
        seq!['m', 'p', '3'],
        seq!['m', '4', 'a'],
        seq!['m', 'p', '4'],
        seq!['a', 'a', 'c'],
        seq!['f', 'l', 'a', 'c'],
        seq!['o', 'g', 'g'],
        seq!['o', 'p', 'u', 's'],
        seq!['a', 'i', 'f', 'f'],
    ]
}

/// An extension is an audio one exactly when its ASCII lowercase is one of the nine audio
/// extensions; so it has three or four characters.
pub proof fn lemma_audio_extensions_are_the_nine(extension: Seq<char>)
    ensures
        is_audio_extension_text(extension) <==> audio_extensions().contains(
            ascii_lowercase(extension),
        ),
        is_audio_extension_text(extension) ==> 3 <= extension.len() <= 4,
{
    assert(ascii_lowercase(extension).len() == extension.len());
}

/// Whether `extension` is that of an audio file, ignoring ASCII case.
pub fn is_audio_extension(extension: &str) -> (audio: bool)
    ensures
        audio == is_audio_extension_text(extension@),
{
    let wav = ['w', 'a', 'v'];
    let mp3 = ['m', 'p', '3'];
    let m4a = ['m', '4', 'a'];
    let mp4 = ['m', 'p', '4'];
    let aac = ['a', 'a', 'c'];
    let flac = ['f', 'l', 'a', 'c'];
    let ogg = ['o', 'g', 'g'];
    let opus = ['o', 'p', 'u', 's'];
    let aiff = ['a', 'i', 'f', 'f'];
    assert(wav@ =~= seq!['w', 'a', 'v']);
    assert(mp3@ =~= seq!['m', 'p', '3']);
    assert(m4a@ =~= seq!['m', '4', 'a']);
    assert(mp4@ =~= seq!['m', 'p', '4']);
    assert(aac@ =~= seq!['a', 'a', 'c']);
    assert(flac@ =~= seq!['f', 'l', 'a', 'c']);
    assert(ogg@ =~= seq!['o', 'g', 'g']);
    assert(opus@ =~= seq!['o', 'p', 'u', 's']);
    assert(aiff@ =~= seq!['a', 'i', 'f', 'f']);
    lowercase_equals(extension, wav.as_slice()) || lowercase_equals(extension, mp3.as_slice())
        || lowercase_equals(extension, m4a.as_slice()) || lowercase_equals(
        extension,
        mp4.as_slice(),
    ) || lowercase_equals(extension, aac.as_slice()) || lowercase_equals(
        extension,
        flac.as_slice(),
    ) || lowercase_equals(extension, ogg.as_slice()) || lowercase_equals(
        extension,
        opus.as_slice(),
    ) || lowercase_equals(extension, aiff.as_slice())
}

/// Whether a file is audio does not depend on the ASCII case of its extension.
pub proof fn lemma_audio_extension_ignores_ascii_case(a: Seq<char>, b: Seq<char>)
    requires
        ascii_lowercase(a) == ascii_lowercase(b),
    ensures
        is_audio_extension_text(a) == is_audio_extension_text(b),
{
}

/// `extension` follows a dot at `dot` in `path`.
pub open spec fn follows_dot(path: Seq<char>, dot: int, extension: Seq<char>) -> bool {
    &&& 0 <= dot
    &&& dot + 1 + extension.len() <= path.len()
    &&& path[dot] == '.'
    &&& path.subrange(dot + 1, dot + 1 + extension.len()) == extension
}

/// Position of the last `c` in `s`, or -1 when there is none.
pub open spec fn last_index_of(s: Seq<char>, c: char) -> int
    decreases s.len(),
{
    if s.len() == 0 {
        -1
    } else if s.last() == c {
        s.len() - 1
    } else {
        last_index_of(s.drop_last(), c)
    }
}

/// What follows the last `/` of `path` (all of it when there is none).
pub open spec fn final_component(path: Seq<char>) -> Seq<char> {
    path.subrange(last_index_of(path, '/') + 1, path.len() as int)
}

/// A path that every platform splits the same way: no backslash, no `:` (so no Windows prefix),
/// no leading `//`, and a last part after its last `/` that is a file name, neither empty nor
/// `.` nor `..`. Its file name is that last part.
pub open spec fn is_plain_path(path: Seq<char>) -> bool {
    let name = final_component(path);
    &&& !path.contains('\\')
    &&& !path.contains(':')
    &&& !(path.len() >= 2 && path[0] == '/' && path[1] == '/')
    &&& name.len() > 0
    &&& name != seq!['.']
    &&& name != seq!['.', '.']
}

/// The extension of a file name: what follows its last dot, none when it has no dot or its
/// only dot leads it.
pub open spec fn name_extension(name: Seq<char>) -> Option<Seq<char>> {
    let dot = last_index_of(name, '.');
    if dot <= 0 {
        None
    } else {
        Some(name.subrange(dot + 1, name.len() as int))
    }
}

/// A plain path names an audio file: its file name has an audio extension.
pub open spec fn plain_path_is_audio(path: Seq<char>) -> bool {
    match name_extension(final_component(path)) {
        Some(extension) => is_audio_extension_text(extension),
        None => false,
    }
}

/// `/` and `\\` separate path components on Windows; `/` does everywhere.
pub open spec fn is_path_separator(c: char) -> bool {
    c == '/' || c == '\\'
}

/// Position of the last separator of `s`, or -1 when there is none.
pub open spec fn last_separator_index(s: Seq<char>) -> int
    decreases s.len(),
{
    if s.len() == 0 {
        -1
    } else if is_path_separator(s.last()) {
        s.len() - 1
    } else {
        last_separator_index(s.drop_last())
    }
}

/// What follows the last `/` or `\\` of `path` (all of it when there is none).
pub open spec fn separated_final(path: Seq<char>) -> Seq<char> {
    path.subrange(last_separator_index(path) + 1, path.len() as int)
}

/// An ASCII letter, as a Windows drive letter is.
pub open spec fn is_ascii_letter(c: char) -> bool {
    'a' <= c <= 'z' || 'A' <= c <= 'Z'
}

/// `path` starts with a Windows drive prefix: an ASCII letter and `:`.
pub open spec fn has_drive_prefix(path: Seq<char>) -> bool {
    path.len() >= 2 && path[1] == ':' && is_ascii_letter(path[0])
}

/// The file name Windows reads in `path`: the part after the last `/` or `\\`, without the
/// drive prefix when no separator follows it (`C:a.wav` names `a.wav`).
pub open spec fn windows_file_name(path: Seq<char>) -> Seq<char> {
    if has_drive_prefix(path) && last_separator_index(path) < 0 {
        path.subrange(2, path.len() as int)
    } else {
        separated_final(path)
    }
}

/// `path` without the trailing `/` separators and the trailing `.` components after a `/`,
/// which every platform drops when it splits a path into components (`x/a.wav/./` ends in
/// the component `a.wav`).
pub open spec fn without_trailing_separators(path: Seq<char>) -> Seq<char>
    decreases path.len(),
{
    if path.len() > 0 && path.last() == '/' {
        without_trailing_separators(path.drop_last())
    } else if path.len() >= 2 && path.last() == '.' && path[path.len() - 2] == '/' {
        without_trailing_separators(path.drop_last())
    } else {
        path
    }
}

/// A path whose extension every platform reads alike, drive paths such as `C:\\rec\\a.wav`
/// and paths with trailing `/` among them: it does not start with two separators (so its only
/// possible Windows prefix is a drive), and, once trailing separators and `.` components are
/// dropped, the file name Windows reads in it is not `..` and has a dot after its first
/// character. A `:` elsewhere is an ordinary character on every platform. That file name is a
/// suffix of the one Unix reads (all that follows the last `/`), so the last dot of both is
/// the same dot, and neither name starts with it.
pub open spec fn is_agreed_path(path: Seq<char>) -> bool {
    let name = windows_file_name(without_trailing_separators(path));
    &&& !(path.len() >= 2 && is_path_separator(path[0]) && is_path_separator(path[1]))
    &&& name != seq!['.', '.']
    &&& last_index_of(name, '.') > 0
}

/// The extension of an agreed path: what follows the last dot of the file name.
pub open spec fn agreed_extension(path: Seq<char>) -> Seq<char> {
    let name = windows_file_name(without_trailing_separators(path));
    name.subrange(last_index_of(name, '.') + 1, name.len() as int)
}

/// Position of the first `c` in `s` at or after `from`, or -1 when there is none.
pub open spec fn index_of_from(s: Seq<char>, c: char, from: int) -> int
    decreases s.len() - from,
{
    if from < 0 || from >= s.len() {
        -1
    } else if s[from] == c {
        from
    } else {
        index_of_from(s, c, from + 1)
    }
}

/// A UNC path `\\server\share\...\name` written with backslashes only, with a server and a
/// share that are not empty and at least one component after the share, and whose last part is
/// not `..` and has a dot after its first character. Windows reads the `\\server\share`
/// prefix and takes the last part as the file name; Unix, with no `/` in the path, takes the
/// whole path as the file name, whose last dot is that of the last part. Paths starting
/// `\\?` or `\\.` (verbatim and device paths) are not among them.
pub open spec fn is_unc_share_path(path: Seq<char>) -> bool {
    let server_end = index_of_from(path, '\\', 2);
    let share_end = index_of_from(path, '\\', server_end + 1);
    let name = separated_final(path);
    &&& path.len() >= 3
    &&& path[0] == '\\'
    &&& path[1] == '\\'
    &&& path[2] != '\\' && path[2] != '?' && path[2] != '.'
    &&& !path.contains('/')
    &&& server_end > 2
    &&& share_end > server_end + 1
    &&& last_separator_index(path) >= share_end
    &&& name != seq!['.', '.']
    &&& last_index_of(name, '.') > 0
}

/// The extension of a UNC share path: what follows the last dot of its last part.
pub open spec fn unc_extension(path: Seq<char>) -> Seq<char> {
    let name = separated_final(path);
    name.subrange(last_index_of(name, '.') + 1, name.len() as int)
}

/// Every platform reads the extension of `path` alike: it is plain, agreed or a UNC share path.
pub open spec fn audio_is_settled(path: Seq<char>) -> bool {
    is_plain_path(path) || is_agreed_path(path) || is_unc_share_path(path)
}

/// A path whose extension every platform reads alike names an audio file.
pub open spec fn settled_path_is_audio(path: Seq<char>) -> bool {
    if is_agreed_path(path) {
        is_audio_extension_text(agreed_extension(path))
    } else if is_unc_share_path(path) {
        is_audio_extension_text(unc_extension(path))
    } else {
        plain_path_is_audio(path)
    }
}

/// Calls `Path::extension` and takes the extension as text. What it returns depends on the
/// platform's path separators and prefixes, so no name is given to it; the contract states
/// what its documentation gives on every platform: without a dot there is no extension; an
/// extension is the part of the file name after its last dot, so it holds no dot and follows
/// a dot of the path; and for a plain path, whose file name every platform takes to be what
/// follows the last `/`, the extension is what follows the last dot of that name, none when
/// the name has no dot or starts with its only dot; for an agreed path, such as a drive path
/// or one with trailing `/`, and for a UNC share path, the extension is what follows the last
/// dot of the file name.
#[verifier::external_body]
fn path_extension(path: &str) -> (extension: Option<&str>)
    ensures
        !path@.contains('.') ==> extension is None,
        extension matches Some(e) ==> !e@.contains('.') && exists|dot: int|
            #[trigger] follows_dot(path@, dot, e@),
        is_plain_path(path@) ==> match extension {
            Some(e) => name_extension(final_component(path@)) == Some(e@),
            None => name_extension(final_component(path@)) is None,
        },
        is_agreed_path(path@) ==> match extension {
            Some(e) => e@ == agreed_extension(path@),
            None => false,
        },
        is_unc_share_path(path@) ==> match extension {
            Some(e) => e@ == unc_extension(path@),
            None => false,
        },
{
    match std::path::Path::new(path).extension() {
        Some(extension) => extension.to_str(),
        None => None,
    }
}

/// Whether the file at `path` has the extension of an audio file, ignoring ASCII case.
pub fn is_audio_file(path: &str) -> (audio: bool)
    ensures
        !path@.contains('.') ==> !audio,
        audio ==> exists|dot: int, extension: Seq<char>|
            #[trigger] follows_dot(path@, dot, extension) && is_audio_extension_text(extension),
        audio_is_settled(path@) ==> audio == settled_path_is_audio(path@),
{
    match path_extension(path) {
        Some(extension) => {
            let audio = is_audio_extension(extension);
            proof {
                let dot = choose|dot: int| #[trigger] follows_dot(path@, dot, extension@);
                assert(follows_dot(path@, dot, extension@));
            }
            audio
        },
        None => false,
    }
}

// ---------------------------------------------------------------------------------------------
// The state of the minutes window
// ---------------------------------------------------------------------------------------------

/// What the background transcription reports.
pub enum WorkerEvent {
    /// A step has begun; progress is counted in thousandths.
    Progress { status: String, permille: u32 },
    /// The transcription ended, with its transcript or the reason it failed.
    Finished(Result<Transcript, String>),
}

/// The file whose transcript is being written out.
#[derive(Clone, Copy, Debug)]
pub enum ExportKind {
    Json,
    Text,
}

/// What the minutes window shows and decides on: the selected audio file, whether a
/// transcription runs, its progress in thousandths, the status line, the last error and the
/// transcript.
pub struct MinutesState {
    pub selected_file: Option<String>,
    pub running: bool,
    pub progress_permille: u32,
    pub status: String,
    pub error: Option<String>,
    pub transcript: Option<Transcript>,
}

/// The state with its texts taken as character sequences.
pub struct MinutesView {
    pub selected_file: Option<Seq<char>>,
    pub running: bool,
    pub progress_permille: u32,
    pub status: Seq<char>,
    pub error: Option<Seq<char>>,
    pub transcript: Option<Transcript>,
}

/// An optional text as an optional character sequence.
pub open spec fn text_option(text: Option<String>) -> Option<Seq<char>> {
    match text {
        Some(s) => Some(s@),
        None => None,
    }
}

impl View for MinutesState {
    type V = MinutesView;

    open spec fn view(&self) -> MinutesView {
        MinutesView {
            selected_file: text_option(self.selected_file),
            running: self.running,
            progress_permille: self.progress_permille,
            status: self.status@,
            error: text_option(self.error),
            transcript: self.transcript,
        }
    }
}

impl MinutesView {
    /// Progress is at most complete, and while a transcription runs a file is selected and no
    /// transcript is shown.
    pub open spec fn wf(self) -> bool {
        &&& self.progress_permille <= 1000
        &&& self.running ==> self.selected_file is Some && self.transcript is None
    }
}

/// Progress reported by the worker, capped at complete.
pub open spec fn clamped_permille(permille: u32) -> u32 {
    if permille > 1000 {
        1000
    } else {
        permille
    }
}

/// The state after one event of the worker.
pub open spec fn after_worker_event(v: MinutesView, event: WorkerEvent) -> MinutesView {
    match event {
        WorkerEvent::Progress { status, permille } => MinutesView {
            status: status@,
            progress_permille: clamped_permille(permille),
            ..v
        },
        WorkerEvent::Finished(Ok(transcript)) => MinutesView {
            running: false,
            progress_permille: 1000,
            status: "完了"@,
            error: None,
            transcript: Some(transcript),
            ..v
        },
        WorkerEvent::Finished(Err(message)) => MinutesView {
            running: false,
            progress_permille: 1000,
            status: "失敗"@,
            error: Some(message@),
            ..v
        },
    }
}

/// The state after the events of the worker, in the order they came.
pub open spec fn after_worker_events(v: MinutesView, events: Seq<WorkerEvent>) -> MinutesView
    decreases events.len(),
{
    if events.len() == 0 {
        v
    } else {
        after_worker_events(after_worker_event(v, events[0]), events.drop_first())
    }
}

/// One of the events ends the transcription.
pub open spec fn any_finished(events: Seq<WorkerEvent>) -> bool {
    exists|i: int| 0 <= i < events.len() && #[trigger] events[i] is Finished
}

/// A transcription that runs goes on running exactly until an event of the worker ends it,
/// and after any event its progress is at most complete, whatever it was before.
pub proof fn lemma_worker_events_end_run(v: MinutesView, events: Seq<WorkerEvent>)
    ensures
        after_worker_events(v, events).running == (v.running && !any_finished(events)),
        events.len() > 0 ==> after_worker_events(v, events).progress_permille <= 1000,
    decreases events.len(),
{
    if events.len() > 0 {
        let rest = events.drop_first();
        let next = after_worker_event(v, events[0]);
        lemma_worker_events_end_run(next, rest);
        if any_finished(rest) {
            let i = choose|i: int| 0 <= i < rest.len() && #[trigger] rest[i] is Finished;
            assert(events[i + 1] == rest[i]);
        }
        if any_finished(events) && !(events[0] is Finished) {
            let i = choose|i: int| 0 <= i < events.len() && #[trigger] events[i] is Finished;
            assert(rest[i - 1] == events[i]);
        }
        if events[0] is Finished {
            assert(any_finished(events));
        }
    }
}

/// The state after an audio file at `path` has been selected.
pub open spec fn after_selection(v: MinutesView, path: Seq<char>) -> MinutesView {
    MinutesView {
        selected_file: Some(path),
        status: "実行できます"@,
        error: None,
        transcript: None,
        progress_permille: 0,
        ..v
    }
}

/// Selecting a file starts afresh: the file is selected, no transcript is held (so nothing can
/// be exported until the file is transcribed), no error is shown, progress is back to zero, and
/// whether a transcription runs is unchanged.
pub proof fn lemma_selection_starts_afresh(v: MinutesView, path: Seq<char>)
    ensures
        after_selection(v, path).selected_file == Some(path),
        after_selection(v, path).transcript is None,
        after_selection(v, path).error is None,
        after_selection(v, path).progress_permille == 0,
        after_selection(v, path).running == v.running,
{
}

/// The dropped file at `i` has a path and is an audio file.
pub open spec fn selectable(dropped: Seq<Option<String>>, audio: Seq<bool>, i: int) -> bool {
    dropped[i] is Some && audio[i]
}

/// The status line after a transcript has been written out to `path`.
pub open spec fn export_status(kind: ExportKind, path: Seq<char>) -> Seq<char> {
    match kind {
        ExportKind::Json => "JSONを書き出しました: "@ + path,
        ExportKind::Text => "テキストを書き出しました: "@ + path,
    }
}

impl MinutesState {
    /// The state of a window that has just opened.
    pub fn new() -> (state: Self)
        ensures
            state@ == (MinutesView {
                selected_file: None,
                running: false,
                progress_permille: 0,
                status: "音声ファイルをドロップしてください"@,
                error: None,
                transcript: None,
            }),
            state@.wf(),
    {
        MinutesState {
            selected_file: None,
            running: false,
            progress_permille: 0,
            status: "音声ファイルをドロップしてください".to_owned(),
            error: None,
            transcript: None,
        }
    }

    /// Whether a transcription can be started: a file is selected and none runs.
    pub fn can_run(&self) -> (can: bool)
        ensures
            can == (self.selected_file is Some && !self.running),
    {
        self.selected_file.is_some() && !self.running
    }

    /// Whether the transcript can be written out: there is one and no transcription runs.
    pub fn can_export(&self) -> (can: bool)
        ensures
            can == (self.transcript is Some && !self.running),
    {
        self.transcript.is_some() && !self.running
    }

    /// Applies one event of the worker; returns whether it ended the transcription.
    pub fn apply_worker_event(&mut self, event: WorkerEvent) -> (finished: bool)
        ensures
            final(self)@ == after_worker_event(old(self)@, event),
            finished == event is Finished,
            old(self)@.wf() ==> final(self)@.wf(),
    {
        match event {
            WorkerEvent::Progress { status, permille } => {
                self.status = status;
                self.progress_permille = if permille > 1000 {
                    1000
                } else {
                    permille
                };
                false
            },
            WorkerEvent::Finished(result) => {
                self.running = false;
                self.progress_permille = 1000;
                match result {
                    Ok(transcript) => {
                        self.status = "完了".to_owned();
                        self.error = None;
                        self.transcript = Some(transcript);
                    },
                    Err(message) => {
                        self.status = "失敗".to_owned();
                        self.error = Some(message);
                    },
                }
                true
            },
        }
    }

    /// Applies the events that the worker has sent, in order; returns whether one of them
    /// ended the transcription.
    pub fn apply_worker_events(&mut self, events: Vec<WorkerEvent>) -> (finished: bool)
        ensures
            final(self)@ == after_worker_events(old(self)@, events@),
            finished == any_finished(events@),
            old(self)@.wf() ==> final(self)@.wf(),
    {
        let ghost start = self@;
        let ghost all = events@;
        let mut rest = events;
        let mut finished = false;
        while rest.len() > 0
            invariant
                after_worker_events(self@, rest@) == after_worker_events(start, all),
                any_finished(all) == (finished || any_finished(rest@)),
                start.wf() ==> self@.wf(),
            decreases rest@.len(),
        {
            let ghost before = rest@;
            let event = rest.remove(0);
            proof {
                assert(before.drop_first() =~= rest@);
                if any_finished(before) && !(event is Finished) {
                    let i = choose|i: int| 0 <= i < before.len() && #[trigger] before[i] is Finished;
                    assert(rest@[i - 1] == before[i]);
                }
                if any_finished(rest@) {
                    let i = choose|i: int| 0 <= i < rest@.len() && #[trigger] rest@[i] is Finished;
                    assert(before[i + 1] == rest@[i]);
                }
                if event is Finished {
                    assert(before[0] is Finished);
                }
            }
            if self.apply_worker_event(event) {
                finished = true;
            }
        }
        proof {
            assert(!any_finished(rest@));
        }
        finished
    }

    /// Selects the first dropped file that has a path and is an audio file, as `audio`
    /// tells; returns its position, and leaves the state as it was when there is none.
    pub fn select_dropped_file(&mut self, dropped: &Vec<Option<String>>, audio: &Vec<bool>) -> (chosen:
        Option<usize>)
        requires
            dropped@.len() == audio@.len(),
        ensures
            match chosen {
                Some(i) => {
                    &&& i < dropped@.len()
                    &&& selectable(dropped@, audio@, i as int)
                    &&& forall|j: int| 0 <= j < i ==> !#[trigger] selectable(dropped@, audio@, j)
                    &&& final(self)@ == after_selection(old(self)@, dropped@[i as int]->Some_0@)
                },
                None => {
                    &&& forall|j: int|
                        0 <= j < dropped@.len() ==> !#[trigger] selectable(dropped@, audio@, j)
                    &&& final(self)@ == old(self)@
                },
            },
            old(self)@.wf() ==> final(self)@.wf(),
            chosen is Some ==> {
                &&& final(self).selected_file == Some(dropped@[chosen->Some_0 as int]->Some_0)
                &&& final(self).transcript is None
                &&& final(self).error is None
                &&& final(self).progress_permille == 0
                &&& final(self).running == old(self).running
            },
    {
        let n = dropped.len();
        let mut i: usize = 0;
        while i < n
            invariant
                n == dropped@.len(),
                n == audio@.len(),
                i <= n,
                *self == *old(self),
                forall|j: int| 0 <= j < i ==> !#[trigger] selectable(dropped@, audio@, j),
            decreases n - i,
        {
            if audio[i] {
                match &dropped[i] {
                    Some(path) => {
                        self.selected_file = Some(path.clone());
                        self.status = "実行できます".to_owned();
                        self.error = None;
                        self.transcript = None;
                        self.progress_permille = 0;
                        return Some(i);
                    },
                    None => {},
                }
            }
            i = i + 1;
        }
        None
    }

    /// Handles files dropped on the window: the first one that has a path and the extension
    /// of an audio file is selected. Returns its position, and leaves the state as it was
    /// when there is none.
    pub fn handle_dropped_files(&mut self, dropped: &Vec<Option<String>>) -> (chosen: Option<usize>)
        ensures
            match chosen {
                Some(i) => {
                    &&& i < dropped@.len()
                    &&& dropped@[i as int] is Some
                    &&& dropped@[i as int]->Some_0@.contains('.')
                    &&& exists|dot: int, extension: Seq<char>|
                        #[trigger] follows_dot(dropped@[i as int]->Some_0@, dot, extension)
                            && is_audio_extension_text(extension)
                    &&& audio_is_settled(dropped@[i as int]->Some_0@) ==> settled_path_is_audio(
                        dropped@[i as int]->Some_0@,
                    )
                    &&& forall|j: int|
                        0 <= j < i && #[trigger] dropped@[j] is Some && audio_is_settled(
                            dropped@[j]->Some_0@,
                        ) ==> !settled_path_is_audio(dropped@[j]->Some_0@)
                    &&& final(self)@ == after_selection(old(self)@, dropped@[i as int]->Some_0@)
                },
                None => {
                    &&& forall|j: int|
                        0 <= j < dropped@.len() && #[trigger] dropped@[j] is Some && audio_is_settled(
                            dropped@[j]->Some_0@,
                        ) ==> !settled_path_is_audio(dropped@[j]->Some_0@)
                    &&& final(self)@ == old(self)@
                },
            },
            old(self)@.wf() ==> final(self)@.wf(),
            chosen is Some ==> {
                &&& final(self).selected_file == Some(dropped@[chosen->Some_0 as int]->Some_0)
                &&& final(self).transcript is None
                &&& final(self).error is None
                &&& final(self).progress_permille == 0
                &&& final(self).running == old(self).running
            },
    {
        let n = dropped.len();
        let mut audio: Vec<bool> = Vec::new();
        let mut i: usize = 0;
        while i < n
            invariant
                n == dropped@.len(),
                i <= n,
                audio@.len() == i,
                forall|j: int|
                    0 <= j < i && #[trigger] audio@[j] ==> dropped@[j] is Some
                        && dropped@[j]->Some_0@.contains('.') && exists|dot: int, extension: Seq<char>|
                        #[trigger] follows_dot(dropped@[j]->Some_0@, dot, extension)
                            && is_audio_extension_text(extension),
                forall|j: int|
                    0 <= j < i && #[trigger] dropped@[j] is Some && audio_is_settled(
                        dropped@[j]->Some_0@,
                    ) ==> audio@[j] == settled_path_is_audio(dropped@[j]->Some_0@),
                forall|j: int| 0 <= j < i && #[trigger] dropped@[j] is None ==> !audio@[j],
            decreases n - i,
        {
            let flag = match &dropped[i] {
                Some(path) => is_audio_file(path.as_str()),
                None => false,
            };
            audio.push(flag);
            i = i + 1;
        }
        let chosen = self.select_dropped_file(dropped, &audio);
        proof {
            assert forall|j: int|
                0 <= j < dropped@.len() && #[trigger] dropped@[j] is Some && audio_is_settled(
                    dropped@[j]->Some_0@,
                ) && !selectable(dropped@, audio@, j) implies !settled_path_is_audio(
                dropped@[j]->Some_0@,
            ) by {
                assert(audio@[j] == settled_path_is_audio(dropped@[j]->Some_0@));
            }
        }
        chosen
    }

    /// Starts a transcription of the selected file with the models at the given paths, when a
    /// file is selected and both models exist; otherwise records why it cannot start.
    /// Returns whether the transcription starts.
    pub fn begin_transcription(
        &mut self,
        model_path: &str,
        model_exists: bool,
        vad_model_path: &str,
        vad_model_exists: bool,
    ) -> (start: bool)
        ensures
            start == (old(self).selected_file is Some && model_exists && vad_model_exists),
            old(self).selected_file is None ==> final(self)@ == (MinutesView {
                error: Some("音声ファイルが選択されていません"@),
                ..old(self)@
            }),
            old(self).selected_file is Some && !model_exists ==> final(self)@ == (MinutesView {
                error: Some("Whisperモデルが見つかりません: "@ + model_path@),
                ..old(self)@
            }),
            old(self).selected_file is Some && model_exists && !vad_model_exists ==> final(self)@
                == (MinutesView {
                error: Some("Whisper VADモデルが見つかりません: "@ + vad_model_path@),
                ..old(self)@
            }),
            start ==> final(self)@ == (MinutesView {
                running: true,
                progress_permille: 0,
                error: None,
                transcript: None,
                status: "開始しています"@,
                ..old(self)@
            }),
            old(self)@.wf() ==> final(self)@.wf(),
    {
        if self.selected_file.is_none() {
            self.error = Some("音声ファイルが選択されていません".to_owned());
            return false;
        }
        if !model_exists {
            let mut message = "Whisperモデルが見つかりません: ".to_owned();
            message.append(model_path);
            self.error = Some(message);
            return false;
        }
        if !vad_model_exists {
            let mut message = "Whisper VADモデルが見つかりません: ".to_owned();
            message.append(vad_model_path);
            self.error = Some(message);
            return false;
        }
        self.running = true;
        self.progress_permille = 0;
        self.error = None;
        self.transcript = None;
        self.status = "開始しています".to_owned();
        true
    }

    /// Records how writing out the transcript went: the path written, or the error.
    pub fn record_export(&mut self, kind: ExportKind, outcome: Result<String, String>)
        ensures
            match outcome {
                Ok(path) => final(self)@ == (MinutesView {
                    status: export_status(kind, path@),
                    ..old(self)@
                }),
                Err(message) => final(self)@ == (MinutesView {
                    error: Some(message@),
                    ..old(self)@
                }),
            },
            old(self)@.wf() ==> final(self)@.wf(),
    {
        match outcome {
            Ok(path) => {
                let mut status = match kind {
                    ExportKind::Json => "JSONを書き出しました: ".to_owned(),
                    ExportKind::Text => "テキストを書き出しました: ".to_owned(),
                };
                status.append(path.as_str());
                self.status = status;
            },
            Err(message) => {
                self.error = Some(message);
            },
        }
    }

    /// The segments of the transcript in display order: by (start, end), equal times keeping
    /// their order; none without a transcript.
    pub fn display_segments(&self) -> (segments: Vec<TranscriptSegment>)
        ensures
            match self.transcript {
                Some(transcript) => {
                    &&& is_stable_time_sort(transcript.segments@, segments@)
                    &&& sorted_by_time(transcript.segments@) ==> segments@ == transcript.segments@
                },
                None => segments@.len() == 0,
            },
    {
        match &self.transcript {
            Some(transcript) => sorted_segments(&transcript.segments),
            None => Vec::new(),
        }
    }
}

} // verus!
