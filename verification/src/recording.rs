//! Screen recording with `ffmpeg`: one recording at a time, started with
//! the display's resolution and stopped by asking `ffmpeg` to finish.

use vstd::prelude::*;
use crate::text::{
    chars_of, decimal, decimal_u128, find_char, find_char_in, first_word, lemma_find_char_from_bounds,
    lemma_lines_step, lines, parse_u32, parse_u32_range, push_str, skip_whitespace, subvec, trim,
    trim_str, word_end, strip_cr, find_char_from,
};

verus! {

/// Why a recording could not be started or finished.
pub enum RecordingError {
    AlreadyRecording,
    /// `xrandr` could not be run.
    ScreenQueryFailed(String),
    /// `xrandr` did not report a current resolution.
    ScreenSizeUnknown,
    /// `ffmpeg` could not be started.
    SpawnFailed(String),
    /// `ffmpeg` stopped right after starting, with this status and error output.
    ExitedImmediately { status: String, stderr: String },
    NoRecording,
    NoOutputPath,
    /// Waiting for `ffmpeg` to finish failed.
    WaitFailed(String),
    /// `ffmpeg` finished unsuccessfully, with this status and error output.
    ExitFailed { status: String, stderr: String },
    /// The recording's file is empty.
    OutputEmpty(String),
    /// The recording's file cannot be found.
    OutputMissing { path: String, error: String },
}

/// The message of a recording error.
pub open spec fn recording_error_message(e: RecordingError) -> Seq<char> {
    match e {
        RecordingError::AlreadyRecording => "A recording is already in progress"@,
        RecordingError::ScreenQueryFailed(err) => "Failed to run xrandr: "@ + err@,
        RecordingError::ScreenSizeUnknown => "Could not determine screen resolution from xrandr output"@,
        RecordingError::SpawnFailed(err) => "Failed to start ffmpeg: "@ + err@,
        RecordingError::ExitedImmediately { status, stderr } => "ffmpeg exited immediately (status "@ + status@
            + "): "@ + trim(stderr@),
        RecordingError::NoRecording => "No recording in progress"@,
        RecordingError::NoOutputPath => "No output path recorded"@,
        RecordingError::WaitFailed(err) => "Failed to wait for ffmpeg to exit: "@ + err@,
        RecordingError::ExitFailed { status, stderr } => "ffmpeg exited with "@ + status@ + ": "@ + trim(stderr@),
        RecordingError::OutputEmpty(path) => "Recording finished but the output file is empty: "@ + path@,
        RecordingError::OutputMissing { path, error } => "Recording finished but the output file is missing: "@
            + path@ + " ("@ + error@ + ")"@,
    }
}

impl RecordingError {
    pub fn message(&self) -> (m: String)
        ensures
            m@ == recording_error_message(*self),
    {
        match self {
            RecordingError::AlreadyRecording => String::from_str("A recording is already in progress"),
            RecordingError::ScreenQueryFailed(err) => {
                let mut m = String::from_str("Failed to run xrandr: ");
                push_str(&mut m, err.as_str());
                m
            },
            RecordingError::ScreenSizeUnknown => String::from_str(
                "Could not determine screen resolution from xrandr output",
            ),
            RecordingError::SpawnFailed(err) => {
                let mut m = String::from_str("Failed to start ffmpeg: ");
                push_str(&mut m, err.as_str());
                m
            },
            RecordingError::ExitedImmediately { status, stderr } => {
                let mut m = String::from_str("ffmpeg exited immediately (status ");
                push_str(&mut m, status.as_str());
                push_str(&mut m, "): ");
                let t = trim_str(stderr.as_str());
                push_str(&mut m, t.as_str());
                m
            },
            RecordingError::NoRecording => String::from_str("No recording in progress"),
            RecordingError::NoOutputPath => String::from_str("No output path recorded"),
            RecordingError::WaitFailed(err) => {
                let mut m = String::from_str("Failed to wait for ffmpeg to exit: ");
                push_str(&mut m, err.as_str());
                m
            },
            RecordingError::ExitFailed { status, stderr } => {
                let mut m = String::from_str("ffmpeg exited with ");
                push_str(&mut m, status.as_str());
                push_str(&mut m, ": ");
                let t = trim_str(stderr.as_str());
                push_str(&mut m, t.as_str());
                m
            },
            RecordingError::OutputEmpty(path) => {
                let mut m = String::from_str("Recording finished but the output file is empty: ");
                push_str(&mut m, path.as_str());
                m
            },
            RecordingError::OutputMissing { path, error } => {
                let mut m = String::from_str("Recording finished but the output file is missing: ");
                push_str(&mut m, path.as_str());
                push_str(&mut m, " (");
                push_str(&mut m, error.as_str());
                push_str(&mut m, ")");
                m
            },
        }
    }
}

/// The one recording in progress, if any: the handle of its `ffmpeg`
/// process (`C`) and the file it writes.
pub struct RecordingManager<C> {
    child: Option<C>,
    output_path: Option<String>,
}

impl<C> RecordingManager<C> {
    pub closed spec fn spec_child(&self) -> Option<C> {
        self.child
    }

    pub closed spec fn spec_output_path(&self) -> Option<Seq<char>> {
        match self.output_path {
            Some(p) => Some(p@),
            None => None,
        }
    }

    /// This manager recording to `path` with process `child`.
    pub closed spec fn with_recording(self, child: C, path: String) -> Self {
        RecordingManager { child: Some(child), output_path: Some(path) }
    }

    /// What finishing hands back: the process and the file of the
    /// recording in progress.
    pub open spec fn finish_outcome(self) -> Option<(C, Seq<char>)> {
        match (self.spec_child(), self.spec_output_path()) {
            (Some(c), Some(p)) => Some((c, p)),
            _ => None,
        }
    }

    /// What a manager recording to `path` with `child` holds.
    pub proof fn lemma_with_recording(self, child: C, path: String)
        ensures
            self.with_recording(child, path).spec_child() == Some(child),
            self.with_recording(child, path).spec_output_path() == Some(path@),
    {
    }

    /// Whether a recording is in progress.
    pub open spec fn recording(&self) -> bool {
        self.spec_child() is Some
    }

    /// A manager with no recording in progress.
    pub fn new() -> (m: Self)
        ensures
            m.spec_child() is None,
            m.spec_output_path() is None,
    {
        RecordingManager { child: None, output_path: None }
    }

    /// Whether a recording is in progress.
    pub fn is_recording(&self) -> (r: bool)
        ensures
            r == self.recording(),
    {
        self.child.is_some()
    }

    /// Refuses to start a second recording.
    pub fn check_can_start(&self) -> (r: Result<(), RecordingError>)
        ensures
            self.recording() ==> r matches Err(RecordingError::AlreadyRecording),
            !self.recording() ==> r is Ok,
    {
        if self.child.is_some() {
            Err(RecordingError::AlreadyRecording)
        } else {
            Ok(())
        }
    }

    /// Records that `child` is now recording to `output_path`.
    pub fn begin(&mut self, child: C, output_path: String)
        ensures
            *final(self) == old(self).with_recording(child, output_path),
            final(self).spec_child() == Some(child),
            final(self).spec_output_path() == Some(output_path@),
    {
        self.child = Some(child);
        self.output_path = Some(output_path);
    }

    /// Ends the recording in progress, handing back its process and the
    /// file it writes; there is then no recording in progress.  Without a
    /// process nothing changes; without a file the process is given up.
    pub fn finish(&mut self) -> (r: Result<(C, String), RecordingError>)
        ensures
            final(self).spec_child() is None,
            old(self).spec_child() is None ==> (r matches Err(RecordingError::NoRecording)
                && final(self).spec_output_path() == old(self).spec_output_path()),
            old(self).spec_child() is Some ==> final(self).spec_output_path() is None,
            old(self).spec_child() is Some && old(self).spec_output_path() is None ==> r matches Err(
                RecordingError::NoOutputPath,
            ),
            r matches Ok((child, path)) ==> old(self).finish_outcome() == Some((child, path@)),
            old(self).finish_outcome() is Some ==> r is Ok,
    {
        let mut child = None;
        std::mem::swap(&mut child, &mut self.child);
        match child {
            None => Err(RecordingError::NoRecording),
            Some(c) => {
                let mut path = None;
                std::mem::swap(&mut path, &mut self.output_path);
                match path {
                    None => Err(RecordingError::NoOutputPath),
                    Some(p) => Ok((c, p)),
                }
            },
        }
    }
}

/// One recording at a time: while a recording is in progress, starting
/// another is refused; finishing it hands back the process and the file it
/// was started with, and leaves no recording in progress.
pub proof fn lemma_recording_round_trip<C>(m: RecordingManager<C>, child: C, path: String)
    ensures
        m.with_recording(child, path).recording(),
        m.with_recording(child, path).finish_outcome() == Some((child, path@)),
{
    m.lemma_with_recording(child, path);
}

/// What became of the recording's file: it is there with this many bytes,
/// or it could not be read, for this reason.
pub enum OutputFile {
    Present(u64),
    Unreadable(String),
}

/// Judges a finished recording by its file: a non-empty file is the
/// result; an empty or unreadable one is an error.
pub fn check_output_file(output_path: String, file: OutputFile) -> (r: Result<String, RecordingError>)
    ensures
        match file {
            OutputFile::Present(len) => if len > 0 {
                r matches Ok(p) && p@ == output_path@
            } else {
                r matches Err(RecordingError::OutputEmpty(p)) && p@ == output_path@
            },
            OutputFile::Unreadable(e) => r matches Err(RecordingError::OutputMissing { path, error })
                && path@ == output_path@ && error@ == e@,
        },
{
    match file {
        OutputFile::Present(len) => if len > 0 {
            Ok(output_path)
        } else {
            Err(RecordingError::OutputEmpty(output_path))
        },
        OutputFile::Unreadable(e) => Err(RecordingError::OutputMissing { path: output_path, error: e }),
    }
}

/// The display that is captured: the one in `DISPLAY`, else `:0.0`.
pub fn capture_display(env_display: Option<String>) -> (d: String)
    ensures
        d@ == (match env_display {
            Some(v) => v@,
            None => ":0.0"@,
        }),
{
    match env_display {
        Some(v) => v,
        None => String::from_str(":0.0"),
    }
}

/// The arguments of the `ffmpeg` command that records `display` at `fps`
/// frames per second and `width`x`height` pixels to `output_path`, in
/// H.264, with the default PulseAudio input in AAC when `capture_audio`.
pub open spec fn capture_args_spec(
    output_path: Seq<char>,
    fps: u32,
    width: u32,
    height: u32,
    display: Seq<char>,
    capture_audio: bool,
) -> Seq<Seq<char>> {
    seq!["-y"@, "-f"@, "x11grab"@, "-framerate"@, decimal(fps as nat), "-video_size"@,
        decimal(width as nat) + "x"@ + decimal(height as nat), "-i"@, display]
        + (if capture_audio { seq!["-f"@, "pulse"@, "-i"@, "default"@] } else { Seq::empty() })
        + seq!["-c:v"@, "libx264"@, "-preset"@, "ultrafast"@, "-pix_fmt"@, "yuv420p"@]
        + (if capture_audio { seq!["-c:a"@, "aac"@] } else { Seq::empty() })
        + seq![output_path]
}

/// The views of a list of strings.
pub open spec fn string_views(v: Seq<String>) -> Seq<Seq<char>> {
    v.map_values(|s: String| s@)
}

fn push_arg(args: &mut Vec<String>, a: &str)
    ensures
        string_views(final(args)@) == string_views(old(args)@).push(a@),
{
    args.push(String::from_str(a));
    assert(string_views(args@) =~= string_views(old(args)@).push(a@));
}

/// The `ffmpeg` arguments of a screen recording (see `capture_args_spec`).
pub fn capture_args(
    output_path: &str,
    fps: u32,
    width: u32,
    height: u32,
    display: &str,
    capture_audio: bool,
) -> (args: Vec<String>)
    ensures
        string_views(args@) == capture_args_spec(output_path@, fps, width, height, display@, capture_audio),
{
    let mut args: Vec<String> = Vec::new();
    push_arg(&mut args, "-y");
    push_arg(&mut args, "-f");
    push_arg(&mut args, "x11grab");
    push_arg(&mut args, "-framerate");
    let f = decimal_u128(fps as u128);
    push_arg(&mut args, f.as_str());
    push_arg(&mut args, "-video_size");
    let mut size = decimal_u128(width as u128);
    push_str(&mut size, "x");
    let h = decimal_u128(height as u128);
    push_str(&mut size, h.as_str());
    push_arg(&mut args, size.as_str());
    push_arg(&mut args, "-i");
    push_arg(&mut args, display);
    let ghost head = string_views(args@);
    if capture_audio {
        push_arg(&mut args, "-f");
        push_arg(&mut args, "pulse");
        push_arg(&mut args, "-i");
        push_arg(&mut args, "default");
    }
    let ghost with_input = string_views(args@);
    push_arg(&mut args, "-c:v");
    push_arg(&mut args, "libx264");
    push_arg(&mut args, "-preset");
    push_arg(&mut args, "ultrafast");
    push_arg(&mut args, "-pix_fmt");
    push_arg(&mut args, "yuv420p");
    let ghost with_video = string_views(args@);
    if capture_audio {
        push_arg(&mut args, "-c:a");
        push_arg(&mut args, "aac");
    }
    push_arg(&mut args, output_path);
    assert(string_views(args@) =~= capture_args_spec(output_path@, fps, width, height, display@, capture_audio));
    args
}

/// The recording command captures what was asked for: the frame rate
/// that follows `-framerate` is `fps`, the size that follows
/// `-video_size` is `<width>x<height>`, the input that follows `-i` is the
/// display, the audio input and codec are there exactly when audio is
/// captured, and the output file comes last.
pub proof fn lemma_capture_args_follow_request(
    output_path: Seq<char>,
    fps: u32,
    width: u32,
    height: u32,
    display: Seq<char>,
    capture_audio: bool,
)
    ensures
        ({
            let a = capture_args_spec(output_path, fps, width, height, display, capture_audio);
            &&& a.len() == if capture_audio { 22int } else { 16int }
            &&& a[3] == "-framerate"@ && a[4] == decimal(fps as nat)
            &&& a[5] == "-video_size"@ && a[6] == decimal(width as nat) + "x"@ + decimal(height as nat)
            &&& a[7] == "-i"@ && a[8] == display
            &&& capture_audio ==> a[9] == "-f"@ && a[10] == "pulse"@ && a[11] == "-i"@ && a[12] == "default"@
                && a[19] == "-c:a"@ && a[20] == "aac"@
            &&& a[a.len() - 1] == output_path
        }),
{
}

// ---------------------------------------------------------------------------
// The display's resolution

/// The resolution on one line of `xrandr --current`: on a line that marks
/// the current mode with `*`, the first word read as `<width>x<height>`.
pub open spec fn line_resolution(line: Seq<char>) -> Option<(u32, u32)> {
    if !line.contains('*') {
        None
    } else {
        match first_word(line) {
            None => None,
            Some(tok) => match find_char(tok, 'x') {
                None => None,
                Some(p) => match (parse_u32(tok.take(p)), parse_u32(tok.skip(p + 1))) {
                    (Some(w), Some(h)) => Some((w, h)),
                    _ => None,
                },
            },
        }
    }
}

/// The first resolution found on any of `ls`.
pub open spec fn first_resolution(ls: Seq<Seq<char>>) -> Option<(u32, u32)>
    decreases ls.len(),
{
    if ls.len() == 0 {
        None
    } else {
        match line_resolution(ls[0]) {
            Some(r) => Some(r),
            None => first_resolution(ls.drop_first()),
        }
    }
}

/// The current resolution in the output of `xrandr --current`.
pub open spec fn screen_resolution(text: Seq<char>) -> Option<(u32, u32)> {
    first_resolution(lines(text))
}

fn line_resolution_exec(line: &Vec<char>) -> (r: Option<(u32, u32)>)
    ensures
        r == line_resolution(line@),
{
    match find_char_in(line, '*', 0) {
        None => {
            proof {
                crate::text::lemma_find_char_from_bounds(line@, '*', 0);
            }
            return None;
        },
        Some(_) => {
            proof {
                lemma_find_char_from_bounds(line@, '*', 0);
                let q = find_char(line@, '*')->0;
                assert(line@[q] == '*');
            }
        },
    }
    let a = skip_whitespace(line, 0);
    if a >= line.len() {
        return None;
    }
    let b = word_end(line, a);
    let tok = subvec(line, a, b);
    match find_char_in(&tok, 'x', 0) {
        None => None,
        Some(p) => {
            proof {
                lemma_find_char_from_bounds(tok@, 'x', 0);
            }
            let w = parse_u32_range(&tok, 0, p);
            let h = parse_u32_range(&tok, p + 1, tok.len());
            assert(tok@.subrange(0, p as int) =~= tok@.take(p as int));
            assert(tok@.subrange(p + 1, tok@.len() as int) =~= tok@.skip(p + 1));
            match (w, h) {
                (Some(w), Some(h)) => Some((w, h)),
                _ => None,
            }
        },
    }
}

/// Reads the current resolution from the output of `xrandr --current`.
pub fn parse_screen_size(text: &str) -> (r: Option<(u32, u32)>)
    ensures
        r == screen_resolution(text@),
{
    let v = chars_of(text);
    let mut pos: usize = 0;
    assert(v@.skip(0) =~= v@);
    while pos < v.len()
        invariant
            v@ == text@,
            pos <= v.len(),
            screen_resolution(text@) == first_resolution(lines(v@.skip(pos as int))),
        decreases v.len() - pos,
    {
        proof {
            lemma_lines_step(v@, pos as int);
        }
        match find_char_in(&v, '\n', pos) {
            Some(p) => {
                let end = if p > pos && v[p - 1] == '\r' { p - 1 } else { p };
                let line = subvec(&v, pos, end);
                assert(line@ =~= strip_cr(v@.subrange(pos as int, p as int)));
                let r = line_resolution_exec(&line);
                if r.is_some() {
                    return r;
                }
                let ghost ls = lines(v@.skip(pos as int));
                assert(ls.drop_first() =~= lines(v@.skip(p + 1)));
                pos = p + 1;
            },
            None => {
                let line = subvec(&v, pos, v.len());
                assert(line@ =~= v@.skip(pos as int));
                let r = line_resolution_exec(&line);
                proof {
                    let ls = lines(v@.skip(pos as int));
                    assert(ls[0] == line@);
                    assert(ls.drop_first().len() == 0);
                    assert(first_resolution(ls.drop_first()) is None);
                }
                return r;
            },
        }
    }
    None
}


/// `tok` is written `<w>x<h>`: the text before its first `x` reads as
/// `w` and the text after it as `h`.
pub open spec fn reads_size(tok: Seq<char>, w: u32, h: u32) -> bool {
    exists|p: int|
        0 <= p < tok.len() && tok[p] == 'x' && (forall|q: int| 0 <= q < p ==> tok[q] != 'x') && parse_u32(
            tok.take(p),
        ) == Some(w) && parse_u32(#[trigger] tok.skip(p + 1)) == Some(h)
}

/// The first word of `line` is written `<w>x<h>`.
pub open spec fn line_reads_size(line: Seq<char>, w: u32, h: u32) -> bool {
    first_word(line) matches Some(tok) && reads_size(tok, w, h)
}

proof fn lemma_find_char_first(s: Seq<char>, c: char, i: int)
    requires
        0 <= i,
    ensures
        find_char_from(s, c, i) matches Some(p) ==> forall|q: int| i <= q < p ==> s[q] != c,
        forall|p: int|
            i <= p < s.len() && s[p] == c && (forall|q: int| i <= q < p ==> s[q] != c) ==> find_char_from(s, c, i)
                == Some(p),
    decreases s.len() - i,
{
    if i < s.len() && s[i] != c {
        lemma_find_char_first(s, c, i + 1);
    }
}

proof fn lemma_line_resolution(line: Seq<char>)
    ensures
        !line.contains('*') ==> line_resolution(line) is None,
        line_resolution(line) matches Some(r) ==> line_reads_size(line, r.0, r.1),
        forall|w: u32, h: u32|
            line.contains('*') && #[trigger] line_reads_size(line, w, h) ==> line_resolution(line) == Some((w, h)),
{
    if let Some(tok) = first_word(line) {
        lemma_find_char_from_bounds(tok, 'x', 0);
        lemma_find_char_first(tok, 'x', 0);
        if let Some(p) = find_char(tok, 'x') {
            assert forall|w: u32, h: u32| #[trigger] reads_size(tok, w, h) implies parse_u32(tok.take(p)) == Some(w)
                && parse_u32(tok.skip(p + 1)) == Some(h) by {
                let p2 = choose|p2: int|
                    0 <= p2 < tok.len() && tok[p2] == 'x' && (forall|q: int| 0 <= q < p2 ==> tok[q] != 'x')
                        && parse_u32(tok.take(p2)) == Some(w) && parse_u32(#[trigger] tok.skip(p2 + 1)) == Some(h);
                if p2 < p {
                } else if p < p2 {
                    assert(tok[p] == 'x');
                }
            }
        }
    }
}

proof fn lemma_first_resolution(ls: Seq<Seq<char>>)
    ensures
        first_resolution(ls) matches Some(r) ==> exists|i: int| 0 <= i < ls.len() && #[trigger] line_resolution(ls[i]) == Some(r),
        forall|i: int|
            0 <= i < ls.len() && (forall|j: int| 0 <= j < i ==> line_resolution(#[trigger] ls[j]) is None) && line_resolution(
                #[trigger] ls[i],
            ) is Some ==> first_resolution(ls) == line_resolution(ls[i]),
    decreases ls.len(),
{
    if ls.len() > 0 {
        let t = ls.drop_first();
        lemma_first_resolution(t);
        if line_resolution(ls[0]) is None {
            if first_resolution(ls) is Some {
                let r = first_resolution(ls)->0;
                let i = choose|i: int| 0 <= i < t.len() && #[trigger] line_resolution(t[i]) == Some(r);
                assert(ls[i + 1] == t[i]);
            }
            assert forall|i: int|
                0 <= i < ls.len() && (forall|j: int| 0 <= j < i ==> line_resolution(#[trigger] ls[j]) is None)
                    && line_resolution(#[trigger] ls[i]) is Some implies first_resolution(ls) == line_resolution(ls[i]) by {
                assert(i != 0);
                assert(t[i - 1] == ls[i]);
                assert forall|j: int| 0 <= j < i - 1 implies line_resolution(#[trigger] t[j]) is None by {
                    assert(t[j] == ls[j + 1]);
                }
            }
        } else {
            assert(line_resolution(ls[0]) == first_resolution(ls));
            assert forall|i: int|
                0 <= i < ls.len() && (forall|j: int| 0 <= j < i ==> line_resolution(#[trigger] ls[j]) is None)
                    && line_resolution(#[trigger] ls[i]) is Some implies first_resolution(ls) == line_resolution(ls[i]) by {
                if i > 0 {
                    assert(line_resolution(ls[0]) is None);
                }
            }
        }
    }
}

/// The resolution read from `xrandr` is that of the current mode, the one
/// marked `*`: whatever is read comes from a marked line whose first word
/// is `<width>x<height>`; with no marked line nothing is read; and the
/// first marked line, when it gives a size, gives the result.
pub proof fn lemma_resolution_is_current_mode(text: Seq<char>)
    ensures
        screen_resolution(text) matches Some(r) ==> exists|i: int|
            0 <= i < lines(text).len() && (#[trigger] lines(text)[i]).contains('*') && line_reads_size(lines(text)[i], r.0, r.1),
        (forall|i: int| 0 <= i < lines(text).len() ==> !(#[trigger] lines(text)[i]).contains('*')) ==> screen_resolution(text) is None,
        forall|i: int, w: u32, h: u32|
            0 <= i < lines(text).len() && (forall|j: int| 0 <= j < i ==> !(#[trigger] lines(text)[j]).contains('*'))
                && lines(text)[i].contains('*') && #[trigger] line_reads_size(lines(text)[i], w, h)
                ==> screen_resolution(text) == Some((w, h)),
{
    let ls = lines(text);
    lemma_first_resolution(ls);
    if screen_resolution(text) is Some {
        let r = screen_resolution(text)->0;
        let i = choose|i: int| 0 <= i < ls.len() && #[trigger] line_resolution(ls[i]) == Some(r);
        lemma_line_resolution(ls[i]);
        assert(ls[i].contains('*'));
    }
    assert forall|i: int, w: u32, h: u32|
        0 <= i < ls.len() && (forall|j: int| 0 <= j < i ==> !(#[trigger] ls[j]).contains('*')) && ls[i].contains('*')
            && #[trigger] line_reads_size(ls[i], w, h) implies screen_resolution(text) == Some((w, h)) by {
        lemma_line_resolution(ls[i]);
        assert forall|j: int| 0 <= j < i implies line_resolution(#[trigger] ls[j]) is None by {
            lemma_line_resolution(ls[j]);
        }
    }
}

} // verus!
