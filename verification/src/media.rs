//! Command lines and file names of the media jobs: probing a file's
//! duration, extracting a thumbnail, and rendering a project with `melt`.

use vstd::prelude::*;
use crate::text::{decimal, decimal_u128, hex, hex_u128, push_str};
use crate::paths::{file_stem, path_file_stem};
use crate::recording::string_views;

verus! {

fn push_arg(args: &mut Vec<String>, a: &str)
    ensures
        string_views(final(args)@) == string_views(old(args)@).push(a@),
{
    args.push(String::from_str(a));
    assert(string_views(args@) =~= string_views(old(args)@).push(a@));
}

/// A short suffix that tells apart files made at different times: the
/// time in nanoseconds, in lowercase hexadecimal.
pub fn uuid_like_suffix(nanos: u128) -> (s: String)
    ensures
        s@ == hex(nanos as nat),
{
    hex_u128(nanos)
}

/// The name of the thumbnail of `file_path`: its file stem (`clip` when it
/// has none), a dash, the suffix of `nanos`, and `.jpg`.
pub open spec fn thumbnail_name_spec(file_path: Seq<char>, nanos: nat) -> Seq<char> {
    let stem = match file_stem(file_path) {
        Some(s) => s,
        None => "clip"@,
    };
    stem + "-"@ + hex(nanos) + ".jpg"@
}

/// The thumbnail name of `file_path` (see `thumbnail_name_spec`).
pub fn thumbnail_name(file_path: &str, nanos: u128) -> (name: String)
    ensures
        name@ == thumbnail_name_spec(file_path@, nanos as nat),
{
    let mut name = match path_file_stem(file_path) {
        Some(s) => s,
        None => String::from_str("clip"),
    };
    push_str(&mut name, "-");
    let suffix = uuid_like_suffix(nanos);
    push_str(&mut name, suffix.as_str());
    push_str(&mut name, ".jpg");
    name
}

/// The `ffmpeg` arguments that write one frame from half a second into
/// `file_path`, scaled to 160 pixels wide, to `thumb_path`.
pub open spec fn thumbnail_args_spec(file_path: Seq<char>, thumb_path: Seq<char>) -> Seq<Seq<char>> {
    seq!["-y"@, "-ss"@, "0.5"@, "-i"@, file_path, "-frames:v"@, "1"@, "-vf"@, "scale=160:-1"@, thumb_path]
}

/// The `ffmpeg` arguments of a thumbnail (see `thumbnail_args_spec`).
pub fn thumbnail_args(file_path: &str, thumb_path: &str) -> (args: Vec<String>)
    ensures
        string_views(args@) == thumbnail_args_spec(file_path@, thumb_path@),
{
    let mut args: Vec<String> = Vec::new();
    push_arg(&mut args, "-y");
    push_arg(&mut args, "-ss");
    push_arg(&mut args, "0.5");
    push_arg(&mut args, "-i");
    push_arg(&mut args, file_path);
    push_arg(&mut args, "-frames:v");
    push_arg(&mut args, "1");
    push_arg(&mut args, "-vf");
    push_arg(&mut args, "scale=160:-1");
    push_arg(&mut args, thumb_path);
    assert(string_views(args@) =~= thumbnail_args_spec(file_path@, thumb_path@));
    args
}

/// The `ffprobe` arguments that print only the duration of `file_path`.
pub open spec fn duration_probe_args_spec(file_path: Seq<char>) -> Seq<Seq<char>> {
    seq!["-v"@, "error"@, "-show_entries"@, "format=duration"@, "-of"@,
        "default=noprint_wrappers=1:nokey=1"@, file_path]
}

/// The `ffprobe` arguments of a duration probe (see `duration_probe_args_spec`).
pub fn duration_probe_args(file_path: &str) -> (args: Vec<String>)
    ensures
        string_views(args@) == duration_probe_args_spec(file_path@),
{
    let mut args: Vec<String> = Vec::new();
    push_arg(&mut args, "-v");
    push_arg(&mut args, "error");
    push_arg(&mut args, "-show_entries");
    push_arg(&mut args, "format=duration");
    push_arg(&mut args, "-of");
    push_arg(&mut args, "default=noprint_wrappers=1:nokey=1");
    push_arg(&mut args, file_path);
    assert(string_views(args@) =~= duration_probe_args_spec(file_path@));
    args
}

/// The name of the temporary MLT file of a render started at `nanos`.
pub fn render_script_name(nanos: u128) -> (name: String)
    ensures
        name@ == "musicstudio-render-"@ + decimal(nanos as nat) + ".mlt"@,
{
    let mut name = String::from_str("musicstudio-render-");
    let n = decimal_u128(nanos);
    push_str(&mut name, n.as_str());
    push_str(&mut name, ".mlt");
    name
}

/// The `melt` arguments that render the MLT file `mlt_path` to `output_path`.
pub fn melt_args(mlt_path: &str, output_path: &str) -> (args: Vec<String>)
    ensures
        string_views(args@) == seq![mlt_path@, "-consumer"@, "avformat:"@ + output_path@],
{
    let mut args: Vec<String> = Vec::new();
    push_arg(&mut args, mlt_path);
    push_arg(&mut args, "-consumer");
    let mut consumer = String::from_str("avformat:");
    push_str(&mut consumer, output_path);
    push_arg(&mut args, consumer.as_str());
    assert(string_views(args@) =~= seq![mlt_path@, "-consumer"@, "avformat:"@ + output_path@]);
    args
}

} // verus!
