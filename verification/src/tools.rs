//! Diagnostics of the external programs that the video features rely on.

use vstd::prelude::*;
use crate::text::{first_line, first_line_str, push_str, trim, trim_str};

verus! {

/// One row of the video-tools report.
pub struct ToolStatus {
    pub name: String,
    pub available: bool,
    pub detail: String,
}

/// How running `<tool> --version` went: it ran and exited, successfully
/// or not, with this output; or it could not be run, for this reason.
pub enum ProbeOutcome {
    Exited { success: bool, stdout: String, stderr: String },
    NotRun(String),
}

/// The programs that are probed and the arguments that make them print
/// their version: `ffmpeg`, `ffprobe`, `melt` and `xrandr`.
pub open spec fn video_tools_spec() -> Seq<(Seq<char>, Seq<char>)> {
    seq![("ffmpeg"@, "-version"@), ("ffprobe"@, "-version"@), ("melt"@, "-version"@), ("xrandr"@, "--version"@)]
}

/// The programs to probe, each with the arguments that print its version.
pub fn video_tools() -> (tools: Vec<(String, Vec<String>)>)
    ensures
        tools@.len() == 4,
        forall|i: int|
            0 <= i < 4 ==> (#[trigger] tools@[i]).0@ == video_tools_spec()[i].0 && tools@[i].1@.len() == 1
                && tools@[i].1@[0]@ == video_tools_spec()[i].1,
{
    let mut tools: Vec<(String, Vec<String>)> = Vec::new();
    tools.push((String::from_str("ffmpeg"), vec![String::from_str("-version")]));
    tools.push((String::from_str("ffprobe"), vec![String::from_str("-version")]));
    tools.push((String::from_str("melt"), vec![String::from_str("-version")]));
    tools.push((String::from_str("xrandr"), vec![String::from_str("--version")]));
    tools
}

/// The report row of tool `name`: available, with the first line of its
/// version output, when it ran successfully; unavailable with its trimmed
/// error output when it failed; unavailable and not found when it could
/// not be run.
pub fn tool_status(name: &str, outcome: ProbeOutcome) -> (t: ToolStatus)
    ensures
        t.name@ == name@,
        match outcome {
            ProbeOutcome::Exited { success, stdout, stderr } => if success {
                t.available && t.detail@ == first_line(stdout@)
            } else {
                !t.available && t.detail@ == trim(stderr@)
            },
            ProbeOutcome::NotRun(e) => !t.available && t.detail@ == "not found on PATH ("@ + e@ + ")"@,
        },
{
    match outcome {
        ProbeOutcome::Exited { success, stdout, stderr } => if success {
            ToolStatus {
                name: String::from_str(name),
                available: true,
                detail: first_line_str(stdout.as_str()),
            }
        } else {
            ToolStatus { name: String::from_str(name), available: false, detail: trim_str(stderr.as_str()) }
        },
        ProbeOutcome::NotRun(e) => {
            let mut detail = String::from_str("not found on PATH (");
            push_str(&mut detail, e.as_str());
            push_str(&mut detail, ")");
            ToolStatus { name: String::from_str(name), available: false, detail }
        },
    }
}

} // verus!
