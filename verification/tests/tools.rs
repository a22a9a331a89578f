use musicstudio::tools::{tool_status, video_tools, ProbeOutcome};

#[test]
fn the_four_video_tools_are_probed() {
    let tools = video_tools();
    let names: Vec<&str> = tools.iter().map(|(n, _)| n.as_str()).collect();
    assert_eq!(names, vec!["ffmpeg", "ffprobe", "melt", "xrandr"]);
    assert_eq!(tools[0].1, vec!["-version".to_string()]);
    assert_eq!(tools[3].1, vec!["--version".to_string()]);
}

#[test]
fn tool_status_reports_version_error_or_absence() {
    let ok = tool_status(
        "ffmpeg",
        ProbeOutcome::Exited {
            success: true,
            stdout: "ffmpeg version 6.1.1\r\nbuilt with gcc\n".to_string(),
            stderr: String::new(),
        },
    );
    assert_eq!(ok.name, "ffmpeg");
    assert!(ok.available);
    assert_eq!(ok.detail, "ffmpeg version 6.1.1");
    let empty = tool_status("melt", ProbeOutcome::Exited { success: true, stdout: String::new(), stderr: String::new() });
    assert!(empty.available);
    assert_eq!(empty.detail, "");
    let failed = tool_status(
        "xrandr",
        ProbeOutcome::Exited { success: false, stdout: String::new(), stderr: "  Can't open display\n".to_string() },
    );
    assert!(!failed.available);
    assert_eq!(failed.detail, "Can't open display");
    let missing = tool_status("melt", ProbeOutcome::NotRun("No such file or directory (os error 2)".to_string()));
    assert!(!missing.available);
    assert_eq!(missing.detail, "not found on PATH (No such file or directory (os error 2))");
}
