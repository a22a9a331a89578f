use musicstudio::recording::{
    capture_args, capture_display, check_output_file, parse_screen_size, OutputFile, RecordingError, RecordingManager,
};

const XRANDR: &str = "Screen 0: minimum 320 x 200, current 1920 x 1080, maximum 16384 x 16384\n\
eDP-1 connected primary 1920x1080+0+0 (normal left inverted right x axis y axis) 344mm x 193mm\n   \
1920x1080     60.01*+  59.97    59.96    59.93  \n   \
1680x1050     59.95    59.88  \n";

#[test]
fn screen_size_is_read_from_the_current_mode() {
    assert_eq!(parse_screen_size(XRANDR), Some((1920, 1080)));
    assert_eq!(parse_screen_size("   2560x1440  60.00*\r\n"), Some((2560, 1440)));
    assert_eq!(parse_screen_size("no modes here\n"), None);
    assert_eq!(parse_screen_size(""), None);
    // a marked line whose first word is not a size is passed over
    assert_eq!(parse_screen_size("bad* line\n  800x600 60.00*"), Some((800, 600)));
    assert_eq!(parse_screen_size("99999999999x10 *"), None);
}

#[test]
fn capture_arguments_with_and_without_audio() {
    let video_only = capture_args("/tmp/out.mp4", 30, 1920, 1080, ":1", false);
    assert_eq!(
        video_only,
        vec![
            "-y", "-f", "x11grab", "-framerate", "30", "-video_size", "1920x1080", "-i", ":1", "-c:v", "libx264",
            "-preset", "ultrafast", "-pix_fmt", "yuv420p", "/tmp/out.mp4"
        ]
    );
    let with_audio = capture_args("o.mkv", 10, 800, 600, ":0.0", true);
    assert_eq!(
        with_audio,
        vec![
            "-y", "-f", "x11grab", "-framerate", "10", "-video_size", "800x600", "-i", ":0.0", "-f", "pulse", "-i",
            "default", "-c:v", "libx264", "-preset", "ultrafast", "-pix_fmt", "yuv420p", "-c:a", "aac", "o.mkv"
        ]
    );
}

#[test]
fn display_defaults_to_zero() {
    assert_eq!(capture_display(None), ":0.0");
    assert_eq!(capture_display(Some(":1".to_string())), ":1");
}

#[test]
fn one_recording_at_a_time() {
    let mut rm: RecordingManager<u8> = RecordingManager::new();
    assert!(!rm.is_recording());
    assert!(rm.check_can_start().is_ok());
    rm.begin(3, "/tmp/rec.mp4".to_string());
    assert!(rm.is_recording());
    match rm.check_can_start() {
        Err(e) => assert_eq!(e.message(), "A recording is already in progress"),
        Ok(()) => panic!("a second recording must be refused"),
    }
    match rm.finish() {
        Ok((child, path)) => {
            assert_eq!(child, 3);
            assert_eq!(path, "/tmp/rec.mp4");
        },
        Err(_) => panic!("the recording should finish"),
    }
    assert!(!rm.is_recording());
    match rm.finish() {
        Err(e) => assert_eq!(e.message(), "No recording in progress"),
        Ok(_) => panic!("nothing is recording"),
    }
}

#[test]
fn output_file_is_checked() {
    assert!(matches!(check_output_file("a.mp4".to_string(), OutputFile::Present(10)), Ok(p) if p == "a.mp4"));
    match check_output_file("a.mp4".to_string(), OutputFile::Present(0)) {
        Err(e) => assert_eq!(e.message(), "Recording finished but the output file is empty: a.mp4"),
        Ok(_) => panic!("empty file"),
    }
    match check_output_file("a.mp4".to_string(), OutputFile::Unreadable("No such file".to_string())) {
        Err(e) => assert_eq!(e.message(), "Recording finished but the output file is missing: a.mp4 (No such file)"),
        Ok(_) => panic!("missing file"),
    }
}

#[test]
fn error_messages() {
    let e = RecordingError::ExitFailed { status: "exit status: 1".to_string(), stderr: "\n  bad device \n".to_string() };
    assert_eq!(e.message(), "ffmpeg exited with exit status: 1: bad device");
    let e = RecordingError::ExitedImmediately { status: "exit status: 1".to_string(), stderr: "x".to_string() };
    assert_eq!(e.message(), "ffmpeg exited immediately (status exit status: 1): x");
    assert_eq!(RecordingError::SpawnFailed("nope".to_string()).message(), "Failed to start ffmpeg: nope");
    assert_eq!(
        RecordingError::ScreenSizeUnknown.message(),
        "Could not determine screen resolution from xrandr output"
    );
    assert_eq!(RecordingError::ScreenQueryFailed("e".to_string()).message(), "Failed to run xrandr: e");
    assert_eq!(RecordingError::NoOutputPath.message(), "No output path recorded");
    assert_eq!(RecordingError::WaitFailed("w".to_string()).message(), "Failed to wait for ffmpeg to exit: w");
}
