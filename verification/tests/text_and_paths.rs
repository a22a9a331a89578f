use musicstudio::media::{
    duration_probe_args, melt_args, render_script_name, thumbnail_args, thumbnail_name, uuid_like_suffix,
};
use musicstudio::paths::{path_file_stem, path_join};
use musicstudio::text::{decimal_i64, decimal_u128, first_line_str, hex_u128, trim_str};

#[test]
fn numbers_render_like_format() {
    assert_eq!(decimal_u128(0), "0");
    assert_eq!(decimal_u128(1234567890), "1234567890");
    assert_eq!(decimal_i64(-42), "-42");
    assert_eq!(decimal_i64(i64::MIN), i64::MIN.to_string());
    assert_eq!(hex_u128(255), "ff");
    assert_eq!(hex_u128(0), "0");
    assert_eq!(hex_u128(u128::MAX), format!("{:x}", u128::MAX));
}

#[test]
fn trimming_and_first_lines() {
    assert_eq!(trim_str(" \t a b \n"), "a b");
    assert_eq!(trim_str("\u{3000}x\u{a0}"), "x");
    assert_eq!(trim_str("   "), "");
    assert_eq!(first_line_str("one\r\ntwo"), "one");
    assert_eq!(first_line_str("only"), "only");
    assert_eq!(first_line_str(""), "");
    assert_eq!(first_line_str("\nsecond"), "");
}

#[test]
fn joining_paths() {
    assert_eq!(path_join("/data", "models"), "/data/models");
    assert_eq!(path_join("/data/", "models"), "/data/models");
    assert_eq!(path_join("", "models"), "models");
    assert_eq!(path_join("/data", "/etc/x"), "/etc/x");
    assert_eq!(path_join("dir", "venv/bin/python"), "dir/venv/bin/python");
}

#[test]
fn file_stems_match_std() {
    for p in ["/a/b/clip.mp4", "clip", "a.tar.gz", ".hidden", "/x/y/", "/", "", ".", "..", "a/..", "a/.", "./b.c", "dir/.x.y", "a."] {
        let expected = std::path::Path::new(p).file_stem().map(|s| s.to_str().unwrap().to_string());
        assert_eq!(path_file_stem(p), expected, "stem of {:?}", p);
    }
}

#[test]
fn thumbnail_and_render_names() {
    assert_eq!(uuid_like_suffix(0x1a2b), "1a2b");
    assert_eq!(thumbnail_name("/videos/take 1.mov", 255), "take 1-ff.jpg");
    assert_eq!(thumbnail_name("/", 16), "clip-10.jpg");
    assert_eq!(
        thumbnail_args("in.mp4", "/t/x.jpg"),
        vec!["-y", "-ss", "0.5", "-i", "in.mp4", "-frames:v", "1", "-vf", "scale=160:-1", "/t/x.jpg"]
    );
    assert_eq!(
        duration_probe_args("a.wav"),
        vec!["-v", "error", "-show_entries", "format=duration", "-of", "default=noprint_wrappers=1:nokey=1", "a.wav"]
    );
    assert_eq!(render_script_name(12), "musicstudio-render-12.mlt");
    assert_eq!(melt_args("/tmp/p.mlt", "out.mp4"), vec!["/tmp/p.mlt", "-consumer", "avformat:out.mp4"]);
}
