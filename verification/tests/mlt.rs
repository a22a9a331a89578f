use musicstudio::mlt::{mlt_document, plan_render, xml_escape, ClipSource, MltError, PlacedClip, TrackSource};

fn clip(start_key: i64, path: Option<&str>) -> ClipSource {
    ClipSource { start_key, file_path: path.map(|p| p.to_string()) }
}

fn placed(resource: &str, blank: i64, in_frame: i64, duration: i64) -> PlacedClip {
    PlacedClip { resource: resource.to_string(), blank_frames: blank, in_frame, duration_frames: duration }
}

// The two-track sample project: at 120 bpm, 4 beats last 2 seconds, 60 frames at 30 fps.
#[test]
fn generates_valid_mlt_xml_with_two_tracks() {
    let tracks = vec![
        TrackSource { muted: false, clips: vec![clip(0, Some("/tmp/clip1.mp4"))] },
        TrackSource { muted: false, clips: vec![clip(0, Some("/tmp/clip1.wav"))] },
    ];
    let plan = plan_render(&tracks);
    assert_eq!(plan.len(), 2);
    let playlists: Vec<Vec<PlacedClip>> = plan
        .iter()
        .map(|p| {
            p.clips
                .iter()
                .map(|&i| placed(tracks[p.track].clips[i].file_path.as_ref().unwrap(), 0, 0, 60))
                .collect()
        })
        .collect();
    let xml = mlt_document(&playlists).unwrap();
    assert!(xml.contains("<mlt>"));
    assert!(xml.contains("producer0"));
    assert!(xml.contains("producer1"));
    assert!(xml.contains("qtblend"));
    // the last frame of each 60-frame clip is frame 59 (2 seconds)
    assert!(xml.contains("<entry producer=\"producer0\" in=\"0\" out=\"59\"/>"));
}

#[test]
fn plan_skips_muted_tracks_and_clips_without_media() {
    let tracks = vec![
        TrackSource { muted: true, clips: vec![clip(0, Some("a.wav"))] },
        TrackSource { muted: false, clips: vec![clip(0, None)] },
        TrackSource { muted: false, clips: vec![clip(5, Some("b.wav")), clip(1, None), clip(2, Some("c.wav"))] },
        TrackSource { muted: false, clips: vec![] },
    ];
    let plan = plan_render(&tracks);
    assert_eq!(plan.len(), 1);
    assert_eq!(plan[0].track, 2);
    assert_eq!(plan[0].clips, vec![2, 0]);
}

#[test]
fn plan_orders_clips_by_start_and_keeps_ties_in_place() {
    let tracks = vec![TrackSource {
        muted: false,
        clips: vec![clip(3, Some("x")), clip(1, Some("y")), clip(3, Some("z")), clip(-2, Some("w"))],
    }];
    let plan = plan_render(&tracks);
    assert_eq!(plan[0].clips, vec![3, 1, 0, 2]);
}

#[test]
fn document_without_playlists_is_an_error() {
    let r = mlt_document(&vec![]);
    assert_eq!(r, Err(MltError::NothingToRender));
    assert_eq!(MltError::NothingToRender.message(), "No clips with media files to render");
}

#[test]
fn document_layout_is_exact() {
    let playlists = vec![
        vec![placed("a&b.wav", 0, 0, 30), placed("c.wav", 15, 5, 0)],
        vec![placed("<v>.mp4", 30, 0, 60)],
    ];
    let xml = mlt_document(&playlists).unwrap();
    let expected = [
        "<?xml version=\"1.0\" encoding=\"utf-8\"?>\n<mlt>\n",
        "  <producer id=\"producer0\">\n    <property name=\"resource\">a&amp;b.wav</property>\n  </producer>\n",
        "  <producer id=\"producer1\">\n    <property name=\"resource\">c.wav</property>\n  </producer>\n",
        "  <producer id=\"producer2\">\n    <property name=\"resource\">&lt;v&gt;.mp4</property>\n  </producer>\n",
        "  <playlist id=\"playlist0\">\n",
        "    <entry producer=\"producer0\" in=\"0\" out=\"29\"/>\n",
        "    <blank length=\"15\"/>\n",
        "    <entry producer=\"producer1\" in=\"5\" out=\"5\"/>\n",
        "  </playlist>\n",
        "  <playlist id=\"playlist1\">\n",
        "    <blank length=\"30\"/>\n",
        "    <entry producer=\"producer2\" in=\"0\" out=\"59\"/>\n",
        "  </playlist>\n",
        "  <tractor id=\"tractor0\">\n",
        "    <track producer=\"playlist0\"/>\n",
        "    <track producer=\"playlist1\"/>\n",
        "    <transition mlt_service=\"mix\" a_track=\"0\" b_track=\"1\" always_active=\"1\" combine=\"1\"/>\n",
        "    <transition mlt_service=\"qtblend\" a_track=\"0\" b_track=\"1\"/>\n",
        "  </tractor>\n</mlt>\n",
    ]
    .concat();
    assert_eq!(xml, expected);
}

#[test]
fn single_track_has_no_transitions() {
    let xml = mlt_document(&vec![vec![placed("a.wav", 0, 0, 10)]]).unwrap();
    assert!(!xml.contains("transition"));
    assert!(xml.contains("<track producer=\"playlist0\"/>"));
}

#[test]
fn xml_escape_replaces_markup_characters() {
    assert_eq!(xml_escape("a & b < c > \"d\""), "a &amp; b &lt; c &gt; &quot;d&quot;");
    assert_eq!(xml_escape("plain/é"), "plain/é");
    assert_eq!(xml_escape("&amp;"), "&amp;amp;");
    assert_eq!(xml_escape(""), "");
}

fn played_paths(tracks: &Vec<TrackSource>) -> Vec<(usize, Vec<String>)> {
    plan_render(tracks)
        .iter()
        .map(|p| {
            let paths = p.clips.iter().map(|&i| tracks[p.track].clips[i].file_path.clone().unwrap()).collect();
            (p.track, paths)
        })
        .collect()
}

#[test]
fn adding_a_silent_track_only_renumbers_the_plan() {
    let before = vec![
        TrackSource { muted: false, clips: vec![clip(4, Some("a.wav")), clip(0, Some("b.wav"))] },
        TrackSource { muted: false, clips: vec![clip(1, Some("c.wav"))] },
    ];
    let after = vec![
        TrackSource { muted: false, clips: vec![clip(4, Some("a.wav")), clip(0, Some("b.wav"))] },
        TrackSource { muted: true, clips: vec![clip(0, Some("m.wav"))] },
        TrackSource { muted: false, clips: vec![clip(2, None)] },
        TrackSource { muted: false, clips: vec![clip(1, Some("c.wav"))] },
    ];
    let p1 = plan_render(&before);
    let p2 = plan_render(&after);
    assert_eq!(p1.iter().map(|p| p.track).collect::<Vec<_>>(), vec![0, 1]);
    assert_eq!(p2.iter().map(|p| p.track).collect::<Vec<_>>(), vec![0, 3]);
    assert_eq!(p1[0].clips, p2[0].clips);
    assert_eq!(p1[1].clips, p2[1].clips);
}

#[test]
fn adding_a_clip_without_media_only_renumbers_the_clips() {
    let before = vec![TrackSource { muted: false, clips: vec![clip(3, Some("x")), clip(1, Some("y"))] }];
    let after = vec![TrackSource { muted: false, clips: vec![clip(3, Some("x")), clip(2, None), clip(1, Some("y"))] }];
    assert_eq!(plan_render(&before)[0].clips, vec![1, 0]);
    assert_eq!(plan_render(&after)[0].clips, vec![2, 0]);
    assert_eq!(played_paths(&before), played_paths(&after));
}

#[test]
fn reordering_clips_with_distinct_starts_plays_the_same_clips() {
    let one = vec![
        TrackSource { muted: false, clips: vec![clip(3, Some("a")), clip(1, Some("b")), clip(2, Some("c"))] },
        TrackSource { muted: false, clips: vec![clip(0, Some("d")), clip(7, None)] },
    ];
    let other = vec![
        TrackSource { muted: false, clips: vec![clip(2, Some("c")), clip(3, Some("a")), clip(1, Some("b"))] },
        TrackSource { muted: false, clips: vec![clip(7, None), clip(0, Some("d"))] },
    ];
    let expected = vec![
        (0usize, vec!["b".to_string(), "c".to_string(), "a".to_string()]),
        (1usize, vec!["d".to_string()]),
    ];
    assert_eq!(played_paths(&one), expected);
    assert_eq!(played_paths(&other), expected);
}

#[test]
fn unescaping_by_replacement_gives_the_text_back() {
    for s in ["a & b < c > \"d\"", "&lt;", "&amp;lt;", "\"&quot;\"", "", "plain/é"] {
        let back = xml_escape(s).replace("&quot;", "\"").replace("&gt;", ">").replace("&lt;", "<").replace("&amp;", "&");
        assert_eq!(back, s);
    }
}
