use musicstudio::sidecar::{
    health_step, health_url, parse_sidecar_id, poll_interval_secs, python_program, HealthEvent, HealthPhase,
    ProcessManager, SidecarId, SidecarStatus, StartPlan,
};

const ALL: [SidecarId; 5] =
    [SidecarId::Voice, SidecarId::AudioFx, SidecarId::SongGen, SidecarId::StemSep, SidecarId::VideoAi];

#[test]
fn sidecar_ports_match_the_readme() {
    assert_eq!(SidecarId::Voice.port(), 8001);
    assert_eq!(SidecarId::AudioFx.port(), 8002);
    assert_eq!(SidecarId::SongGen.port(), 8003);
    assert_eq!(SidecarId::StemSep.port(), 8004);
    assert_eq!(SidecarId::VideoAi.port(), 8005);
}

#[test]
fn sidecar_names_are_kebab_case_and_parse_back() {
    let names = ["voice", "audio-fx", "song-gen", "stem-sep", "video-ai"];
    for (id, name) in ALL.iter().zip(names.iter()) {
        assert_eq!(id.as_str(), *name);
        assert_eq!(id.dir_name(), *name);
        assert_eq!(parse_sidecar_id(id.as_str()), Ok(*id));
    }
}

#[test]
fn unknown_sidecar_id_is_refused() {
    assert_eq!(parse_sidecar_id("video"), Err("Unknown sidecar id: video".to_string()));
    assert_eq!(parse_sidecar_id("Voice"), Err("Unknown sidecar id: Voice".to_string()));
    assert_eq!(parse_sidecar_id(""), Err("Unknown sidecar id: ".to_string()));
}

#[test]
fn status_names_are_lowercase() {
    assert_eq!(SidecarStatus::Running.as_str(), "running");
    assert_eq!(SidecarStatus::Starting.as_str(), "starting");
    assert_eq!(SidecarStatus::Degraded.as_str(), "degraded");
    assert_eq!(SidecarStatus::Error.as_str(), "error");
    assert_eq!(SidecarStatus::Stopped.as_str(), "stopped");
}

#[test]
fn video_ai_sidecar_is_known() {
    assert_eq!(parse_sidecar_id("video-ai"), Ok(SidecarId::VideoAi));
    assert_eq!(SidecarId::VideoAi.as_str(), "video-ai");
    assert_eq!(SidecarId::VideoAi.dir_name(), "video-ai");
    let pm: ProcessManager<u32> = ProcessManager::new("/s".to_string(), "/m".to_string());
    match pm.plan_start(&SidecarId::VideoAi) {
        StartPlan::Launch(l) => {
            assert_eq!(l.port, 8005);
            assert_eq!(l.main_py, "/s/video-ai/main.py");
        },
        StartPlan::AlreadyActive => panic!("nothing was started yet"),
    }
}

#[test]
fn launch_plan_of_a_stopped_sidecar() {
    let pm: ProcessManager<u32> = ProcessManager::new("/opt/app/sidecars".to_string(), "/data/models".to_string());
    match pm.plan_start(&SidecarId::AudioFx) {
        StartPlan::Launch(l) => {
            assert_eq!(l.port, 8002);
            assert_eq!(l.sidecar_dir, "/opt/app/sidecars/audio-fx");
            assert_eq!(l.venv_python, "/opt/app/sidecars/audio-fx/venv/bin/python");
            assert_eq!(l.main_py, "/opt/app/sidecars/audio-fx/main.py");
            assert_eq!(
                l.env,
                vec![
                    ("PORT".to_string(), "8002".to_string()),
                    ("MODEL_DIR".to_string(), "/data/models".to_string()),
                    ("HF_HUB_OFFLINE".to_string(), "0".to_string()),
                ]
            );
            assert_eq!(python_program(&l, true), "/opt/app/sidecars/audio-fx/venv/bin/python");
            assert_eq!(python_program(&l, false), "python3");
        },
        StartPlan::AlreadyActive => panic!("nothing was started yet"),
    }
}

#[test]
fn starting_twice_launches_once_and_stop_forgets() {
    let mut pm: ProcessManager<u32> = ProcessManager::new("sidecars".to_string(), "models".to_string());
    assert!(pm.statuses().is_empty());
    assert_eq!(pm.mark_started(&SidecarId::Voice, 7), None);
    assert!(matches!(pm.plan_start(&SidecarId::Voice), StartPlan::AlreadyActive));
    assert!(pm.is_active(&SidecarId::Voice));
    assert!(matches!(pm.plan_start(&SidecarId::StemSep), StartPlan::Launch(_)));
    assert_eq!(pm.mark_started(&SidecarId::StemSep, 9), None);
    assert_eq!(pm.mark_started(&SidecarId::VideoAi, 11), None);
    assert_eq!(
        pm.statuses(),
        vec![
            ("voice".to_string(), "starting".to_string()),
            ("stem-sep".to_string(), "starting".to_string()),
            ("video-ai".to_string(), "starting".to_string()),
        ]
    );
    assert_eq!(pm.stop(&SidecarId::Voice), Some(7));
    assert_eq!(pm.stop(&SidecarId::Voice), None);
    assert_eq!(
        pm.statuses(),
        vec![("stem-sep".to_string(), "starting".to_string()), ("video-ai".to_string(), "starting".to_string())]
    );
    assert_eq!(pm.drain(), vec![9, 11]);
    assert!(pm.statuses().is_empty());
}

#[test]
fn relaunch_hands_back_the_previous_handle() {
    let mut pm: ProcessManager<&str> = ProcessManager::new("s".to_string(), "m".to_string());
    pm.mark_started(&SidecarId::SongGen, "first");
    assert_eq!(pm.mark_started(&SidecarId::SongGen, "second"), Some("first"));
    assert_eq!(pm.drain(), vec!["second"]);
}

#[test]
fn health_checking_follows_startup_then_monitoring() {
    let s = health_step(&HealthPhase::Startup, &HealthEvent::Probe(false));
    assert!(matches!(s.next, HealthPhase::Startup));
    assert_eq!(s.report, None);
    let s = health_step(&HealthPhase::Startup, &HealthEvent::Probe(true));
    assert!(matches!(s.next, HealthPhase::Monitoring));
    assert_eq!(s.report, Some(SidecarStatus::Running));
    let s = health_step(&HealthPhase::Startup, &HealthEvent::DeadlinePassed);
    assert!(matches!(s.next, HealthPhase::Finished));
    assert_eq!(s.report, Some(SidecarStatus::Error));
    let s = health_step(&HealthPhase::Monitoring, &HealthEvent::Probe(true));
    assert!(matches!(s.next, HealthPhase::Monitoring));
    assert_eq!(s.report, Some(SidecarStatus::Running));
    let s = health_step(&HealthPhase::Monitoring, &HealthEvent::Probe(false));
    assert!(matches!(s.next, HealthPhase::Finished));
    assert_eq!(s.report, Some(SidecarStatus::Degraded));
    let s = health_step(&HealthPhase::Finished, &HealthEvent::Probe(true));
    assert!(matches!(s.next, HealthPhase::Finished));
    assert_eq!(s.report, None);
}

#[test]
fn health_polling_intervals_and_url() {
    assert_eq!(poll_interval_secs(&HealthPhase::Startup), Some(2));
    assert_eq!(poll_interval_secs(&HealthPhase::Monitoring), Some(5));
    assert_eq!(poll_interval_secs(&HealthPhase::Finished), None);
    assert_eq!(health_url(8003), "http://127.0.0.1:8003/health");
}
