use musicstudio::models::{ModelEntry, ModelManager, ModelStatus, PathProbe};

const NOWHERE: &str = "/nonexistent-musicstudio-test-dir/models";

#[test]
fn new_registry_knows_three_models_none_on_disk() {
    let m = ModelManager::new(NOWHERE.to_string());
    assert_eq!(m.model_dir, NOWHERE);
    assert_eq!(m.models.len(), 3);
    let ids: Vec<&str> = m.models.iter().map(|e| e.id.as_str()).collect();
    assert_eq!(ids, vec!["demucs-htdemucs", "musicgen-small", "rvc-base"]);
    let demucs = &m.models[0];
    assert_eq!(demucs.display_name, "Demucs v4 (Stem Separation)");
    assert_eq!(demucs.hf_repo, "facebook/demucs");
    assert_eq!(demucs.filename, "htdemucs.th");
    assert_eq!(demucs.size_mb, 85);
    assert!(demucs.required);
    assert_eq!(m.models[1].size_mb, 1200);
    assert!(!m.models[1].required);
    assert_eq!(m.models[2].hf_repo, "lj1995/VoiceConversionWebUI");
    assert_eq!(m.models[2].filename, "hubert_base.pt");
    for e in &m.models {
        assert_eq!(e.status, ModelStatus::Missing);
        assert_eq!(e.local_path, None);
        assert_eq!(e.sha256, None);
    }
    assert_eq!(m.model_path("demucs-htdemucs"), None);
    assert_eq!(m.model_path("unknown"), None);
}

#[test]
fn all_models_are_sorted_by_display_name() {
    let mut m = ModelManager::new(NOWHERE.to_string());
    m.register(ModelEntry {
        id: "aaa".to_string(),
        display_name: "Aardvark".to_string(),
        hf_repo: "x/y".to_string(),
        filename: "f".to_string(),
        size_mb: 1,
        sha256: None,
        status: ModelStatus::Missing,
        local_path: None,
        required: false,
    });
    let names: Vec<&str> = m.all_models().iter().map(|e| e.display_name.as_str()).collect();
    assert_eq!(
        names,
        vec!["Aardvark", "Demucs v4 (Stem Separation)", "MusicGen Small (Music Generation)", "RVC v3 Base (Voice Cloning)"]
    );
}

#[test]
fn registering_an_existing_id_replaces_it() {
    let mut m = ModelManager::new(NOWHERE.to_string());
    m.register(ModelEntry {
        id: "rvc-base".to_string(),
        display_name: "RVC".to_string(),
        hf_repo: "r".to_string(),
        filename: "r.pt".to_string(),
        size_mb: 2,
        sha256: Some("abc".to_string()),
        status: ModelStatus::Ready,
        local_path: Some("/m/r.pt".to_string()),
        required: true,
    });
    assert_eq!(m.models.len(), 3);
    assert_eq!(m.models[2].display_name, "RVC");
    assert_eq!(m.model_path("rvc-base"), Some(&"/m/r.pt".to_string()));
}

#[test]
fn a_found_model_becomes_ready_with_its_path() {
    // "/usr/bin" is on every Unix system: a model "usr" whose file is "bin" under "/"
    let mut m = ModelManager::new("/".to_string());
    m.register(ModelEntry {
        id: "usr".to_string(),
        display_name: "System binaries".to_string(),
        hf_repo: "none/none".to_string(),
        filename: "bin".to_string(),
        size_mb: 0,
        sha256: None,
        status: ModelStatus::Missing,
        local_path: None,
        required: false,
    });
    let probe = PathProbe::of("/usr/bin".to_string());
    assert!(probe.is_present());
    assert_eq!(probe.path(), "/usr/bin");
    m.apply_scan_result(3, probe);
    assert_eq!(m.models[3].status, ModelStatus::Ready);
    assert_eq!(m.model_path("usr"), Some(&"/usr/bin".to_string()));
    // a model whose file is absent is left as it was
    let absent = PathProbe::of("/demucs-htdemucs/htdemucs.th".to_string());
    m.apply_scan_result(0, absent);
    assert_eq!(m.models[0].status, ModelStatus::Missing);
    assert_eq!(m.model_path("demucs-htdemucs"), None);
}

#[test]
fn scanning_marks_present_files_ready_and_is_idempotent() {
    let mut m = ModelManager::new("/".to_string());
    m.register(ModelEntry {
        id: "usr".to_string(),
        display_name: "System binaries".to_string(),
        hf_repo: "none/none".to_string(),
        filename: "bin".to_string(),
        size_mb: 0,
        sha256: None,
        status: ModelStatus::Missing,
        local_path: None,
        required: false,
    });
    m.scan_local();
    assert_eq!(m.models[3].status, ModelStatus::Ready);
    assert_eq!(m.models[3].local_path.as_deref(), Some("/usr/bin"));
    assert_eq!(m.models[0].status, ModelStatus::Missing);
    let before: Vec<(ModelStatus, Option<String>)> = m.models.iter().map(|e| (e.status, e.local_path.clone())).collect();
    m.scan_local();
    let after: Vec<(ModelStatus, Option<String>)> = m.models.iter().map(|e| (e.status, e.local_path.clone())).collect();
    assert_eq!(before, after);
}
