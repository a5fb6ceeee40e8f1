use cooee::asr::mock::MockEngine;
use cooee::asr::whisper_cpp::{join_segments, NAME};
use cooee::asr::{
    choose_engine, loaded, loading_info, thread_count, EngineKind, EngineState, SlotChange,
    Transcript,
};
use cooee::config::Config;
use cooee::data_report;
use cooee::history::History;

#[test]
fn a_model_chooses_its_engine() {
    assert_eq!(choose_engine(None, false, false, false), Ok(EngineKind::Mock));
    assert_eq!(choose_engine(Some("m"), true, true, false), Ok(EngineKind::Onnx));
    assert_eq!(choose_engine(Some("m.bin"), false, false, true), Ok(EngineKind::Whisper));
    assert_eq!(
        choose_engine(Some("m"), true, false, true).unwrap_err(),
        "this build has no ONNX engine (built without the `onnx` feature), so the model folder m cannot be used"
    );
    assert_eq!(
        choose_engine(Some("m.bin"), false, true, false).unwrap_err(),
        "this build has no whisper engine (built without the `whisper` feature), so m.bin cannot be used"
    );
}

#[test]
fn threads_are_few_by_default() {
    assert_eq!(thread_count(None, Some(12)), 4);
    assert_eq!(thread_count(None, Some(3)), 2);
    assert_eq!(thread_count(None, Some(1)), 1);
    assert_eq!(thread_count(None, None), 2);
    assert_eq!(thread_count(Some(8), Some(2)), 8);
    assert_eq!(thread_count(Some(0), None), 1);
}

#[test]
fn a_failed_load_keeps_the_engine_in_use() {
    let info = loading_info(Some("m".to_string()));
    assert_eq!(info.state, EngineState::Loading);
    assert!(info.engine.is_none() && info.error.is_none());

    let (info, change) = loaded(None, Ok("mock".to_string()), Some("old".to_string()));
    assert_eq!((info.state, change), (EngineState::Ready, SlotChange::Replace));
    assert_eq!(info.engine.as_deref(), Some("mock"));

    let bad = || Err("bad".to_string());
    let (info, change) = loaded(Some("m".to_string()), bad(), Some("old".to_string()));
    assert_eq!((info.state, change), (EngineState::Failed, SlotChange::Keep));
    assert_eq!(info.engine.as_deref(), Some("old"));
    assert_eq!(info.error.as_deref(), Some("bad"));
    assert_eq!(info.model.as_deref(), Some("m"));

    let (info, change) = loaded(None, bad(), None);
    assert_eq!(change, SlotChange::InstallMock);
    assert_eq!(info.engine.as_deref(), Some(MockEngine.name()));
}

#[test]
fn segments_are_joined_and_trimmed() {
    let list = |v: &[&str]| v.iter().map(|s| s.to_string()).collect::<Vec<String>>();
    assert_eq!(join_segments(&list(&[" one,", " two. "])), "one, two.");
    assert_eq!(join_segments(&Vec::new()), "");
    assert_eq!(NAME, "whisper.cpp");
    let t = Transcript::default();
    assert!(t.text.is_empty() && t.inference_ms == 0);
}

#[test]
fn a_report_names_every_file() {
    let mut config = Config::default();
    config.model_path = Some("model".to_string());
    let mut history = History::load(None, Some("h.json".to_string()));
    history.push(1, "x".to_string(), 0, 0);
    let (info, _) = loaded(None, Ok("mock".to_string()), None);
    let r = data_report(&config, &history, &info, Some("base"), '/', Some(77));
    assert_eq!(r.config_dir.as_deref(), Some("base/cooee"));
    assert_eq!(r.config_path.as_deref(), Some("base/cooee/config.json"));
    assert_eq!(r.history_path.as_deref(), Some("h.json"));
    assert_eq!(r.history_entries, 1);
    assert_eq!(r.history_bytes, Some(77));
    assert_eq!(r.model_path.as_deref(), Some("model"));
    assert_eq!(r.engine.as_deref(), Some("mock"));
}
