use cooee::config::{
    config_dir, config_path, history_path, migrate, read_config, reloads, Config, Dictionary, Profile,
};
use cooee::dictionary::PROMPT_MAX_CHARS;
use cooee::hotkey::Hotkey;
use cooee::inject::Strategy;
use cooee::pipeline::CaptureMode;

#[test]
fn dictionary_replaces_whole_words_only() {
    let mut d = Dictionary::default();
    d.insert("cat", "dog");
    assert_eq!(d.apply("the cat sat"), "the dog sat");
    // "catalogue" must not become "dogalogue".
    assert_eq!(d.apply("the catalogue"), "the catalogue");
}

#[test]
fn dictionary_preserves_attached_punctuation() {
    let mut d = Dictionary::default();
    d.insert("klaus", "Klaus");
    assert_eq!(d.apply("hi klaus, hello"), "hi Klaus, hello");
}

#[test]
fn prompt_lists_targets_once_and_ends_with_a_full_stop() {
    let mut d = Dictionary::default();
    d.insert("kui", "Cooee");
    d.insert("cooey", "Cooee");
    d.insert("claw'd", "Klaus");
    assert_eq!(d.prompt().as_deref(), Some("Klaus, Cooee."));
}

#[test]
fn prompt_is_none_when_there_is_nothing_to_say() {
    assert_eq!(Dictionary::default().prompt(), None);
    let mut d = Dictionary::default();
    d.insert("x", "   ");
    assert_eq!(d.prompt(), None);
}

#[test]
fn prompt_stays_within_budget() {
    let mut d = Dictionary::default();
    for i in 0..100 {
        d.insert(&format!("heard{i:03}"), &format!("Term{i:03}"));
    }
    let p = d.prompt().unwrap();
    assert!(p.len() <= PROMPT_MAX_CHARS, "{} chars", p.len());
    assert!(p.ends_with('.'));
    assert!(p.starts_with("Term000, Term001"));
}

#[test]
fn migrates_single_key_hotkey_vk_to_a_chord() {
    let mut value: serde_json::Value =
        serde_json::from_str(r#"{ "hotkey_vk": 163, "injection": "auto" }"#).unwrap();
    migrate(&mut value);
    let hotkey = Hotkey::from_stored(serde_json::from_value(value["hotkey"].clone()).unwrap());
    assert_eq!(hotkey, Hotkey::new(&[0xA3]));
    assert_eq!(hotkey.label(), "Right Ctrl");
    assert_eq!(value["injection"], "auto");
    assert!(value.get("hotkey_vk").is_none());
}

#[test]
fn migration_never_overrides_an_explicit_chord() {
    let mut value: serde_json::Value =
        serde_json::from_str(r#"{ "hotkey_vk": 163, "hotkey": [17, 91] }"#).unwrap();
    migrate(&mut value);
    let hotkey = Hotkey::from_stored(serde_json::from_value(value["hotkey"].clone()).unwrap());
    assert_eq!(hotkey, Hotkey::default());
}

#[test]
fn migration_leaves_other_shapes_alone() {
    for raw in ["[1, 2]", "null", r#"{ "hotkey": [1] }"#, r#"{ "a": { "hotkey_vk": 1 } }"#] {
        let before: serde_json::Value = serde_json::from_str(raw).unwrap();
        let mut after = before.clone();
        migrate(&mut after);
        assert_eq!(before, after);
    }
}

#[test]
fn a_settings_file_is_read_and_upgraded() {
    let value = read_config(r#"{ "hotkey_vk": 20 }"#).unwrap();
    assert_eq!(value["hotkey"][0], 20);
    assert!(read_config("{ not json").is_none());
}

#[test]
fn a_dictionary_is_kept_in_order_and_ignores_case() {
    let mut d = Dictionary::default();
    assert!(d.is_empty());
    d.insert("Zed", "Z");
    d.insert("alpha", "A");
    d.insert("ZED", "zz");
    let entries: Vec<(String, String)> =
        d.iter().into_iter().map(|(k, v)| (k.clone(), v.clone())).collect();
    assert_eq!(
        entries,
        vec![("alpha".to_string(), "A".to_string()), ("zed".to_string(), "zz".to_string())]
    );
    assert_eq!(d.get("zed").map(|s| s.as_str()), Some("zz"));
    assert_eq!(d.get("Zed"), None);
    d.remove("ALPHA");
    assert_eq!(d.iter().len(), 1);
    d.remove("nothing");
    assert_eq!(d.clone().iter().len(), 1);
    assert!(!d.is_empty());
}

#[test]
fn corrections_keep_punctuation_case_and_whitespace() {
    let mut d = Dictionary::default();
    d.insert("o'neil", "O'Neill");
    assert_eq!(d.apply("(O'NEIL)\t o'neil's\n\"o'neil\"!"), "(O'Neill)\t o'neil's\n\"O'Neill\"!");
    assert_eq!(d.apply(""), "");
    assert_eq!(d.apply(" ... "), " ... ");
}

#[test]
fn an_empty_entry_stands_before_what_has_no_word() {
    let mut d = Dictionary::default();
    d.insert("", "x");
    assert_eq!(d.apply("a  -- b"), "a x x-- b");
}

#[test]
fn a_prompt_counts_what_it_takes() {
    let mut d = Dictionary::default();
    d.insert("a", &"\u{E9}".repeat(198));
    // 198 characters and a full stop.
    assert_eq!(d.prompt().unwrap().chars().count(), 199);
    d.insert("b", "x");
    assert_eq!(d.prompt().unwrap().chars().count(), 199);
    let mut long = Dictionary::default();
    long.insert("a", &"y".repeat(200));
    long.insert("b", "ok");
    assert_eq!(long.prompt(), None);
    let mut same = Dictionary::default();
    same.insert("a", " Term ");
    same.insert("b", "TERM");
    assert_eq!(same.prompt().as_deref(), Some("Term."));
}

#[test]
fn defaults() {
    let c = Config::default();
    assert_eq!(c.hotkey, Hotkey::default());
    assert_eq!(c.capture_mode, CaptureMode::Hold);
    assert_eq!(c.injection, Strategy::Auto);
    assert!(c.audio_feedback && c.profiles.is_empty() && c.dictionary.is_empty());
    assert!(c.model_path.is_none() && c.asr_threads.is_none());
}

#[test]
fn a_profile_overrides_the_strategy_for_its_app() {
    let mut c = Config::default();
    assert_eq!(c.strategy_for(Some("code.exe")), Strategy::Auto);
    c.profiles.push(Profile { exe: "Code.exe".to_string(), strategy: Strategy::Paste });
    c.profiles.push(Profile { exe: "code.exe".to_string(), strategy: Strategy::Type });
    assert_eq!(c.strategy_for(Some("code.exe")), Strategy::Paste);
    assert_eq!(c.strategy_for(Some("other.exe")), Strategy::Auto);
    assert_eq!(c.strategy_for(None), Strategy::Auto);
}

#[test]
fn a_model_is_loaded_anew_where_it_changed() {
    let a = Config::default();
    let mut b = Config::default();
    assert!(!a.needs_reload(&b));
    b.audio_feedback = false;
    assert!(!a.needs_reload(&b));
    b.model_path = Some("m".to_string());
    assert!(a.needs_reload(&b));
    let mut c = Config::default();
    c.asr_threads = Some(2);
    assert!(a.needs_reload(&c));
}

#[test]
fn the_same_model_path_is_not_loaded_anew() {
    let with = |path: &str| Config { model_path: Some(path.to_string()), ..Config::default() };
    assert!(!with("models/small").needs_reload(&with("models/small/")));
    assert!(!with("models//small/./").needs_reload(&with("models/small")));
    assert!(with("models/small").needs_reload(&with("models/base")));
    assert!(with("models/small").needs_reload(&with("models/x/../small")));
    assert!(with("models/Base").needs_reload(&with("models/base")));
    assert!(with("whisper-1.0").needs_reload(&with("whisper-10")));
    assert!(with("a/b").needs_reload(&with("ab")));
    assert!(with("/a").needs_reload(&with("a")));
    assert!(with("./a").needs_reload(&with("a")));
    assert!(!with("./a").needs_reload(&with(".//a/.")));
    assert!(!with("/./a").needs_reload(&with("/a")));
    assert!(reloads(false, true) && reloads(true, false) && !reloads(true, true));
}

#[test]
fn settings_that_cannot_be_read_are_the_defaults() {
    let kept = Config { asr_threads: Some(3), audio_feedback: false, ..Config::default() };
    let back = Config::load(Some(kept));
    assert_eq!((back.asr_threads, back.audio_feedback), (Some(3), false));
    let fresh = Config::load(None);
    assert_eq!(fresh.hotkey, Hotkey::default());
    assert_eq!((fresh.asr_threads, fresh.audio_feedback), (None, true));
}

#[test]
fn a_migrated_file_keeps_every_number() {
    let value = read_config(r#"{"hotkey_vk": -1.5, "x": -7, "y": 0.25}"#).unwrap();
    assert_eq!(value["hotkey"], serde_json::Value::from(vec![-1.5]));
    assert_eq!(value["x"], serde_json::Value::from(-7));
    assert_eq!(value["y"], serde_json::Value::from(0.25));
}

#[test]
fn a_prompt_counts_characters() {
    let mut d = Dictionary::default();
    let term = "\u{E9}".repeat(150);
    d.insert("x", &term);
    assert_eq!(d.prompt(), Some(format!("{term}.")));
    let mut over = Dictionary::default();
    over.insert("x", &"\u{E9}".repeat(200));
    assert_eq!(over.prompt(), None);
    let mut full = Dictionary::default();
    full.insert("x", &"\u{E9}".repeat(199));
    assert_eq!(full.prompt().unwrap().chars().count(), PROMPT_MAX_CHARS);
}

#[test]
fn files_live_below_the_configuration_directory() {
    assert_eq!(config_dir(Some("base"), '/').as_deref(), Some("base/cooee"));
    assert_eq!(
        config_path(Some(r"C:\Users\a\"), '\\').as_deref(),
        Some(r"C:\Users\a\cooee\config.json")
    );
    assert_eq!(history_path(Some("b"), '/').as_deref(), Some("b/cooee/history.json"));
    assert_eq!(config_dir(None, '/'), None);
    assert_eq!(config_path(None, '/'), None);
    assert_eq!(history_path(None, '/'), None);
}

#[test]
fn words_are_corrected_apart() {
    let mut d = Dictionary::default();
    d.insert("kui", "Cooee");
    for (a, b) in [("kui,", "x kui"), ("", "kui"), ("a kui ", ""), ("kui", "\tkui")] {
        assert_eq!(d.apply(&format!("{a}\n{b}")), format!("{}\n{}", d.apply(a), d.apply(b)));
    }
}

#[test]
fn stored_keys_are_kept_as_they_are() {
    let mut d = Dictionary::default();
    d.insert_key("Mixed".to_string(), "kept");
    assert_eq!(d.get("Mixed"), Some(&"kept".to_string()));
    assert_eq!(d.get("mixed"), None);
    // Words are looked up in lower case, so this key is never met.
    assert_eq!(d.apply("Mixed"), "Mixed");

    d.insert("Mixed", "word");
    assert_eq!(d.iter().len(), 2);
    assert_eq!(d.apply("Mixed"), "word");

    d.remove("MIXED");
    assert_eq!(d.get("mixed"), None);
    assert_eq!(d.get("Mixed"), Some(&"kept".to_string()));
    d.remove_key("Mixed");
    assert!(d.is_empty());
}
