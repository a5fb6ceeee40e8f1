use cooee::caret::Neighbours;
use cooee::config::{Config, Dictionary, Profile};
use cooee::hotkey::HotkeyEvent;
use cooee::inject::Strategy;
use cooee::pipeline::{
    action, after_capture, after_command, after_insertion, after_transcription, capturing, cue,
    governing_mode, next_command, next_step, placed, report, wait_ms, working, Action, CaptureMode, Command,
    Event, Outcome, State, Step, Wake,
};
use cooee::tone::Tone;

#[test]
fn hold_is_press_to_start_and_release_to_stop() {
    assert_eq!(action(CaptureMode::Hold, false, HotkeyEvent::Pressed), Action::Start);
    assert_eq!(action(CaptureMode::Hold, true, HotkeyEvent::Released), Action::Stop);
}

#[test]
fn hold_ignores_repeats_and_stray_releases() {
    // Auto-repeat is collapsed in the hook, but a second Pressed must
    // never restart a capture that is already running.
    assert_eq!(action(CaptureMode::Hold, true, HotkeyEvent::Pressed), Action::Ignore);
    // A release with nothing running must not run the pipeline on an empty
    // buffer.
    assert_eq!(action(CaptureMode::Hold, false, HotkeyEvent::Released), Action::Ignore);
}

#[test]
fn latch_starts_and_stops_on_successive_presses() {
    assert_eq!(action(CaptureMode::Latch, false, HotkeyEvent::Pressed), Action::Start);
    assert_eq!(action(CaptureMode::Latch, true, HotkeyEvent::Pressed), Action::Stop);
}

#[test]
fn latch_never_stops_on_a_release() {
    assert_eq!(action(CaptureMode::Latch, true, HotkeyEvent::Released), Action::Ignore);
    assert_eq!(action(CaptureMode::Latch, false, HotkeyEvent::Released), Action::Ignore);
}

#[test]
fn a_full_latched_utterance_is_two_taps() {
    // A tap is Pressed then Released; the hook emits both either way.
    let taps = [
        HotkeyEvent::Pressed,
        HotkeyEvent::Released,
        HotkeyEvent::Pressed,
        HotkeyEvent::Released,
    ];
    let mut capturing = false;
    let mut actions = Vec::new();
    for ev in taps {
        let a = action(CaptureMode::Latch, capturing, ev);
        match a {
            Action::Start => capturing = true,
            Action::Stop => capturing = false,
            Action::Ignore => {}
        }
        actions.push(a);
    }
    assert_eq!(
        actions,
        [Action::Start, Action::Ignore, Action::Stop, Action::Ignore]
    );
    assert!(!capturing, "the second tap must have ended the capture");
}

#[test]
fn a_mode_change_cannot_strand_a_running_capture() {
    // The setting flips to Latch while a Hold capture is in flight.
    let mode = governing_mode(CaptureMode::Latch, Some(CaptureMode::Hold));
    assert_eq!(mode, CaptureMode::Hold, "a running capture keeps its mode");
    assert_eq!(action(mode, true, HotkeyEvent::Released), Action::Stop);
}

#[test]
fn the_reverse_switch_is_also_honoured_by_the_running_capture() {
    // Latch capture in flight, setting flips to Hold. The capture must
    // still end on the next press, not on the release of that press.
    let mode = governing_mode(CaptureMode::Hold, Some(CaptureMode::Latch));
    assert_eq!(mode, CaptureMode::Latch);
    assert_eq!(action(mode, true, HotkeyEvent::Pressed), Action::Stop);
}

#[test]
fn a_mode_change_applies_from_the_next_utterance() {
    // Nothing in flight: the configured mode is the one that counts.
    assert_eq!(governing_mode(CaptureMode::Latch, None), CaptureMode::Latch);
    assert_eq!(governing_mode(CaptureMode::Hold, None), CaptureMode::Hold);
}

#[test]
fn holding_is_the_default() {
    assert_eq!(CaptureMode::default(), CaptureMode::Hold);
}

#[test]
fn a_held_utterance_runs_from_press_to_release() {
    let press = Wake::Key(HotkeyEvent::Pressed);
    let release = Wake::Key(HotkeyEvent::Released);
    let hold = CaptureMode::Hold;
    assert_eq!(wait_ms(None), None);
    let start = next_command(None, hold, press);
    assert_eq!(start, Command::Start(hold));
    // The microphone could not be opened: still idle.
    assert_eq!(after_command(None, start, false), None);
    let open = after_command(None, start, true);
    assert_eq!(open, Some(hold));
    assert_eq!(wait_ms(open), Some(500));
    assert_eq!(next_command(open, hold, press), Command::Nothing);
    let stop = next_command(open, CaptureMode::Latch, release);
    assert_eq!(stop, Command::Stop);
    assert_eq!(after_command(open, stop, true), None);
}

#[test]
fn the_ceiling_ends_a_capture_in_either_mode() {
    for mode in [CaptureMode::Hold, CaptureMode::Latch] {
        let full = Wake::Timeout { full: true };
        let more = Wake::Timeout { full: false };
        assert_eq!(next_command(Some(mode), mode, full), Command::Stop);
        assert_eq!(next_command(Some(mode), mode, more), Command::Nothing);
        assert_eq!(next_command(None, mode, full), Command::Nothing);
    }
}

#[test]
fn every_ending_is_reported() {
    let r = report(after_capture(false, false).unwrap());
    assert_eq!(r.cue, Some(Tone::Failed));
    assert_eq!(r.status.state, State::Idle);
    assert_eq!(r.status.detail.as_deref(), Some("no speech detected"));

    let r = report(after_capture(true, false).unwrap());
    assert_eq!(r.cue, Some(Tone::Failed));
    assert_eq!(r.status.state, State::Error);
    assert_eq!(
        r.status.detail.as_deref(),
        Some("model is still loading; try again in a moment")
    );
    assert!(after_capture(true, true).is_none());

    let r = report(after_insertion(Err("no".to_string()), true, 1));
    assert_eq!(r.cue, Some(Tone::Failed));
    assert_eq!(r.status.state, State::Error);
    assert_eq!(r.status.detail.as_deref(), Some("no"));

    let r = report(after_insertion(Ok(()), false, 812));
    assert_eq!(r.cue, None);
    assert_eq!(r.status.state, State::Idle);
    assert_eq!(r.status.detail.as_deref(), Some("812 ms"));

    let r = report(after_insertion(Ok(()), true, 9));
    assert_eq!(r.status.detail.as_deref(), Some("cut at 5:00 \u{B7} 9 ms"));
}

#[test]
fn what_was_heard_is_polished_or_nothing() {
    let d = Dictionary::default();
    assert_eq!(after_transcription(Ok(" um hello ".to_string()), &d).unwrap(), "Hello");
    let r = report(after_transcription(Ok(" um ".to_string()), &d).unwrap_err());
    assert_eq!(r.cue, Some(Tone::Failed));
    assert_eq!(r.status.state, State::Idle);
    assert_eq!(r.status.detail.as_deref(), Some("nothing to insert"));
    let e = after_transcription(Err("broke".to_string()), &d).unwrap_err();
    assert!(matches!(e, Outcome::Failed(m) if m == "broke"));
}

#[test]
fn text_is_placed_by_the_caret() {
    let n = Neighbours { before: Some('t'), after: None };
    assert_eq!(placed("today", Some(n)), " today");
    assert_eq!(placed("today", None), "today");
}

#[test]
fn statuses_and_cues() {
    assert!(capturing(CaptureMode::Latch).latched);
    assert!(!capturing(CaptureMode::Hold).latched);
    assert_eq!(capturing(CaptureMode::Hold).state, State::Capturing);
    assert_eq!(working(State::Transcribing).state, State::Transcribing);
    assert!(working(State::Injecting).detail.is_none());
    assert_eq!(cue(Tone::Start, true), Some(Tone::Start));
    assert_eq!(cue(Tone::Start, false), None);
}

fn took(speech: bool, engine: bool) -> Event {
    Event::Took { speech, engine, cut: false }
}

#[test]
fn a_dictation_is_reported_before_it_is_inserted() {
    let mut config = Config::default();
    config.dictionary.insert("kui", "Cooee");
    let step = next_step(Step::Take, took(true, true), &config);
    assert!(matches!(step, Step::PlayStop { cut: false }));
    let step = next_step(step, Event::Done, &config);
    assert!(matches!(step, Step::ShowTranscribing { .. }));
    let step = next_step(step, Event::Done, &config);
    assert!(matches!(&step, Step::Transcribe { prompt: Some(p), .. } if p == "Cooee."));
    let heard = Event::Heard { text: " um, hello kui ".to_string(), inference_ms: 7 };
    let step = next_step(step, heard, &config);
    assert!(
        matches!(&step, Step::Report { text, inference_ms: 7, .. } if text == "Hello Cooee"),
        "{step:?}"
    );
    let step = next_step(step, Event::Done, &config);
    assert!(matches!(&step, Step::ShowInjecting { text, .. } if text == "Hello Cooee"));
    let step = next_step(step, Event::Done, &config);
    // The profile comes while the model is working, and still counts.
    config.profiles.push(Profile { exe: "Code.exe".to_string(), strategy: Strategy::Paste });
    let located = Event::Located {
        caret: Some(Neighbours { before: Some('x'), after: None }),
        app: Some("code.exe".to_string()),
    };
    let step = next_step(step, located, &config);
    assert!(
        matches!(&step, Step::Insert { text, strategy: Strategy::Paste, .. } if text == " Hello Cooee"),
        "{step:?}"
    );
    let done = next_step(step.clone(), Event::Inserted { total_ms: 9 }, &config);
    assert!(matches!(done, Step::End(Outcome::Inserted { cut: false, total_ms: 9 })));
    let failed = next_step(step, Event::Failed("no".to_string()), &config);
    assert!(matches!(&failed, Step::End(Outcome::Failed(e)) if e == "no"));
}

#[test]
fn the_stop_cue_is_only_for_what_is_transcribed() {
    let config = Config::default();
    let end = |event: Event| next_step(Step::Take, event, &config);
    assert!(matches!(end(took(false, true)), Step::End(Outcome::NoSpeech)));
    assert!(matches!(end(took(false, false)), Step::End(Outcome::NoSpeech)));
    assert!(matches!(end(took(true, false)), Step::End(Outcome::Loading)));
    assert!(matches!(end(Event::Failed("x".to_string())), Step::End(Outcome::Failed(_))));
    let transcribe = Step::Transcribe { cut: true, prompt: None };
    let silence = Event::Heard { text: "um".to_string(), inference_ms: 1 };
    assert!(matches!(next_step(transcribe.clone(), silence, &config), Step::End(Outcome::Nothing)));
    let failed = next_step(transcribe, Event::Failed("x".to_string()), &config);
    assert!(matches!(failed, Step::End(Outcome::Failed(_))));
}

#[test]
fn an_event_that_answers_nothing_changes_nothing() {
    let config = Config::default();
    assert!(matches!(next_step(Step::Take, Event::Done, &config), Step::Take));
    let end = next_step(Step::End(Outcome::Nothing), Event::Done, &config);
    assert!(matches!(end, Step::End(Outcome::Nothing)));
    let cue = next_step(Step::PlayStop { cut: true }, Event::Failed("x".to_string()), &config);
    assert!(matches!(cue, Step::PlayStop { cut: true }));
}
