//! The state machine that ties everything together.
//!
//! ```text
//!   Idle --press--> Capturing --release--> Transcribing --> Polishing --> Injecting --> Idle
//! ```
//!
//! That is `CaptureMode::Hold`. Under `CaptureMode::Latch` the release is ignored
//! and a second press ends the capture, so nothing has to be held down; see
//! [`action`], which is the whole of the difference.
//!
//! The microphone, the engine and the keyboard belong to the caller, which runs
//! what is decided here and says what came of it.

use crate::audio::MAX_SECONDS;
use crate::caret::{pad, padded, Neighbours};
use crate::config::{strategy_of, Config};
use crate::dictionary::{prompt_of, Dictionary};
use crate::hotkey::HotkeyEvent;
use crate::inject::Strategy;
use crate::polish::{polish, polished};
use crate::text::{
    append, append_str, chars_of, decimal, decimal_of, decimal_value, law_numbers_read_back,
    string_of, zero_padded, zero_padded_of,
};
use crate::tone::Tone;
use vstd::prelude::*;

verus! {

#[derive(Debug, Clone, Copy, PartialEq, Eq, Structural)]
pub enum State {
    Idle,
    Capturing,
    Transcribing,
    Injecting,
    Error,
}

/// How the hotkey drives capture.
///
/// `Hold` is push-to-talk: the chord stays down for the whole utterance. That
/// assumes a hand which can hold two keys steady for the length of a sentence,
/// which rules the app out for the people dictation exists for. `Latch` costs two
/// taps instead and asks nothing to be held.
#[derive(Debug, Clone, Copy, PartialEq, Eq, Structural)]
pub enum CaptureMode {
    Hold,
    Latch,
}

impl Default for CaptureMode {
    fn default() -> (r: CaptureMode)
        ensures
            r == CaptureMode::Hold,
    {
        CaptureMode::Hold
    }
}

/// Emitted to the overlay on every transition so the HUD can animate.
#[derive(Debug, Clone)]
pub struct StatusEvent {
    pub state: State,
    pub detail: Option<String>,
    /// Set while a latched capture is running. The HUD has to say so: with no key
    /// held down, a latched capture is otherwise indistinguishable from a hotkey
    /// that has jammed.
    pub latched: bool,
}

/// A finished dictation, reported before insertion so it is kept even when the
/// insertion fails or lands in the wrong place.
#[derive(Debug, Clone)]
pub struct Dictated {
    pub text: String,
    pub inference_ms: u64,
    /// Release to text ready.
    pub elapsed_ms: u64,
}

/// No-op observer, for headless use.
#[derive(Debug, Clone, Copy, PartialEq, Eq, Structural)]
pub struct Silent;

// ---------------------------------------------------------------------------
// Starting and stopping
// ---------------------------------------------------------------------------

/// What a hotkey event means, given the mode and whether a capture is running.
#[derive(Debug, Clone, Copy, PartialEq, Eq, Structural)]
pub enum Action {
    Start,
    Stop,
    Ignore,
}

/// What a hotkey event means. Hold: the key is the capture; press starts, release
/// ends. Latch: releases mean nothing, and the second press is the stop.
pub open spec fn action_of(mode: CaptureMode, capturing: bool, event: HotkeyEvent) -> Action {
    match (mode, event, capturing) {
        (CaptureMode::Hold, HotkeyEvent::Pressed, false) => Action::Start,
        (CaptureMode::Hold, HotkeyEvent::Released, true) => Action::Stop,
        (CaptureMode::Latch, HotkeyEvent::Pressed, false) => Action::Start,
        (CaptureMode::Latch, HotkeyEvent::Pressed, true) => Action::Stop,
        _ => Action::Ignore,
    }
}

/// What a hotkey event means, given the mode and whether a capture is running.
pub fn action(mode: CaptureMode, capturing: bool, event: HotkeyEvent) -> (r: Action)
    ensures
        r == action_of(mode, capturing, event),
{
    match (mode, event, capturing) {
        (CaptureMode::Hold, HotkeyEvent::Pressed, false) => Action::Start,
        (CaptureMode::Hold, HotkeyEvent::Released, true) => Action::Stop,
        (CaptureMode::Latch, HotkeyEvent::Pressed, false) => Action::Start,
        (CaptureMode::Latch, HotkeyEvent::Pressed, true) => Action::Stop,
        _ => Action::Ignore,
    }
}

/// Which mode governs the next decision.
pub open spec fn governing(configured: CaptureMode, in_flight: Option<CaptureMode>) -> CaptureMode {
    match in_flight {
        Some(mode) => mode,
        None => configured,
    }
}

/// Which mode governs the next decision: the one a running capture began under,
/// or the configured one when the pipeline is idle. A mode change therefore takes
/// effect from the next utterance, never during one.
pub fn governing_mode(configured: CaptureMode, in_flight: Option<CaptureMode>) -> (r: CaptureMode)
    ensures
        r == governing(configured, in_flight),
{
    match in_flight {
        Some(mode) => mode,
        None => configured,
    }
}

/// How often an open capture checks whether it has hit the ceiling. Coarse on
/// purpose: the only deadline it has to catch is a five-minute one.
pub const CEILING_POLL_MS: u64 = 500;

/// How long to wait for the next hotkey event: without end while idle, and
/// otherwise no longer than the ceiling is to be checked after. Polled whenever a
/// capture is open, not only a latched one: a key stuck down in hold mode never
/// ends just as well as a latch the user walked away from.
pub fn wait_ms(in_flight: Option<CaptureMode>) -> (r: Option<u64>)
    ensures
        r == (if in_flight is Some {
            Some(CEILING_POLL_MS)
        } else {
            None
        }),
{
    match in_flight {
        Some(_) => Some(CEILING_POLL_MS),
        None => None,
    }
}

/// What wakes the pipeline.
#[derive(Debug, Clone, Copy, PartialEq, Eq, Structural)]
pub enum Wake {
    Key(HotkeyEvent),
    /// The wait ran out.
    Timeout {
        /// The capture has hit the ceiling.
        full: bool,
    },
}

/// What the pipeline does next.
#[derive(Debug, Clone, Copy, PartialEq, Eq, Structural)]
pub enum Command {
    Nothing,
    /// Open the microphone, under this mode.
    Start(CaptureMode),
    /// Close the microphone and run everything downstream of it.
    Stop,
}

/// What the pipeline does when it is woken, by the mode of the capture in flight,
/// if there is one, and the configured mode.
pub open spec fn command(
    in_flight: Option<CaptureMode>,
    configured: CaptureMode,
    wake: Wake,
) -> Command {
    match wake {
        Wake::Timeout { full } => if in_flight is Some && full {
            Command::Stop
        } else {
            Command::Nothing
        },
        Wake::Key(event) => match action_of(
            governing(configured, in_flight),
            in_flight is Some,
            event,
        ) {
            Action::Start => Command::Start(governing(configured, in_flight)),
            Action::Stop => Command::Stop,
            Action::Ignore => Command::Nothing,
        },
    }
}

/// The capture in flight after a command; `opened` says whether a microphone that
/// was to be opened was.
pub open spec fn in_flight_after(
    in_flight: Option<CaptureMode>,
    cmd: Command,
    opened: bool,
) -> Option<CaptureMode> {
    match cmd {
        Command::Nothing => in_flight,
        Command::Start(mode) => if opened {
            Some(mode)
        } else {
            in_flight
        },
        Command::Stop => None,
    }
}

/// What the pipeline does when it is woken.
pub fn next_command(
    in_flight: Option<CaptureMode>,
    configured: CaptureMode,
    wake: Wake,
) -> (r: Command)
    ensures
        r == command(in_flight, configured, wake),
{
    match wake {
        Wake::Timeout { full } => {
            if in_flight.is_some() && full {
                Command::Stop
            } else {
                Command::Nothing
            }
        },
        Wake::Key(event) => {
            let mode: CaptureMode = governing_mode(configured, in_flight);
            match action(mode, in_flight.is_some(), event) {
                Action::Start => Command::Start(mode),
                Action::Stop => Command::Stop,
                Action::Ignore => Command::Nothing,
            }
        },
    }
}

/// The capture in flight after a command.
pub fn after_command(in_flight: Option<CaptureMode>, cmd: Command, opened: bool) -> (r: Option<
    CaptureMode,
>)
    ensures
        r == in_flight_after(in_flight, cmd, opened),
{
    match cmd {
        Command::Nothing => in_flight,
        Command::Start(mode) => {
            if opened {
                Some(mode)
            } else {
                in_flight
            }
        },
        Command::Stop => None,
    }
}

/// A capture starts only when none is running, under the configured mode, and
/// only a running one stops.
pub proof fn law_captures_do_not_overlap(
    in_flight: Option<CaptureMode>,
    configured: CaptureMode,
    wake: Wake,
)
    ensures
        command(in_flight, configured, wake) matches Command::Start(mode) ==> in_flight is None && mode
            == configured,
        command(in_flight, configured, wake) is Stop ==> in_flight is Some,
{
}

/// A change of mode cannot strand a running capture: whatever is configured, a
/// held one ends with the release and a latched one with the next press, and
/// either ends at the ceiling.
pub proof fn law_a_mode_change_cannot_strand_a_capture(configured: CaptureMode, mode: CaptureMode)
    ensures
        command(
            Some(CaptureMode::Hold),
            configured,
            Wake::Key(HotkeyEvent::Released),
        ) is Stop,
        command(
            Some(CaptureMode::Latch),
            configured,
            Wake::Key(HotkeyEvent::Pressed),
        ) is Stop,
        command(Some(mode), configured, Wake::Timeout { full: true }) is Stop,
{
}

/// In latch mode a release never does anything, so nothing has to be held: two
/// taps, each a press and a release, are one utterance.
pub proof fn law_a_latched_utterance_is_two_taps(in_flight: Option<CaptureMode>)
    requires
        in_flight != Some(CaptureMode::Hold),
    ensures
        command(in_flight, CaptureMode::Latch, Wake::Key(HotkeyEvent::Released)) is Nothing,
        ({
            let press = Wake::Key(HotkeyEvent::Pressed);
            let first = command(None, CaptureMode::Latch, press);
            let open = in_flight_after(None, first, true);
            let second = command(open, CaptureMode::Latch, press);
            &&& first == Command::Start(CaptureMode::Latch)
            &&& open == Some(CaptureMode::Latch)
            &&& second is Stop
            &&& in_flight_after(open, second, true) is None
        }),
{
}

/// What every event does. With nothing running, a press starts a capture, and
/// nothing else does anything. A held capture stops with the release and a latched
/// one with the next press, and either at the ceiling; nothing else does anything.
pub proof fn law_what_every_event_does(
    in_flight: Option<CaptureMode>,
    configured: CaptureMode,
    wake: Wake,
    opened: bool,
)
    ensures
        ({
            let cmd = command(in_flight, configured, wake);
            let press = wake == Wake::Key(HotkeyEvent::Pressed);
            let release = wake == Wake::Key(HotkeyEvent::Released);
            let full = wake == (Wake::Timeout { full: true });
            &&& in_flight is None ==> cmd == (if press {
                Command::Start(configured)
            } else {
                Command::Nothing
            })
            &&& in_flight == Some(CaptureMode::Hold) ==> cmd == (if release || full {
                Command::Stop
            } else {
                Command::Nothing
            })
            &&& in_flight == Some(CaptureMode::Latch) ==> cmd == (if press || full {
                Command::Stop
            } else {
                Command::Nothing
            })
            &&& in_flight is None ==> in_flight_after(in_flight, cmd, opened) == (if press && opened {
                Some(configured)
            } else {
                None
            })
            &&& in_flight is Some ==> in_flight_after(in_flight, cmd, opened) == (if cmd is Stop {
                None
            } else {
                in_flight
            })
        }),
{
}

// ---------------------------------------------------------------------------
// Finishing
// ---------------------------------------------------------------------------

/// How an utterance ended.
#[derive(Debug, Clone)]
pub enum Outcome {
    /// There was no speech in it.
    NoSpeech,
    /// The model was still loading.
    Loading,
    /// Something failed, and this is what is said of it.
    Failed(String),
    /// The text polished away to nothing.
    Nothing,
    /// The text was inserted.
    Inserted {
        /// The capture had hit the ceiling.
        cut: bool,
        /// Release to insertion.
        total_ms: u64,
    },
}

/// Whether an utterance goes on to be transcribed: `None` if so. Speech comes
/// first, and then an engine to transcribe it.
pub fn after_capture(speech: bool, engine: bool) -> (r: Option<Outcome>)
    ensures
        !speech ==> r == Some(Outcome::NoSpeech),
        speech && !engine ==> r == Some(Outcome::Loading),
        speech && engine ==> r is None,
{
    if !speech {
        Some(Outcome::NoSpeech)
    } else if !engine {
        Some(Outcome::Loading)
    } else {
        None
    }
}

/// What is dictated, by what the engine heard; how the utterance ended if there
/// is nothing.
pub fn after_transcription(heard: Result<String, String>, dictionary: &Dictionary) -> (r: Result<
    String,
    Outcome,
>)
    ensures
        match heard {
            Ok(raw) => if polished(raw@, dictionary@).len() > 0 {
                r matches Ok(text) && text@ == polished(raw@, dictionary@)
            } else {
                r == Err::<String, Outcome>(Outcome::Nothing)
            },
            Err(e) => r == Err::<String, Outcome>(Outcome::Failed(e)),
        },
{
    match heard {
        Ok(raw) => {
            let text: String = polish(raw.as_str(), dictionary);
            if text.as_str().is_empty() {
                Err(Outcome::Nothing)
            } else {
                Ok(text)
            }
        },
        Err(e) => Err(Outcome::Failed(e)),
    }
}

/// The text as it is inserted, where the caret could be read and where not.
pub open spec fn placed_text(text: Seq<char>, caret: Option<Neighbours>) -> Seq<char> {
    match caret {
        Some(n) => padded(text, n),
        None => text,
    }
}

/// The text as it is inserted: with a space either side when the caret is against
/// a word, so a mid-sentence dictation does not fuse with what is already there.
pub fn placed(text: &str, caret: Option<Neighbours>) -> (r: String)
    ensures
        r@ == placed_text(text@, caret),
{
    match caret {
        Some(n) => pad(text, &n),
        None => text.to_string(),
    }
}

/// How an utterance ended, by what came of the insertion.
pub fn after_insertion(inserted: Result<(), String>, cut: bool, total_ms: u64) -> (r: Outcome)
    ensures
        r == match inserted {
            Ok(_) => Outcome::Inserted { cut, total_ms },
            Err(e) => Outcome::Failed(e),
        },
{
    match inserted {
        Ok(_) => Outcome::Inserted { cut, total_ms },
        Err(e) => Outcome::Failed(e),
    }
}

// ---------------------------------------------------------------------------
// One step after the other
// ---------------------------------------------------------------------------

/// What is done next for an utterance whose capture has ended.
#[derive(Debug, Clone)]
pub enum Step {
    /// Close the microphone, trim what it heard, and look for an engine.
    Take,
    /// Play the stop cue.
    PlayStop { cut: bool },
    /// Show that the utterance is being transcribed.
    ShowTranscribing { cut: bool },
    /// Transcribe it, with this prompt.
    Transcribe { cut: bool, prompt: Option<String> },
    /// Report the dictation: text is ready and about to be inserted.
    Report { cut: bool, text: String, inference_ms: u64 },
    /// Show that the text is being inserted.
    ShowInjecting { cut: bool, text: String },
    /// Look at the caret and at which app has focus.
    Locate { cut: bool, text: String },
    /// Insert the text.
    Insert { cut: bool, text: String, strategy: Strategy },
    /// It is over.
    End(Outcome),
}

/// What came of a step.
#[derive(Debug, Clone)]
pub enum Event {
    /// The microphone is closed: whether there was speech, whether there is an
    /// engine, and whether the capture had hit the ceiling.
    Took { speech: bool, engine: bool, cut: bool },
    /// It is done.
    Done,
    /// What the engine heard, and how long it took.
    Heard { text: String, inference_ms: u64 },
    /// What sits beside the caret and which app has focus, as far as can be read.
    Located { caret: Option<Neighbours>, app: Option<String> },
    /// The text is in, this long after the release.
    Inserted { total_ms: u64 },
    /// It failed, and this is what is said of it.
    Failed(String),
}

/// What a [`Step`] holds.
#[verifier::ext_equal]
pub ghost enum StepView {
    Take,
    PlayStop { cut: bool },
    ShowTranscribing { cut: bool },
    Transcribe { cut: bool, prompt: Option<Seq<char>> },
    Report { cut: bool, text: Seq<char>, inference_ms: u64 },
    ShowInjecting { cut: bool, text: Seq<char> },
    Locate { cut: bool, text: Seq<char> },
    Insert { cut: bool, text: Seq<char>, strategy: Strategy },
    End(Outcome),
}

impl View for Step {
    type V = StepView;

    open spec fn view(&self) -> StepView {
        match *self {
            Step::Take => StepView::Take,
            Step::PlayStop { cut } => StepView::PlayStop { cut },
            Step::ShowTranscribing { cut } => StepView::ShowTranscribing { cut },
            Step::Transcribe { cut, prompt } => StepView::Transcribe {
                cut,
                prompt: crate::asr::text_of(prompt),
            },
            Step::Report { cut, text, inference_ms } => StepView::Report {
                cut,
                text: text@,
                inference_ms,
            },
            Step::ShowInjecting { cut, text } => StepView::ShowInjecting { cut, text: text@ },
            Step::Locate { cut, text } => StepView::Locate { cut, text: text@ },
            Step::Insert { cut, text, strategy } => StepView::Insert { cut, text: text@, strategy },
            Step::End(outcome) => StepView::End(outcome),
        }
    }
}

/// Whether an event can come of a step. Closing the microphone, transcribing and
/// inserting can fail.
pub open spec fn answers(step: StepView, event: Event) -> bool {
    match step {
        StepView::Take => event is Took || event is Failed,
        StepView::PlayStop { .. } => event is Done,
        StepView::ShowTranscribing { .. } => event is Done,
        StepView::Transcribe { .. } => event is Heard || event is Failed,
        StepView::Report { .. } => event is Done,
        StepView::ShowInjecting { .. } => event is Done,
        StepView::Locate { .. } => event is Located,
        StepView::Insert { .. } => event is Inserted || event is Failed,
        StepView::End(_) => false,
    }
}

/// The step after one, by what came of that and the settings at the time. An
/// event that does not answer the step changes nothing.
pub open spec fn step_after(step: StepView, event: Event, config: Config) -> StepView {
    match (step, event) {
        (StepView::Take, Event::Took { speech, engine, cut }) => if !speech {
            StepView::End(Outcome::NoSpeech)
        } else if !engine {
            StepView::End(Outcome::Loading)
        } else {
            StepView::PlayStop { cut }
        },
        (StepView::PlayStop { cut }, Event::Done) => StepView::ShowTranscribing { cut },
        (StepView::ShowTranscribing { cut }, Event::Done) => StepView::Transcribe {
            cut,
            prompt: prompt_of(config.dictionary.entries()),
        },
        (StepView::Transcribe { cut, .. }, Event::Heard { text: raw, inference_ms }) => {
            let text = polished(raw@, config.dictionary@);
            if text.len() > 0 {
                StepView::Report { cut, text, inference_ms }
            } else {
                StepView::End(Outcome::Nothing)
            }
        },
        (StepView::Report { cut, text, .. }, Event::Done) => StepView::ShowInjecting { cut, text },
        (StepView::ShowInjecting { cut, text }, Event::Done) => StepView::Locate { cut, text },
        (StepView::Locate { cut, text }, Event::Located { caret, app }) => StepView::Insert {
            cut,
            text: placed_text(text, caret),
            strategy: match app {
                Some(name) => strategy_of(config.profiles@, config.injection, name@),
                None => config.injection,
            },
        },
        (StepView::Insert { cut, .. }, Event::Inserted { total_ms }) => StepView::End(
            Outcome::Inserted { cut, total_ms },
        ),
        (StepView::Take, Event::Failed(e)) => StepView::End(Outcome::Failed(e)),
        (StepView::Transcribe { .. }, Event::Failed(e)) => StepView::End(Outcome::Failed(e)),
        (StepView::Insert { .. }, Event::Failed(e)) => StepView::End(Outcome::Failed(e)),
        _ => step,
    }
}

/// The step after `step`, by what came of it. Every utterance starts with
/// [`Step::Take`]. The settings are read anew at each step: the dictionary when
/// the engine is prompted and when it has answered, the strategy only when the
/// text is about to go in, because focus can move while the model is working.
pub fn next_step(step: Step, event: Event, config: &Config) -> (r: Step)
    ensures
        r@ == step_after(step@, event, *config),
        !answers(step@, event) ==> r@ == step@,
{
    match (step, event) {
        (Step::Take, Event::Took { speech, engine, cut }) => match after_capture(speech, engine) {
            Some(outcome) => Step::End(outcome),
            None => Step::PlayStop { cut },
        },
        (Step::PlayStop { cut }, Event::Done) => Step::ShowTranscribing { cut },
        (Step::ShowTranscribing { cut }, Event::Done) => Step::Transcribe {
            cut,
            prompt: config.dictionary.prompt(),
        },
        (Step::Transcribe { cut, .. }, Event::Heard { text: raw, inference_ms }) => {
            match after_transcription(Ok(raw), &config.dictionary) {
                Ok(text) => Step::Report { cut, text, inference_ms },
                Err(outcome) => Step::End(outcome),
            }
        },
        (Step::Report { cut, text, .. }, Event::Done) => Step::ShowInjecting { cut, text },
        (Step::ShowInjecting { cut, text }, Event::Done) => Step::Locate { cut, text },
        (Step::Locate { cut, text }, Event::Located { caret, app }) => {
            let strategy: Strategy = match &app {
                Some(name) => config.strategy_for(Some(name.as_str())),
                None => config.strategy_for(None),
            };
            Step::Insert { cut, text: placed(text.as_str(), caret), strategy }
        },
        (Step::Insert { cut, .. }, Event::Inserted { total_ms }) => Step::End(
            after_insertion(Ok(()), cut, total_ms),
        ),
        (Step::Take, Event::Failed(e)) => Step::End(Outcome::Failed(e)),
        (Step::Transcribe { .. }, Event::Failed(e)) => Step::End(Outcome::Failed(e)),
        (Step::Insert { cut, .. }, Event::Failed(e)) => Step::End(after_insertion(Err(e), cut, 0)),
        (step, _) => step,
    }
}

/// Whether steps follow each other from the end of a capture on: each is the one
/// after the step before, by an event that answers that and the settings at the
/// time.
pub open spec fn is_run(steps: Seq<StepView>, events: Seq<(Event, Config)>) -> bool {
    &&& steps.len() == events.len() + 1
    &&& steps[0] == StepView::Take
    &&& forall|i: int|
        #![trigger events[i]]
        0 <= i < events.len() ==> answers(steps[i], events[i].0) && steps[i + 1] == step_after(
            steps[i],
            events[i].0,
            events[i].1,
        )
}

/// The place of a step in an utterance that does not end before it.
pub open spec fn place_of(step: StepView) -> int {
    match step {
        StepView::Take => 0,
        StepView::PlayStop { .. } => 1,
        StepView::ShowTranscribing { .. } => 2,
        StepView::Transcribe { .. } => 3,
        StepView::Report { .. } => 4,
        StepView::ShowInjecting { .. } => 5,
        StepView::Locate { .. } => 6,
        StepView::Insert { .. } => 7,
        StepView::End(_) => 8,
    }
}

/// Every step of a run but the end stands at its place, and nothing follows the
/// end.
proof fn lemma_run(steps: Seq<StepView>, events: Seq<(Event, Config)>, i: int)
    requires
        is_run(steps, events),
        0 <= i < steps.len(),
    ensures
        steps[i] is End || place_of(steps[i]) == i,
        steps[i] is End ==> i == steps.len() - 1,
        i <= 8,
    decreases i,
{
    if i > 0 {
        lemma_run(steps, events, i - 1);
        assert(answers(steps[i - 1], events[i - 1].0));
    }
    if i < events.len() {
        assert(answers(steps[i], events[i].0));
    }
}

/// A dictation is reported once, and before anything is inserted, so that it is
/// kept even when the insertion fails or lands in the wrong place. What is
/// reported is the polished transcript, and what is inserted is that with the
/// caret's spaces, by the strategy for the app that has focus then.
pub proof fn law_reported_before_inserted(
    steps: Seq<StepView>,
    events: Seq<(Event, Config)>,
    i: int,
)
    requires
        is_run(steps, events),
        0 <= i < steps.len(),
        steps[i] is Insert,
    ensures
        i == 7,
        forall|k: int| 0 <= k < steps.len() ==> ((#[trigger] steps[k]) is Report <==> k == 4),
        ({
            let (raw, ms) = match events[3].0 {
                Event::Heard { text, inference_ms } => (text@, inference_ms),
                _ => (Seq::empty(), 0),
            };
            &&& events[3].0 is Heard
            &&& steps[4]->Report_text == polished(raw, events[3].1.dictionary@)
            &&& steps[4]->Report_inference_ms == ms
        }),
        events[6].0 matches Event::Located { caret, app } && {
            &&& steps[i]->Insert_text == placed_text(steps[4]->Report_text, caret)
            &&& steps[i]->strategy == match app {
                Some(name) => strategy_of(events[6].1.profiles@, events[6].1.injection, name@),
                None => events[6].1.injection,
            }
        },
{
    assert forall|k: int| 0 <= k < steps.len() implies ((#[trigger] steps[k]) is Report <==> k
        == 4) by {
        lemma_run(steps, events, k);
        if k == 4 {
            lemma_run(steps, events, i);
        }
    }
    lemma_run(steps, events, i);
    lemma_run(steps, events, 3);
    lemma_run(steps, events, 4);
    lemma_run(steps, events, 5);
    lemma_run(steps, events, 6);
    assert(answers(steps[3], events[3].0));
    assert(answers(steps[4], events[4].0));
    assert(answers(steps[5], events[5].0));
    assert(answers(steps[6], events[6].0));
}

/// The stop cue plays only for an utterance that goes on to be transcribed: there
/// was speech and there is an engine, and transcribing follows.
pub proof fn law_the_stop_cue_means_transcription(
    steps: Seq<StepView>,
    events: Seq<(Event, Config)>,
    i: int,
)
    requires
        is_run(steps, events),
        0 <= i < steps.len(),
        steps[i] is PlayStop,
    ensures
        i == 1,
        events[0].0 matches Event::Took { speech, engine, .. } && speech && engine,
        i + 1 < steps.len() ==> steps[i + 1] is ShowTranscribing,
        i + 2 < steps.len() ==> steps[i + 2] is Transcribe,
{
    lemma_run(steps, events, i);
    assert(answers(steps[0], events[0].0));
    if i + 1 < steps.len() {
        assert(answers(steps[i], events[i].0));
    }
    if i + 2 < steps.len() {
        assert(answers(steps[i + 1], events[i + 1].0));
    }
}

/// Every utterance ends, and with the end nothing more is done: a run has nine
/// steps at most, and only its last can be the end.
pub proof fn law_every_utterance_ends(steps: Seq<StepView>, events: Seq<(Event, Config)>)
    requires
        is_run(steps, events),
    ensures
        steps.len() <= 9,
        forall|i: int| 0 <= i < steps.len() && (#[trigger] steps[i]) is End ==> i == steps.len() - 1,
        steps.len() == 9 ==> steps.last() is End,
{
    lemma_run(steps, events, steps.len() - 1);
    assert forall|i: int| 0 <= i < steps.len() && (#[trigger] steps[i]) is End implies i
        == steps.len() - 1 by {
        lemma_run(steps, events, i);
    }
}

/// An utterance carries on what it began with: the engine is prompted with the
/// dictionary of that moment, what is shown and placed is what was reported, and
/// whether the capture was cut is said of every step as it was when the microphone
/// closed.
pub proof fn law_steps_carry_on(steps: Seq<StepView>, events: Seq<(Event, Config)>, i: int)
    requires
        is_run(steps, events),
        0 < i < steps.len(),
        !(steps[i] is End),
    ensures
        events[0].0 is Took,
        steps[i] matches StepView::PlayStop { cut } ==> cut == events[0].0->Took_cut,
        steps[i] matches StepView::ShowTranscribing { cut } ==> cut == events[0].0->Took_cut,
        steps[i] matches StepView::Transcribe { cut, prompt } ==> cut == events[0].0->Took_cut && prompt
            == prompt_of(events[2].1.dictionary.entries()),
        steps[i] matches StepView::Report { cut, .. } ==> cut == events[0].0->Took_cut,
        steps[i] matches StepView::ShowInjecting { cut, text } ==> cut == events[0].0->Took_cut && text
            == steps[4]->Report_text,
        steps[i] matches StepView::Locate { cut, text } ==> cut == events[0].0->Took_cut && text
            == steps[4]->Report_text,
        steps[i] matches StepView::Insert { cut, .. } ==> cut == events[0].0->Took_cut,
    decreases i,
{
    lemma_run(steps, events, i);
    lemma_run(steps, events, i - 1);
    assert(answers(steps[i - 1], events[i - 1].0));
    if i > 1 {
        law_steps_carry_on(steps, events, i - 1);
    }
}

/// Every utterance ends as it went: without speech, while the model was loading,
/// with nothing left of what was heard, with the text inserted, or with what is
/// said of the step that failed.
pub proof fn law_an_utterance_ends_as_it_went(
    steps: Seq<StepView>,
    events: Seq<(Event, Config)>,
    n: int,
)
    requires
        is_run(steps, events),
        0 < n < steps.len(),
        steps[n] is End,
    ensures
        n == 1 || n == 4 || n == 8,
        match events[n - 1].0 {
            Event::Took { speech, engine, .. } => n == 1 && !(speech && engine) && steps[n]
                == StepView::End(
                if speech {
                    Outcome::Loading
                } else {
                    Outcome::NoSpeech
                },
            ),
            Event::Heard { text, .. } => n == 4 && polished(
                text@,
                events[n - 1].1.dictionary@,
            ).len() == 0 && steps[n] == StepView::End(Outcome::Nothing),
            Event::Inserted { total_ms } => n == 8 && steps[n] == StepView::End(
                Outcome::Inserted { cut: events[0].0->Took_cut, total_ms },
            ),
            Event::Failed(e) => steps[n] == StepView::End(Outcome::Failed(e)),
            _ => false,
        },
{
    lemma_run(steps, events, n - 1);
    assert(answers(steps[n - 1], events[n - 1].0));
    if n > 1 {
        law_steps_carry_on(steps, events, n - 1);
    }
}

// ---------------------------------------------------------------------------
// What is heard and shown
// ---------------------------------------------------------------------------

/// What is said of a dictation that worked: how long it took, and where it was
/// cut, if it was.
pub open spec fn done_detail(cut: bool, total_ms: u64) -> Seq<char> {
    let took = decimal(total_ms as nat) + " ms"@;
    if cut {
        "cut at "@ + decimal((MAX_SECONDS / 60) as nat) + ":"@ + zero_padded(
            (MAX_SECONDS % 60) as nat,
            2,
        ) + " \u{B7} "@ + took
    } else {
        took
    }
}

/// How long a dictation took can be read off, and a cut one says so in front of
/// the same.
pub proof fn law_the_time_taken_is_said(total_ms: u64)
    ensures
        done_detail(false, total_ms).len() > 3,
        decimal_value(
            done_detail(false, total_ms).take(done_detail(false, total_ms).len() - 3),
        ) == Some(total_ms as nat),
        done_detail(false, total_ms).skip(done_detail(false, total_ms).len() - 3) == seq![
            ' ',
            'm',
            's',
        ],
        done_detail(true, total_ms) == "cut at 5:00 \u{B7} "@ + done_detail(false, total_ms),
{
    reveal_strlit(" ms");
    reveal_strlit("cut at ");
    reveal_strlit(":");
    reveal_strlit(" \u{B7} ");
    reveal_strlit("cut at 5:00 \u{B7} ");
    law_numbers_read_back(total_ms as nat, 0);
    law_numbers_read_back(0, 2);
    reveal_with_fuel(decimal, 2);
    let d = done_detail(false, total_ms);
    assert(d.take(d.len() - 3) == decimal(total_ms as nat));
    assert(d.skip(d.len() - 3) == " ms"@);
    assert(zero_padded(0, 2) == seq!['0', '0']);
    assert(decimal(5) == seq!['5']);
    assert(done_detail(true, total_ms) == "cut at 5:00 \u{B7} "@ + d);
}

fn done_detail_of(cut: bool, total_ms: u64) -> (r: String)
    ensures
        r@ == done_detail(cut, total_ms),
{
    let mut took: Vec<char> = decimal_of(total_ms);
    append_str(&mut took, " ms");
    if !cut {
        return string_of(took.as_slice());
    }
    let mut detail: Vec<char> = chars_of("cut at ");
    append(&mut detail, decimal_of((MAX_SECONDS / 60) as u64).as_slice());
    append_str(&mut detail, ":");
    append(&mut detail, zero_padded_of((MAX_SECONDS % 60) as u64, 2).as_slice());
    append_str(&mut detail, " \u{B7} ");
    append(&mut detail, took.as_slice());
    string_of(detail.as_slice())
}

/// What is heard and shown of an utterance's end.
#[derive(Debug, Clone)]
pub struct Report {
    /// The cue that is played.
    pub cue: Option<Tone>,
    pub status: StatusEvent,
}

/// The state that an utterance ends in.
pub open spec fn end_state(outcome: Outcome) -> State {
    match outcome {
        Outcome::Loading => State::Error,
        Outcome::Failed(_) => State::Error,
        _ => State::Idle,
    }
}

/// What is shown of an utterance's end.
pub open spec fn end_detail(outcome: Outcome) -> Seq<char> {
    match outcome {
        Outcome::NoSpeech => "no speech detected"@,
        Outcome::Loading => "model is still loading; try again in a moment"@,
        Outcome::Failed(e) => e@,
        Outcome::Nothing => "nothing to insert"@,
        Outcome::Inserted { cut, total_ms } => done_detail(cut, total_ms),
    }
}

/// The cue that an utterance ends with. One that inserted nothing, whether
/// through an error or a clip with no speech in it, is heard: the overlay is not
/// a surface a screen reader can announce.
pub open spec fn end_cue(outcome: Outcome) -> Option<Tone> {
    match outcome {
        Outcome::Inserted { .. } => None,
        _ => Some(Tone::Failed),
    }
}

/// What is heard and shown of an utterance's end.
pub fn report(outcome: Outcome) -> (r: Report)
    ensures
        r.cue == end_cue(outcome),
        r.status.state == end_state(outcome),
        r.status.detail matches Some(d) && d@ == end_detail(outcome),
        !r.status.latched,
{
    match outcome {
        Outcome::NoSpeech => failed(State::Idle, "no speech detected".to_string()),
        Outcome::Loading => failed(
            State::Error,
            "model is still loading; try again in a moment".to_string(),
        ),
        Outcome::Failed(e) => failed(State::Error, e),
        Outcome::Nothing => failed(State::Idle, "nothing to insert".to_string()),
        Outcome::Inserted { cut, total_ms } => Report {
            cue: None,
            status: StatusEvent {
                state: State::Idle,
                detail: Some(done_detail_of(cut, total_ms)),
                latched: false,
            },
        },
    }
}

fn failed(state: State, detail: String) -> (r: Report)
    ensures
        r == (Report {
            cue: Some(Tone::Failed),
            status: StatusEvent { state, detail: Some(detail), latched: false },
        }),
{
    Report {
        cue: Some(Tone::Failed),
        status: StatusEvent { state, detail: Some(detail), latched: false },
    }
}

/// What is shown as a capture starts: whether the session is latched, so the HUD
/// can offer a way out of it.
pub fn capturing(mode: CaptureMode) -> (r: StatusEvent)
    ensures
        r == (StatusEvent {
            state: State::Capturing,
            detail: None,
            latched: mode == CaptureMode::Latch,
        }),
{
    StatusEvent {
        state: State::Capturing,
        detail: None,
        latched: match mode {
            CaptureMode::Latch => true,
            CaptureMode::Hold => false,
        },
    }
}

/// What is shown between.
pub fn working(state: State) -> (r: StatusEvent)
    ensures
        r == (StatusEvent { state, detail: None, latched: false }),
{
    StatusEvent { state, detail: None, latched: false }
}

/// The cue that is played, by whether cues are on.
pub fn cue(tone: Tone, audio_feedback: bool) -> (r: Option<Tone>)
    ensures
        r == (if audio_feedback {
            Some(tone)
        } else {
            None
        }),
{
    if audio_feedback {
        Some(tone)
    } else {
        None
    }
}

/// A dictation that inserted nothing never sounds like one that worked, and every
/// utterance ends idle or in an error that is explained.
pub proof fn law_every_failure_is_heard(outcome: Outcome)
    ensures
        end_cue(outcome) == Some(Tone::Failed) <==> !(outcome is Inserted),
        end_state(outcome) == State::Idle || end_state(outcome) == State::Error,
        end_state(outcome) == State::Error <==> outcome is Loading || outcome is Failed,
{
}

} // verus!
