//! The one seam that keeps the rest of the app independent of how it
//! transcribes: which engine a model takes, and what the settings window is told
//! about it.

pub mod mock;
pub mod onnx;
pub mod whisper_cpp;

use crate::text::{append_str, chars_of, string_of};
use vstd::prelude::*;

verus! {

/// Audio handed to an engine is always 16 kHz, mono, in [-1.0, 1.0].
pub const SAMPLE_RATE: u32 = 16_000;

/// What an engine heard.
#[derive(Debug, Clone)]
pub struct Transcript {
    pub text: String,
    /// Wall-clock time the engine spent, for the latency HUD.
    pub inference_ms: u64,
}

impl Default for Transcript {
    fn default() -> (r: Transcript)
        ensures
            r.text@ == Seq::<char>::empty(),
            r.inference_ms == 0,
    {
        Transcript { text: String::new(), inference_ms: 0 }
    }
}

/// What the settings window shows about the engine. Pushed as an `engine` event
/// on every change and available on demand.
#[derive(Debug, Clone)]
pub struct EngineInfo {
    pub state: EngineState,
    /// Name of the engine currently answering, if any.
    pub engine: Option<String>,
    /// The model being loaded, loaded, or that failed to load.
    pub model: Option<String>,
    pub error: Option<String>,
}

#[derive(Debug, Clone, Copy, PartialEq, Eq, Structural)]
pub enum EngineState {
    Loading,
    Ready,
    Failed,
}

/// The engines there are.
#[derive(Debug, Clone, Copy, PartialEq, Eq, Structural)]
pub enum EngineKind {
    Mock,
    Onnx,
    Whisper,
}

/// Which engine a model takes, by whether there is a model, whether it is a
/// directory, and which engines this build has. No model means the mock engine,
/// by design; a model without an engine is an error.
pub open spec fn engine_for(model: bool, is_dir: bool, onnx: bool, whisper: bool) -> Option<
    EngineKind,
> {
    if !model {
        Some(EngineKind::Mock)
    } else if is_dir {
        if onnx {
            Some(EngineKind::Onnx)
        } else {
            None
        }
    } else if whisper {
        Some(EngineKind::Whisper)
    } else {
        None
    }
}

/// Why a model cannot be used by a build without its engine.
pub open spec fn no_engine_message(model: Seq<char>, is_dir: bool) -> Seq<char> {
    if is_dir {
        "this build has no ONNX engine (built without the `onnx` feature), so the model folder "@
            + model + " cannot be used"@
    } else {
        "this build has no whisper engine (built without the `whisper` feature), so "@ + model
            + " cannot be used"@
    }
}

/// Which engine a model takes. A directory is an ONNX export (encoder on the
/// NPU); a file is a whisper.cpp GGML model. A model that cannot be loaded is an
/// error the UI should show, not something to paper over with mock output.
pub fn choose_engine(model: Option<&str>, is_dir: bool, onnx: bool, whisper: bool) -> (r: Result<
    EngineKind,
    String,
>)
    ensures
        match engine_for(model is Some, is_dir, onnx, whisper) {
            Some(kind) => r == Ok::<EngineKind, String>(kind),
            None => r matches Err(e) && e@ == no_engine_message(model->0@, is_dir),
        },
{
    let path: &str = match model {
        Some(path) => path,
        None => {
            return Ok(EngineKind::Mock);
        },
    };
    if is_dir {
        if onnx {
            return Ok(EngineKind::Onnx);
        }
        let mut e: Vec<char> = chars_of(
            "this build has no ONNX engine (built without the `onnx` feature), so the model folder ",
        );
        append_str(&mut e, path);
        append_str(&mut e, " cannot be used");
        return Err(string_of(e.as_slice()));
    }
    if whisper {
        return Ok(EngineKind::Whisper);
    }
    let mut e: Vec<char> = chars_of(
        "this build has no whisper engine (built without the `whisper` feature), so ",
    );
    append_str(&mut e, path);
    append_str(&mut e, " cannot be used");
    Err(string_of(e.as_slice()))
}

/// How many threads an engine's CPU work gets where the settings do not say.
pub const DEFAULT_THREADS: usize = 4;

/// How many threads an engine's CPU work gets: what the settings say, else all
/// cores but one up to four, else two; at least one. The cap is low because
/// workers that spin-wait collapse on a busy machine.
pub open spec fn thread_count_of(threads: Option<usize>, cores: Option<usize>) -> int {
    let n = match (threads, cores) {
        (Some(t), _) => t as int,
        (None, Some(c)) => if c - 1 < DEFAULT_THREADS {
            c - 1
        } else {
            DEFAULT_THREADS as int
        },
        (None, None) => 2,
    };
    if n < 1 {
        1
    } else {
        n
    }
}

/// Without a setting, an engine gets at least one thread and never more than
/// four, however many cores there are.
pub proof fn law_default_threads_are_capped(cores: Option<usize>)
    ensures
        1 <= thread_count_of(None, cores) <= DEFAULT_THREADS,
{
}

/// A setting of at least one thread is taken as it is; without one, one core is
/// left alone as far as four threads go.
pub proof fn law_threads_follow_the_settings(threads: usize, cores: usize)
    ensures
        threads >= 1 ==> thread_count_of(Some(threads), Some(cores)) == threads,
        threads >= 1 ==> thread_count_of(Some(threads), None) == threads,
        thread_count_of(Some(0), Some(cores)) == 1 && thread_count_of(Some(0), None) == 1,
        2 <= cores <= 5 ==> thread_count_of(None, Some(cores)) == cores - 1,
        cores > 5 ==> thread_count_of(None, Some(cores)) == 4,
        cores < 2 ==> thread_count_of(None, Some(cores)) == 1,
        thread_count_of(None, None) == 2,
{
}

/// How many threads an engine's CPU work gets.
pub fn thread_count(threads: Option<usize>, cores: Option<usize>) -> (r: usize)
    ensures
        r == thread_count_of(threads, cores),
{
    let n: usize = match threads {
        Some(t) => t,
        None => match cores {
            Some(c) => {
                let spare: usize = c.saturating_sub(1);
                if spare < DEFAULT_THREADS {
                    spare
                } else {
                    DEFAULT_THREADS
                }
            },
            None => 2,
        },
    };
    if n < 1 {
        1
    } else {
        n
    }
}

// ---------------------------------------------------------------------------
// Loading
// ---------------------------------------------------------------------------

/// What becomes of the engine in use when a model has been loaded, or not.
#[derive(Debug, Clone, Copy, PartialEq, Eq, Structural)]
pub enum SlotChange {
    /// The new engine takes its place.
    Replace,
    /// The one in use stays.
    Keep,
    /// There was none: the mock engine is installed, so that the rest of the app
    /// is still exercisable.
    InstallMock,
}

/// What a string that may be missing says.
pub open spec fn text_of(s: Option<String>) -> Option<Seq<char>> {
    match s {
        Some(s) => Some(s@),
        None => None,
    }
}

/// What the settings window shows while a model is loading. Dictation keeps
/// working on the previous engine until the new one is ready.
pub fn loading_info(model: Option<String>) -> (r: EngineInfo)
    ensures
        r == (EngineInfo { state: EngineState::Loading, engine: None, model, error: None }),
{
    EngineInfo { state: EngineState::Loading, engine: None, model, error: None }
}

/// What becomes of the engine in use, and what the settings window shows, once
/// loading `model` has ended: `built` is the new engine's name or the error, and
/// `current` the name of the engine in use. On failure the engine in use stays,
/// or the mock engine comes where there is none, and the error is shown.
pub fn loaded(model: Option<String>, built: Result<String, String>, current: Option<String>) -> (r:
    (EngineInfo, SlotChange))
    ensures
        r.0.model == model,
        match built {
            Ok(name) => {
                &&& r.0.state == EngineState::Ready
                &&& r.0.engine == Some(name)
                &&& r.0.error is None
                &&& r.1 == SlotChange::Replace
            },
            Err(e) => {
                &&& r.0.state == EngineState::Failed
                &&& r.0.error == Some(e)
                &&& match current {
                    Some(name) => r.0.engine == Some(name) && r.1 == SlotChange::Keep,
                    None => text_of(r.0.engine) == Some("mock"@) && r.1 == SlotChange::InstallMock,
                }
            },
        },
{
    match built {
        Ok(name) => (
            EngineInfo { state: EngineState::Ready, engine: Some(name), model, error: None },
            SlotChange::Replace,
        ),
        Err(e) => match current {
            Some(name) => (
                EngineInfo { state: EngineState::Failed, engine: Some(name), model, error: Some(e) },
                SlotChange::Keep,
            ),
            None => {
                let name: String = mock::MockEngine.name().to_string();
                (
                    EngineInfo {
                        state: EngineState::Failed,
                        engine: Some(name),
                        model,
                        error: Some(e),
                    },
                    SlotChange::InstallMock,
                )
            },
        },
    }
}

} // verus!
