//! Cooee, push-to-talk local dictation for Windows: the logic.
//!
//! Hold a chord, speak, release, and clean text lands in whatever app has focus.
//! This library decides; microphone, keyboard, engine and windows belong to the
//! application around it.

pub mod asr;
pub mod audio;
pub mod calendar;
pub mod caret;
pub mod config;
pub mod dictionary;
pub mod focus;
pub mod history;
pub mod hotkey;
pub mod inject;
pub mod json;
pub mod pipeline;
pub mod polish;
pub mod text;
pub mod tone;
pub mod tray;
pub mod vad;

use crate::asr::{text_of, EngineInfo};
use crate::config::{below, config_dir, config_path, Config};
use crate::history::History;
use vstd::prelude::*;

verus! {

/// Everything the app holds on this machine, and where.
///
/// That nothing leaves the machine is unfalsifiable from the outside. Naming
/// every file the app writes, and offering to hand them over or delete them, is
/// the part a user can check.
#[derive(Debug, Clone)]
pub struct DataReport {
    pub config_dir: Option<String>,
    pub config_path: Option<String>,
    pub history_path: Option<String>,
    pub history_entries: usize,
    pub history_bytes: Option<u64>,
    /// The model actually being used, if any. Local file or folder.
    pub model_path: Option<String>,
    /// Engine currently loaded, so the panel does not have to guess.
    pub engine: Option<String>,
}

fn copy_text(s: &Option<String>) -> (r: Option<String>)
    ensures
        text_of(r) == text_of(*s),
{
    match s {
        Some(s) => Some(s.clone()),
        None => None,
    }
}

/// Everything the app holds on this machine, and where. `base` is the user's
/// configuration directory, and `history_bytes` the length of the history file.
pub fn data_report(
    config: &Config,
    history: &History,
    info: &EngineInfo,
    base: Option<&str>,
    separator: char,
    history_bytes: Option<u64>,
) -> (r: DataReport)
    ensures
        text_of(r.config_dir) == match base {
            Some(dir) => Some(below(dir@, separator, "cooee"@)),
            None => None,
        },
        text_of(r.config_path) == match base {
            Some(dir) => Some(
                below(below(dir@, separator, "cooee"@), separator, "config.json"@),
            ),
            None => None,
        },
        text_of(r.history_path) == history.place(),
        r.history_entries == history@.len(),
        r.history_bytes == history_bytes,
        text_of(r.model_path) == text_of(config.model_path),
        text_of(r.engine) == text_of(info.engine),
{
    let history_path: Option<String> = match history.path() {
        Some(p) => Some(p.clone()),
        None => None,
    };
    DataReport {
        config_dir: config_dir(base, separator),
        config_path: config_path(base, separator),
        history_path,
        history_entries: history.len(),
        history_bytes,
        model_path: copy_text(&config.model_path),
        engine: copy_text(&info.engine),
    }
}

} // verus!
