//! Persisted settings. They live in `config.json` in the `cooee` folder of the
//! user's configuration directory.

pub use crate::dictionary::Dictionary;

use crate::hotkey::{vk, Hotkey};
use crate::inject::Strategy;
use crate::json::{array, contains_key, parse, parsed, remove, tree, Json};
use crate::pipeline::CaptureMode;
use crate::text::{append_str, ascii_small, chars_of, lower_text, same, string_of};
use vstd::prelude::*;

verus! {

/// How text gets into one app.
#[derive(Debug, Clone)]
pub struct Profile {
    /// The app's executable, in whatever case.
    pub exe: String,
    pub strategy: Strategy,
}

#[derive(Debug, Clone)]
pub struct Config {
    /// Keys held together to dictate. Defaults to Ctrl+Win.
    pub hotkey: Hotkey,
    /// Whether the keys are held or tapped.
    pub capture_mode: CaptureMode,
    /// Path to a model: a file for whisper.cpp, a folder for ONNX. `None` means
    /// the mock engine.
    pub model_path: Option<String>,
    pub injection: Strategy,
    /// Apps that want another strategy.
    pub profiles: Vec<Profile>,
    pub dictionary: Dictionary,
    /// Play a short tone on capture start/stop.
    pub audio_feedback: bool,
    /// Threads for whisper inference. `None` picks a few.
    ///
    /// More is not always faster: on a busy machine, oversubscribing makes
    /// ggml's threads fight the scheduler and latency gets *worse*.
    pub asr_threads: Option<usize>,
}

/// Whether settings are those of a fresh install.
pub open spec fn is_default(c: Config) -> bool {
    &&& c.hotkey@ == seq![vk::CONTROL, vk::LWIN]
    &&& c.capture_mode == CaptureMode::Hold
    &&& c.model_path is None
    &&& c.injection == Strategy::Auto
    &&& c.profiles@.len() == 0
    &&& c.dictionary@ == Map::<Seq<char>, Seq<char>>::empty()
    &&& c.audio_feedback
    &&& c.asr_threads is None
}

impl Default for Config {
    fn default() -> (r: Config)
        ensures
            is_default(r),
    {
        Config {
            hotkey: Hotkey::default(),
            capture_mode: CaptureMode::default(),
            model_path: None,
            injection: Strategy::default(),
            profiles: Vec::new(),
            dictionary: Dictionary::default(),
            audio_feedback: true,
            asr_threads: None,
        }
    }
}

/// Whether a profile is for an app, whose name is in lower case.
pub open spec fn is_for(profile: Profile, app: Seq<char>) -> bool {
    lower_text(profile.exe@) == app
}

/// The strategy for an app: that of the first profile for it, or the global one.
pub open spec fn strategy_of(profiles: Seq<Profile>, global: Strategy, app: Seq<char>) -> Strategy
    decreases profiles.len(),
{
    if profiles.len() == 0 {
        global
    } else if is_for(profiles[0], app) {
        profiles[0].strategy
    } else {
        strategy_of(profiles.skip(1), global, app)
    }
}

/// Whether a character separates names in a path on some system.
pub open spec fn is_separator(c: char) -> bool {
    c == '/' || c == '\\'
}

/// The stretches of a path between separators, empty ones too.
pub open spec fn stretches(path: Seq<char>) -> Seq<Seq<char>>
    decreases path.len(),
{
    if path.len() == 0 {
        seq![Seq::empty()]
    } else {
        let before = stretches(path.drop_last());
        if is_separator(path.last()) {
            before.push(Seq::empty())
        } else {
            before.drop_last().push(before.last().push(path.last()))
        }
    }
}

/// A name, with the letter of a drive in small.
pub open spec fn small_drive(name: Seq<char>) -> Seq<char> {
    if name.len() > 1 && name[1] == ':' {
        name.update(0, ascii_small(name[0]))
    } else {
        name
    }
}

/// Whether a stretch of a path is a name: neither empty nor a dot.
pub open spec fn is_name(part: Seq<char>) -> bool {
    part.len() > 0 && !(part.len() == 1 && part[0] == '.')
}

/// The names among some stretches.
pub open spec fn named(parts: Seq<Seq<char>>) -> Seq<Seq<char>>
    decreases parts.len(),
{
    if parts.len() == 0 {
        Seq::empty()
    } else if is_name(parts.last()) {
        named(parts.drop_last()).push(small_drive(parts.last()))
    } else {
        named(parts.drop_last())
    }
}

/// The names in a path.
pub open spec fn names(path: Seq<char>) -> Seq<Seq<char>> {
    named(stretches(path))
}

/// Whether a path is read alike on every system: without backslashes and colons,
/// and without two slashes in front.
pub open spec fn is_portable(path: Seq<char>) -> bool {
    &&& !path.contains('\\')
    &&& !path.contains(':')
    &&& !(path.len() > 1 && path[0] == '/' && path[1] == '/')
}

/// Whether a path starts at the root.
pub open spec fn is_rooted(path: Seq<char>) -> bool {
    path.len() > 0 && path[0] == '/'
}

/// Whether a path starts with a dot for the current directory, which counts.
pub open spec fn is_dotted(path: Seq<char>) -> bool {
    path.len() > 0 && path[0] == '.' && (path.len() > 1 ==> path[1] == '/')
}

/// Whether `same` can be the answer to whether two paths are the same, by their
/// names: a path is the same as itself, paths with other names are not the same,
/// and where both are read alike on every system the names and how the paths
/// start decide.
pub open spec fn names_answer(a: Seq<char>, b: Seq<char>, same: bool) -> bool {
    &&& a == b ==> same
    &&& names(a) != names(b) ==> !same
    &&& is_portable(a) && is_portable(b) ==> same == (is_rooted(a) == is_rooted(b) && is_dotted(a)
        == is_dotted(b) && names(a) == names(b))
}

/// Whether `==` on `std::path::Path` answers `same` for two paths on some system.
pub uninterp spec fn system_answers(a: Seq<char>, b: Seq<char>, same: bool) -> bool;

/// Whether `same` can be the answer to whether two paths are the same.
pub open spec fn paths_answer(a: Seq<char>, b: Seq<char>, same: bool) -> bool {
    system_answers(a, b, same) && names_answer(a, b, same)
}

/// `==` on `std::path::Path`, which compares paths by their components: repeated
/// separators, a trailing one and `.` behind a name or the root do not count, a
/// `.` in front does, and the letter of a drive counts in either case. Whether a
/// backslash separates, and what is a drive or a share, depends on the system:
/// what is stated holds on Unix and on Windows, and of everything else only that
/// it is a system's answer for these two paths.
#[verifier::external_body]
fn same_path(a: &str, b: &str) -> (r: bool)
    ensures
        system_answers(a@, b@, r),
        names_answer(a@, b@, r),
{
    std::path::Path::new(a) == std::path::Path::new(b)
}

/// A slash behind a path adds no name.
pub proof fn law_a_trailing_slash_adds_nothing(path: Seq<char>)
    ensures
        names(path.push('/')) == names(path),
{
    assert(path.push('/').drop_last() == path);
    let parts = stretches(path);
    assert(parts.push(Seq::empty()).drop_last() == parts);
}

/// Whether `same` can be the answer to whether two settings have the same model.
pub open spec fn models_answer(a: Option<String>, b: Option<String>, same: bool) -> bool {
    match (a, b) {
        (Some(x), Some(y)) => paths_answer(x@, y@, same),
        (None, None) => same,
        _ => !same,
    }
}

/// A model stays the same where its path does, and where there is none before and
/// after; one that comes or goes, or has another name, is another.
pub proof fn law_the_same_path_is_the_same_model(a: Option<String>, b: Option<String>, same: bool)
    requires
        models_answer(a, b, same),
    ensures
        a is None && b is None ==> same,
        a is Some != b is Some ==> !same,
        a is Some && b is Some && a->0@ == b->0@ ==> same,
        a is Some && b is Some && names(a->0@) != names(b->0@) ==> !same,
{
}

fn same_model(a: &Option<String>, b: &Option<String>) -> (r: bool)
    ensures
        models_answer(*a, *b, r),
{
    match (a, b) {
        (Some(x), Some(y)) => same_path(x.as_str(), y.as_str()),
        (None, None) => true,
        _ => false,
    }
}

/// Whether the model is loaded anew, by whether the model and the number of
/// threads stay the same.
pub fn reloads(same_model: bool, same_threads: bool) -> (r: bool)
    ensures
        r == !(same_model && same_threads),
{
    !same_model || !same_threads
}

impl Config {
    /// How text gets into an app, by the lowercased name of its executable. An app
    /// that is unknown, or has no profile, gets the global strategy.
    pub fn strategy_for(&self, app: Option<&str>) -> (r: Strategy)
        ensures
            r == match app {
                Some(name) => strategy_of(self.profiles@, self.injection, name@),
                None => self.injection,
            },
    {
        match app {
            Some(name) => {
                let wanted: Vec<char> = chars_of(name);
                let ghost all = self.profiles@;
                let mut i: usize = 0;
                assert(all.skip(0) == all);
                while i < self.profiles.len()
                    invariant
                        i <= self.profiles.len(),
                        all == self.profiles@,
                        wanted@ == name@,
                        app == Some(name),
                        strategy_of(all, self.injection, name@) == strategy_of(
                            all.skip(i as int),
                            self.injection,
                            name@,
                        ),
                    decreases self.profiles.len() - i,
                {
                    let exe: String = self.profiles[i].exe.as_str().to_lowercase();
                    proof {
                        assert(all.skip(i as int)[0] == all[i as int]);
                        assert(all.skip(i as int).skip(1) == all.skip(i as int + 1));
                    }
                    if same(chars_of(exe.as_str()).as_slice(), wanted.as_slice()) {
                        return self.profiles[i].strategy;
                    }
                    i += 1;
                }
                self.injection
            },
            None => self.injection,
        }
    }

    /// Whether other settings take another engine, so that the model is loaded
    /// anew.
    pub fn needs_reload(&self, new: &Config) -> (r: bool)
        ensures
            exists|same: bool| #[trigger]
                models_answer(self.model_path, new.model_path, same) && r == !(same
                    && self.asr_threads == new.asr_threads),
    {
        let same: bool = same_model(&self.model_path, &new.model_path);
        let threads: bool = self.asr_threads == new.asr_threads;
        assert(models_answer(self.model_path, new.model_path, same));
        reloads(same, threads)
    }

    /// The settings that a file held. Where it is missing or corrupt they are the
    /// defaults: a dictation app that won't launch is worse than one with reset
    /// settings.
    pub fn load(stored: Option<Config>) -> (r: Config)
        ensures
            match stored {
                Some(config) => r == config,
                None => is_default(r),
            },
    {
        match stored {
            Some(config) => config,
            None => Config::default(),
        }
    }
}

/// With no profiles every app gets the global strategy.
pub proof fn law_no_profiles_no_change(global: Strategy, app: Seq<char>)
    ensures
        strategy_of(Seq::empty(), global, app) == global,
{
}

/// A profile overrides the global strategy for its own app, and for no other.
pub proof fn law_a_profile_is_for_one_app(
    before: Seq<Profile>,
    profile: Profile,
    after: Seq<Profile>,
    global: Strategy,
    app: Seq<char>,
)
    requires
        forall|i: int| 0 <= i < before.len() ==> !is_for(#[trigger] before[i], app),
    ensures
        is_for(profile, app) ==> strategy_of(before.push(profile) + after, global, app)
            == profile.strategy,
        !is_for(profile, app) ==> strategy_of(before.push(profile) + after, global, app)
            == strategy_of(after, global, app),
    decreases before.len(),
{
    let all = before.push(profile) + after;
    if before.len() == 0 {
        assert(all[0] == profile);
        assert(all.skip(1) == after);
    } else {
        assert(all[0] == before[0]);
        let rest = before.skip(1);
        assert(all.skip(1) == rest.push(profile) + after);
        assert forall|i: int| 0 <= i < rest.len() implies !is_for(#[trigger] rest[i], app) by {
            assert(rest[i] == before[i + 1]);
        }
        law_a_profile_is_for_one_app(rest, profile, after, global, app);
    }
}

/// The first profile whose executable is the app's, in whatever case, decides;
/// where there is none, the global strategy does.
pub proof fn law_the_first_profile_decides(
    profiles: Seq<Profile>,
    global: Strategy,
    app: Seq<char>,
    i: int,
)
    requires
        0 <= i <= profiles.len(),
        forall|j: int| 0 <= j < i ==> lower_text((#[trigger] profiles[j]).exe@) != app,
        i < profiles.len() ==> lower_text(profiles[i].exe@) == app,
    ensures
        strategy_of(profiles, global, app) == (if i < profiles.len() {
            profiles[i].strategy
        } else {
            global
        }),
    decreases profiles.len(),
{
    if i > 0 {
        let rest = profiles.skip(1);
        assert(lower_text(profiles[0].exe@) != app);
        assert forall|j: int| 0 <= j < i - 1 implies lower_text((#[trigger] rest[j]).exe@) != app by {
            assert(rest[j] == profiles[j + 1]);
        }
        if i < profiles.len() {
            assert(rest[i - 1] == profiles[i]);
        }
        law_the_first_profile_decides(rest, global, app, i - 1);
    }
}

// ---------------------------------------------------------------------------
// The file
// ---------------------------------------------------------------------------

/// An older settings file as the current one: a single `hotkey_vk` becomes a
/// one-key `hotkey`, unless there is a `hotkey` already.
pub open spec fn migrated(v: Json) -> Json {
    match v {
        Json::Object(m) => if m.contains_key("hotkey_vk"@) {
            let rest = m.remove("hotkey_vk"@);
            if rest.contains_key("hotkey"@) {
                Json::Object(rest)
            } else {
                Json::Object(
                    rest.insert("hotkey"@, Json::Array(seq![m["hotkey_vk"@]])),
                )
            }
        } else {
            v
        },
        _ => v,
    }
}

/// Upgrades older on-disk shapes in place.
///
/// 0.1.0 stored a single `hotkey_vk`; chords replaced it with a `hotkey` array. A
/// one-key array behaves exactly as the old field did.
pub fn migrate(value: &mut serde_json::Value)
    ensures
        tree(*final(value)) == migrated(tree(*old(value))),
{
    proof {
        reveal_strlit("hotkey_vk");
        reveal_strlit("hotkey");
    }
    match value.as_object_mut() {
        Some(obj) => {
            let ghost before = crate::json::members(*obj);
            match remove(obj, "hotkey_vk") {
                Some(vk) => {
                    if !contains_key(obj, "hotkey") {
                        let ghost key = tree(vk);
                        let mut one: Vec<serde_json::Value> = Vec::new();
                        one.push(vk);
                        assert(crate::json::trees(one@) == seq![key]);
                        let _ = obj.insert("hotkey".to_string(), array(one));
                    }
                },
                None => {
                    assert(before.remove("hotkey_vk"@) == before);
                },
            }
        },
        None => {},
    }
}

/// Migrating never overrides an explicit chord, leaves everything else as it was,
/// and has nothing left to do the second time.
pub proof fn law_migration_is_settled(v: Json, key: Seq<char>)
    ensures
        migrated(migrated(v)) == migrated(v),
        v.member("hotkey"@) is Some ==> migrated(v).member("hotkey"@) == v.member("hotkey"@),
        key != "hotkey"@ && key != "hotkey_vk"@ ==> migrated(v).member(key) == v.member(key),
        migrated(v).member("hotkey_vk"@) is None,
        v.member("hotkey"@) is None && v.member("hotkey_vk"@) is Some ==> migrated(v).member(
            "hotkey"@,
        ) == Some(Json::Array(seq![v.member("hotkey_vk"@)->0])),
{
    reveal_strlit("hotkey_vk");
    reveal_strlit("hotkey");
    assert("hotkey_vk"@.len() != "hotkey"@.len());
}

/// A settings file as a value of the current shape; `None` if it is not JSON.
pub fn read_config(raw: &str) -> (r: Option<serde_json::Value>)
    ensures
        match parsed(raw@) {
            Some(v) => r matches Some(value) && tree(value) == migrated(v),
            None => r is None,
        },
{
    match parse(raw) {
        Ok(v) => {
            let mut value = v;
            migrate(&mut value);
            Some(value)
        },
        Err(_) => None,
    }
}

/// A name below a directory.
pub open spec fn below(dir: Seq<char>, separator: char, name: Seq<char>) -> Seq<char> {
    if dir.len() == 0 || dir.last() == separator || dir.last() == '/' {
        dir + name
    } else {
        dir.push(separator) + name
    }
}

/// A path below a directory is the directory and then the name, with the
/// separator between the two unless one ends the directory already.
pub proof fn law_a_path_goes_down(dir: Seq<char>, separator: char, name: Seq<char>)
    ensures
        below(dir, separator, name).len() >= dir.len() + name.len(),
        below(dir, separator, name).take(dir.len() as int) == dir,
        below(dir, separator, name).skip(below(dir, separator, name).len() - name.len()) == name,
        below(dir, separator, name).len() - dir.len() - name.len() == (if dir.len() > 0 && dir[dir.len()
            - 1] != separator && dir[dir.len() - 1] != '/' {
            1int
        } else {
            0
        }),
        below(dir, separator, name).len() > dir.len() + name.len() ==> below(
            dir,
            separator,
            name,
        )[dir.len() as int] == separator,
{
    let p = below(dir, separator, name);
    assert(p.take(dir.len() as int) == dir);
    assert(p.skip(p.len() - name.len()) == name);
}

fn join_path(dir: &str, separator: char, name: &str) -> (r: String)
    ensures
        r@ == below(dir@, separator, name@),
{
    let mut path: Vec<char> = chars_of(dir);
    if path.len() > 0 && path[path.len() - 1] != separator && path[path.len() - 1] != '/' {
        path.push(separator);
    }
    append_str(&mut path, name);
    string_of(path.as_slice())
}

/// Where config and history live: `cooee` in the user's configuration directory,
/// if that can be resolved.
pub fn config_dir(base: Option<&str>, separator: char) -> (r: Option<String>)
    ensures
        r is Some <==> base is Some,
        r matches Some(p) ==> p@ == below(base->0@, separator, "cooee"@),
{
    match base {
        Some(dir) => Some(join_path(dir, separator, "cooee")),
        None => None,
    }
}

/// Where the settings are kept.
pub fn config_path(base: Option<&str>, separator: char) -> (r: Option<String>)
    ensures
        r is Some <==> base is Some,
        r matches Some(p) ==> p@ == below(
            below(base->0@, separator, "cooee"@),
            separator,
            "config.json"@,
        ),
{
    match config_dir(base, separator) {
        Some(dir) => Some(join_path(dir.as_str(), separator, "config.json")),
        None => None,
    }
}

/// Where the history is kept.
pub fn history_path(base: Option<&str>, separator: char) -> (r: Option<String>)
    ensures
        r is Some <==> base is Some,
        r matches Some(p) ==> p@ == below(
            below(base->0@, separator, "cooee"@),
            separator,
            "history.json"@,
        ),
{
    match config_dir(base, separator) {
        Some(dir) => Some(join_path(dir.as_str(), separator, "history.json")),
        None => None,
    }
}

} // verus!
