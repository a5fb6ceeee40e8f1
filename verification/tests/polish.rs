use cooee::config::Dictionary;
use cooee::polish::{apply_spoken_commands, collapse_whitespace, polish};

fn dict() -> Dictionary {
    Dictionary::default()
}

#[test]
fn removes_standalone_fillers_only() {
    assert_eq!(polish("um so uh the umbrella", &dict()), "So the umbrella");
}

#[test]
fn comma_wrapped_filler_leaves_no_orphan_comma() {
    // "probably, uh, move" must not become "probably, move".
    assert_eq!(
        polish("we should probably, uh, move the meeting", &dict()),
        "We should probably move the meeting"
    );
    // A comma that was doing real work survives.
    assert_eq!(
        polish("first, um, we ship, then we test", &dict()),
        "First we ship, then we test"
    );
}

#[test]
fn capitalises_each_sentence() {
    assert_eq!(
        polish("hello there. how are you?", &dict()),
        "Hello there. How are you?"
    );
}

#[test]
fn applies_spoken_punctuation() {
    assert_eq!(polish("hello comma world", &dict()), "Hello, world");
}

#[test]
fn dictionary_corrections_win() {
    let mut d = Dictionary::default();
    d.insert("claw'd", "Klaus");
    assert_eq!(polish("i use claw'd daily", &d), "I use Klaus daily");
}

#[test]
fn decimals_do_not_start_a_new_sentence() {
    assert_eq!(polish("version 2.0 is out", &dict()), "Version 2.0 is out");
    assert_eq!(
        polish("3.0s of audio captured", &dict()),
        "3.0s of audio captured"
    );
}

#[test]
fn capitalises_first_letter_after_opening_punctuation() {
    assert_eq!(polish("\"hello there", &dict()), "\"Hello there");
    assert_eq!(polish("(hello there", &dict()), "(Hello there");
}

#[test]
fn empty_input_is_safe() {
    assert_eq!(polish("   ", &dict()), "");
}

#[test]
fn every_spoken_mark_is_applied_in_any_case() {
    assert_eq!(polish("one New Line two", &dict()), "One\nTwo");
    assert_eq!(polish("one new paragraph two", &dict()), "One\n\nTwo");
    assert_eq!(polish("stop full stop go", &dict()), "Stop. Go");
    assert_eq!(polish("stop PERIOD go", &dict()), "Stop. Go");
    assert_eq!(polish("why question mark because", &dict()), "Why? Because");
    assert_eq!(polish("wow exclamation mark", &dict()), "Wow!");
    assert_eq!(polish("period", &dict()), ".");
}

#[test]
fn whitespace_comes_out_tidy() {
    assert_eq!(polish("  a \t b\r\n c  ", &dict()), "A b c");
    assert_eq!(polish("caf\u{E9}\u{A0}noir", &dict()), "Caf\u{E9} noir");
}

#[test]
fn only_fillers_polish_away() {
    assert_eq!(polish("Um, uh. ER!", &dict()), "");
    assert_eq!(polish("a,, um, uh,", &dict()), "A");
}

#[test]
fn capitals_beyond_ascii() {
    assert_eq!(polish("\u{E9}t\u{E9}. \u{DF}", &dict()), "\u{C9}t\u{E9}. SS");
}

#[test]
fn whitespace_beyond_ascii_is_whitespace() {
    assert_eq!(polish("a\u{3000}\u{A0}b\u{2028}c\u{85}", &dict()), "A b c");
    // A zero-width space is none.
    assert_eq!(polish("a\u{200B}b", &dict()), "A\u{200B}b");
}

#[test]
fn a_capital_stands_where_no_letter_or_digit_does_since_the_break() {
    assert_eq!(polish("(one) two. [three] 4 five! \"six", &dict()), "(One) two. [Three] 4 five! \"Six");
    assert_eq!(polish("a.b c. 3rd", &dict()), "A.b c. 3rd");
}

#[test]
fn no_spoken_phrase_is_left() {
    let text: Vec<char> = "comma comma new line full stop new comma line period".chars().collect();
    let once = apply_spoken_commands(&text);
    assert_eq!(apply_spoken_commands(&once), once);
}

#[test]
fn collapsing_twice_is_collapsing_once() {
    let text: Vec<char> = "  a \t\n b\n\n  c  ".chars().collect();
    let once = collapse_whitespace(&text);
    assert_eq!(once.iter().collect::<String>(), "a \nb\n\nc");
    assert_eq!(collapse_whitespace(&once), once);
    let words = |t: &[char]| -> Vec<String> {
        t.iter().collect::<String>().split_whitespace().map(str::to_string).collect()
    };
    assert_eq!(words(&once), words(&text));
}
