use cooee::caret::{neighbours, pad, Neighbours};

fn n(before: Option<char>, after: Option<char>) -> Neighbours {
    Neighbours { before, after }
}

#[test]
fn touching_a_word_on_the_left_gets_a_space() {
    assert_eq!(pad("today", &n(Some('t'), None)), " today");
    assert_eq!(pad("today", &n(Some('.'), None)), " today");
}

#[test]
fn whitespace_or_openers_on_the_left_stay_snug() {
    assert_eq!(pad("today", &n(Some(' '), None)), "today");
    assert_eq!(pad("today", &n(Some('\n'), None)), "today");
    assert_eq!(pad("today", &n(Some('('), None)), "today");
    assert_eq!(pad("today", &n(Some('"'), None)), "today");
    assert_eq!(pad("today", &n(None, None)), "today");
}

#[test]
fn punctuation_led_text_never_gets_a_leading_space() {
    assert_eq!(pad(", and then", &n(Some('t'), None)), ", and then");
    assert_eq!(pad(".", &n(Some('t'), None)), ".");
}

#[test]
fn touching_a_word_on_the_right_gets_a_space() {
    assert_eq!(pad("today", &n(None, Some('a'))), "today ");
    assert_eq!(pad("today", &n(None, Some('.'))), "today");
    assert_eq!(pad("today", &n(None, Some(' '))), "today");
    assert_eq!(pad("today ", &n(None, Some('a'))), "today ");
}

#[test]
fn both_sides() {
    assert_eq!(pad("brown", &n(Some('e'), Some('f'))), " brown ");
    assert_eq!(pad("", &n(Some('e'), Some('f'))), "");
}

#[test]
fn quotes_and_dashes_beyond_ascii_stay_snug() {
    assert_eq!(pad("today", &n(Some('\u{201C}'), None)), "today");
    assert_eq!(pad("today", &n(Some('\u{2014}'), None)), "today");
    assert_eq!(pad("today", &n(None, Some('\u{201D}'))), "today");
    assert_eq!(pad("(today)", &n(Some('t'), Some('a'))), " (today) ");
}

#[test]
fn neighbours_are_the_near_ends() {
    assert_eq!(neighbours(Some("ab"), Some("cd")), n(Some('b'), Some('c')));
    assert_eq!(neighbours(Some(""), None), Neighbours::default());
}
