use libpealimrs::translation::{remove_braces, strip_marker, translations_of};
use libpealimrs::word_dto::WordData;
use libpealimrs::word_index::WordIndex;

fn entry(word_en: &str) -> WordData {
    WordData::new(
        String::from("1"),
        String::from("w"),
        String::from(word_en),
        String::from("w"),
        String::new(),
        String::new(),
        Vec::new(),
        String::from("PA'AL"),
        None,
        None,
    )
}

#[test]
fn parenthetical_remarks_are_removed() {
    assert_eq!(remove_braces("to go (somewhere)"), "to go ");
    assert_eq!(remove_braces("(a) b (c) d"), " b  d");
    assert_eq!(remove_braces("no remarks"), "no remarks");
    assert_eq!(remove_braces(""), "");
}

#[test]
fn a_remark_ends_at_the_first_closing_parenthesis() {
    assert_eq!(remove_braces("a (b (c) d) e"), "a  d) e");
    assert_eq!(remove_braces("a (b c"), "a (b c");
    assert_eq!(remove_braces("a ) b ( c"), "a ) b ( c");
    assert_eq!(remove_braces("()"), "");
}

#[test]
fn a_remark_does_not_span_lines() {
    assert_eq!(remove_braces("a (b\nc) d"), "a (b\nc) d");
}

#[test]
fn text_is_cut_at_punctuation_and_trimmed() {
    assert_eq!(translations_of("a,b"), vec!["a", "b"]);
    assert_eq!(translations_of("walk; stroll , run"), vec!["walk", "stroll", "run"]);
    assert_eq!(translations_of("self-made"), vec!["self", "made"]);
    assert_eq!(translations_of("one two"), vec!["one two"]);
}

#[test]
fn every_ascii_punctuation_mark_cuts() {
    for c in "!\"#$%&'()*+,-./:;<=>?@[\\]^_`{|}~".chars() {
        let text = format!("a{}b", c);
        assert_eq!(translations_of(&text), vec!["a", "b"]);
    }
    assert_eq!(translations_of("a\u{2014}b"), vec!["a\u{2014}b"]);
    assert_eq!(translations_of("a1b c"), vec!["a1b c"]);
}

#[test]
fn white_space_around_a_piece_is_dropped() {
    assert_eq!(translations_of("  go  "), vec!["go"]);
    assert_eq!(translations_of("\tgo\n, \u{a0}run\u{2003}"), vec!["go", "run"]);
}

#[test]
fn empty_pieces_are_dropped() {
    assert!(translations_of("").is_empty());
    assert!(translations_of(" , ;; ").is_empty());
    assert_eq!(translations_of(",a,,b,"), vec!["a", "b"]);
}

#[test]
fn a_leading_infinitive_marker_is_stripped() {
    assert_eq!(translations_of("to go"), vec!["go"]);
    assert_eq!(translations_of("to go, to walk"), vec!["go", "walk"]);
    assert_eq!(translations_of("to to go"), vec!["to go"]);
    assert_eq!(translations_of("go to town"), vec!["go to town"]);
    assert_eq!(translations_of("today"), vec!["today"]);
}

#[test]
fn the_marker_needs_its_space() {
    assert_eq!(translations_of("to"), vec!["to"]);
    assert_eq!(translations_of("to "), vec!["to"]);
    assert_eq!(translations_of("to  go"), vec![" go"]);
}

#[test]
fn strip_marker_strips_from_the_start_only() {
    assert_eq!(strip_marker("to go"), "go");
    assert_eq!(strip_marker("to to go"), "to go");
    assert_eq!(strip_marker(" to go"), " to go");
    assert_eq!(strip_marker("go to"), "go to");
    assert_eq!(strip_marker("to"), "to");
    assert_eq!(strip_marker("to "), "");
    assert_eq!(strip_marker(""), "");
}

#[test]
fn translations_of_an_entry() {
    assert_eq!(
        WordIndex::get_translations(&entry("to go (on foot), to walk; to leave")),
        vec!["go", "walk", "leave"]
    );
    assert_eq!(
        WordIndex::get_translations(&entry("to be glad (that), happy")),
        vec!["be glad", "happy"]
    );
    assert!(WordIndex::get_translations(&entry("(only a remark)")).is_empty());
}
