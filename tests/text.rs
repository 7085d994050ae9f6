use anagram_solver::{extract_words, ArgNotice, Config, Mode, WordSet};

fn strings(ws: &[&str]) -> Vec<String> {
    ws.iter().map(|w| w.to_string()).collect()
}

#[test]
fn words_are_cut_at_spaces_and_lines() {
    assert_eq!(extract_words("one two\nthree"), strings(&["one", "two", "three"]));
}

#[test]
fn final_line_feed_adds_no_line() {
    assert_eq!(extract_words("one\ntwo\n"), strings(&["one", "two"]));
    assert_eq!(extract_words(""), strings(&[]));
    assert_eq!(extract_words("\n"), strings(&[""]));
}

#[test]
fn empty_pieces_are_words() {
    assert_eq!(extract_words("a  b\n\nc"), strings(&["a", "", "b", "", "c"]));
}

#[test]
fn carriage_return_before_line_feed_is_dropped() {
    assert_eq!(extract_words("one\r\ntwo\r"), strings(&["one", "two\r"]));
}

#[test]
fn config_reads_file_and_mode() {
    let c = Config::new(&strings(&["prog", "dict.txt"]));
    assert_eq!(c.filename, "dict.txt");
    assert_eq!(c.mode, Mode::Fast);
    let c = Config::new(&strings(&["prog", "dict.txt", "slow"]));
    assert_eq!(c.filename, "dict.txt");
    assert_eq!(c.mode, Mode::Slow);
    let c = Config::new(&strings(&["prog", "dict.txt", "fast"]));
    assert_eq!(c.mode, Mode::Fast);
    let c = Config::new(&strings(&["prog", "dict.txt", "quick"]));
    assert_eq!(c.filename, "dict.txt");
    assert_eq!(c.mode, Mode::Fast);
    let c = Config::new(&strings(&["prog", "dict.txt", "slow", "more"]));
    assert_eq!(c.filename, "");
    assert_eq!(c.mode, Mode::Fast);
}

#[test]
fn config_notices() {
    assert_eq!(Config::notice(&strings(&["prog", "d"])), None);
    assert_eq!(Config::notice(&strings(&["prog", "d", "slow"])), None);
    assert_eq!(Config::notice(&strings(&["prog", "d", "quick"])), Some(ArgNotice::InvalidMode));
    assert_eq!(Config::notice(&strings(&["prog", "d", "slow", "x"])), Some(ArgNotice::ExtraArguments));
}

#[test]
fn word_set_keeps_each_word_once() {
    let mut s = WordSet::new();
    s.insert("a");
    s.insert("b");
    s.insert("a");
    assert_eq!(s.len(), 2);
    assert!(s.contains("a"));
    assert!(!s.contains("c"));
}
