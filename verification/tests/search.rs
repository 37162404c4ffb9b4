use grep_redo::search::{highlight, keep_matching_lines, number_lines, run, try_highlight};
use grep_redo::{Config, Controller, InputSource};

const ON: &str = "\x1b[31m";
const OFF: &str = "\x1b[0m";

fn red(s: &str) -> String {
    format!("{ON}{s}{OFF}")
}

fn strip(s: &str) -> String {
    s.replace(ON, "").replace(OFF, "")
}

fn config(target: &str, controller: u8) -> Config {
    Config { filesource: InputSource::Stdin, controller, target: target.to_string() }
}

#[test]
fn highlight_marks_each_occurrence() {
    assert_eq!(highlight("hello world", "o", false), format!("hell{}w{}rld", red("o") + " ", red("o")));
    assert_eq!(highlight("aaa", "aa", false), format!("{}a", red("aa")));
    assert_eq!(highlight("none here", "zz", false), "none here");
}

#[test]
fn highlight_empty_target_marks_every_position() {
    let x = red("");
    assert_eq!(highlight("ab", "", false), format!("{x}a{x}b{x}"));
}

#[test]
fn highlight_upper_keeps_letter_case() {
    assert_eq!(highlight("Hello hello", "HELLO", true), format!("{} {}", red("Hello"), red("hello")));
}

#[test]
fn highlight_upper_maps_byte_offsets() {
    assert_eq!(try_highlight("straße", "sse", true), Some(format!("stra{}", red("ße"))));
    assert_eq!(try_highlight("ß", "s", true), None);
    assert_eq!(try_highlight("abc", "b", true), Some(format!("a{}c", red("b"))));
}

#[test]
fn highlight_removable() {
    let text = "one two one";
    assert_eq!(strip(&highlight(text, "one", false)), text);
    assert_eq!(strip(&highlight(text, "ONE", true)), text);
}

#[test]
fn keep_lines() {
    assert_eq!(keep_matching_lines("a\nb\nab", "a", false), "a\nab");
    assert_eq!(keep_matching_lines("A\nb\r\nx", "a", true), "A");
    assert_eq!(keep_matching_lines("b\nc", "a", false), "");
    assert_eq!(keep_matching_lines("x\r\ny\n", "x", false), "x");
}

#[test]
fn numbering() {
    assert_eq!(number_lines("x\ny"), "1:x\n2:y");
    assert_eq!(number_lines(""), "");
    assert_eq!(number_lines("a\n\nb\n"), "1:a\n2:\n3:b");
}

#[test]
fn run_single_source_numbered() {
    let out = run(&config("a", Controller::SHOW_LINE), &[("f".to_string(), "a\nb\na".to_string())]).unwrap();
    assert_eq!(out, vec![format!("1:{}", red("a")), format!("2:{}", red("a"))]);
}

#[test]
fn run_all_shows_every_line() {
    let out = run(&config("b", Controller::SHOW_ALL), &[("f".to_string(), "a\nb".to_string())]).unwrap();
    assert_eq!(out, vec!["a".to_string(), red("b")]);
}

#[test]
fn run_several_sources_prefixed() {
    let srcs = vec![("x".to_string(), "k1\nz".to_string()), ("y".to_string(), "k2".to_string())];
    let out = run(&config("k", Controller::DEFAULT), &srcs).unwrap();
    assert_eq!(out, vec![format!("x:{}1", red("k")), format!("y:{}2", red("k"))]);
}

#[test]
fn run_upper_panicking_slice_is_none() {
    assert_eq!(run(&config("s", Controller::CHECK_UPPER | Controller::SHOW_ALL), &[("f".to_string(), "ß".to_string())]), None);
}

#[test]
fn keeping_twice_changes_nothing() {
    for (content, target, upper) in [("ab\nx\nzab\n", "ab", false), ("Ab\nq\naB", "ab", true), ("a\n\nb", "a", false)] {
        let once = keep_matching_lines(content, target, upper);
        assert_eq!(keep_matching_lines(&once, target, upper), once);
    }
}
