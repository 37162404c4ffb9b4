use grep_redo::cli::Cli;
use grep_redo::matcher::{
    classify_arg, compile_regex, dir_entry_allowed, emit_if_match, highlight_line,
    search_from, stream_source, should_include, try_emit_if_match, try_highlight_line,
    try_search_from, ArgKind,
};

const ON: &str = "\x1b[31m";
const OFF: &str = "\x1b[0m";

fn red(s: &str) -> String {
    format!("{ON}{s}{OFF}")
}

fn cli(target: &str) -> Cli {
    Cli {
        target: target.to_string(),
        filenames: Vec::new(),
        ignore_case: false,
        invert_match: false,
        extended_regexp: false,
        fixed_strings: false,
        word_regexp: false,
        line_regexp: false,
        file: None,
        regexp: None,
        line_number: false,
        all: false,
        only_matching: false,
        files_with_matches: false,
        files_without_match: false,
        count: false,
        quiet: false,
        with_filename: false,
        no_filename: false,
        after_context: None,
        before_context: None,
        context: None,
        recursive: false,
        include_pattern: None,
        exclude: None,
        exclude_dir: None,
        max_count: None,
        text: false,
        threads: 0,
        input_encoding: "auto".to_string(),
        output_encoding: "utf-8".to_string(),
    }
}

fn src(name: &str, content: &str) -> (String, String) {
    (name.to_string(), content.to_string())
}

fn hit(name: &str, n: u32, text: &str) -> (String, u32, String) {
    (name.to_string(), n, text.to_string())
}

#[test]
fn search_fixed_string() {
    let r = search_from(&cli("foo"), &[src("f", "foo\nbar\nfoo bar")]).unwrap();
    assert_eq!(r, vec![hit("f", 1, &red("foo")), hit("f", 3, &format!("{} bar", red("foo")))]);
}

#[test]
fn search_inverted() {
    let mut c = cli("foo");
    c.invert_match = true;
    let r = search_from(&c, &[src("f", "foo\nbar\nfoo bar")]).unwrap();
    assert_eq!(r, vec![hit("f", 2, "bar")]);
}

#[test]
fn inverted_and_plain_partition_lines() {
    let text = "alpha\nbeta\ngamma\nalphabet";
    let plain = search_from(&cli("alpha"), &[src("f", text)]).unwrap();
    let mut c = cli("alpha");
    c.invert_match = true;
    let inverted = search_from(&c, &[src("f", text)]).unwrap();
    let mut nums: Vec<u32> = plain.iter().chain(inverted.iter()).map(|h| h.1).collect();
    nums.sort();
    assert_eq!(nums, vec![1, 2, 3, 4]);
    assert_eq!(plain.len(), 2);
}

#[test]
fn search_whole_words_and_lines() {
    let mut w = cli("foo");
    w.word_regexp = true;
    let r = search_from(&w, &[src("f", "foobar\nfoo bar\n_foo")]).unwrap();
    assert_eq!(r, vec![hit("f", 2, &format!("{} bar", red("foo")))]);
    let mut x = cli("foo");
    x.line_regexp = true;
    let r = search_from(&x, &[src("f", "foo\nfoo \nfoo")]).unwrap();
    assert_eq!(r, vec![hit("f", 1, &red("foo")), hit("f", 3, &red("foo"))]);
}

#[test]
fn search_ignore_case_keeps_line_text() {
    let mut c = cli("foo");
    c.ignore_case = true;
    let r = search_from(&c, &[src("f", "FOO x\nbar")]).unwrap();
    assert_eq!(r, vec![hit("f", 1, &format!("{} x", red("FOO")))]);
}

#[test]
fn search_regex() {
    let mut c = cli("f.o");
    c.extended_regexp = true;
    let r = search_from(&c, &[src("f", "fao fbo\nxyz")]).unwrap();
    assert_eq!(r, vec![hit("f", 1, &format!("{} {}", red("fao"), red("fbo")))]);
    let mut w = cli("ab");
    w.extended_regexp = true;
    w.word_regexp = true;
    let r = search_from(&w, &[src("f", "abc\nx ab y")]).unwrap();
    assert_eq!(r, vec![hit("f", 2, &format!("x {} y", red("ab")))]);
}

#[test]
fn whole_line_alternation_stays_anchored() {
    let mut x = regex_cli("a|b", false);
    x.line_regexp = true;
    let r = search_from(&x, &[src("f", "a\nb\nax\nxb")]).unwrap();
    assert_eq!(r, vec![hit("f", 1, &red("a")), hit("f", 2, &red("b"))]);
    let mut w = regex_cli("ab|cd", false);
    w.word_regexp = true;
    let r = search_from(&w, &[src("f", "xab\ncdx\nab\ny cd")]).unwrap();
    assert_eq!(r, vec![hit("f", 3, &red("ab")), hit("f", 4, &format!("y {}", red("cd")))]);
}

#[test]
fn search_regex_error() {
    let mut c = cli("(");
    c.extended_regexp = true;
    let e = search_from(&c, &[src("f", "x")]).unwrap_err();
    assert!(e.starts_with("无效正则: "));
    assert!(e.len() > "无效正则: ".len());
    assert!(compile_regex(&c).is_err());
    assert!(compile_regex(&cli("(")).unwrap().is_none());
}

#[test]
fn search_empty_fixed_target_does_not_return() {
    assert_eq!(try_search_from(&cli(""), &[src("f", "x")]), Ok(None));
    assert_eq!(try_search_from(&cli(""), &[src("f", "")]), Ok(Some(Vec::new())));
    let mut c = cli("");
    c.extended_regexp = true;
    assert_eq!(try_search_from(&c, &[src("f", "ab")]), Ok(Some(vec![hit("f", 1, &format!("{}a{}b{}", red(""), red(""), red("")))])));
}

#[test]
fn search_several_sources_in_order() {
    let r = search_from(&cli("x"), &[src("a", "x"), src("b", "y\nx")]).unwrap();
    assert_eq!(r, vec![hit("a", 1, &red("x")), hit("b", 2, &red("x"))]);
}

fn regex_cli(p: &str, ic: bool) -> Cli {
    let mut c = cli(p);
    c.extended_regexp = true;
    c.ignore_case = ic;
    c
}

#[test]
fn regex_matching_through_the_search() {
    let r = search_from(&regex_cli("b+", false), &[src("f", "abbcb
xyz")]).unwrap();
    assert_eq!(r, vec![hit("f", 1, &format!("a{}c{}", red("bb"), red("b")))]);
    let r = search_from(&regex_cli("B", true), &[src("f", "abc")]).unwrap();
    assert_eq!(r, vec![hit("f", 1, &format!("a{}c", red("b")))]);
    let r = search_from(&regex_cli("é", false), &[src("f", "aé")]).unwrap();
    assert_eq!(r, vec![hit("f", 1, &format!("a{}", red("é")))]);
    let mut x = regex_cli("a.", false);
    x.line_regexp = true;
    let r = search_from(&x, &[src("f", "ab
abc")]).unwrap();
    assert_eq!(r, vec![hit("f", 1, &red("ab"))]);
}

#[test]
fn highlight_line_modes() {
    assert_eq!(highlight_line("abcb", "b", false, None), format!("a{}c{}", red("b"), red("b")));
    assert_eq!(highlight_line("ABC", "b", true, None), format!("A{}C", red("B")));
    let re = compile_regex(&regex_cli("é+", false)).unwrap().unwrap();
    assert_eq!(highlight_line("aééb", "", false, Some(&re)), format!("a{}b", red("éé")));
    assert_eq!(try_highlight_line("x", "", false, None), None);
    assert_eq!(try_highlight_line("İx", "x", true, None), None);
    assert_eq!(try_highlight_line("Ax", "x", true, None), Some(format!("A{}", red("x"))));
}

#[test]
fn emit_streamed_lines() {
    let c = cli("b");
    assert_eq!(emit_if_match("s", "abc", 4, &c, None), Some(hit("s", 4, &format!("a{}c", red("b")))));
    assert_eq!(emit_if_match("s", "xyz", 5, &c, None), None);
    assert_eq!(try_emit_if_match("s", "xyz", 5, &cli(""), None), None);
    assert_eq!(try_emit_if_match("s", "abc", 1, &c, None), Some(Some(hit("s", 1, &format!("a{}c", red("b"))))));
}

#[test]
fn file_filters() {
    let mut c = cli("x");
    c.include_pattern = Some("*.rs".to_string());
    assert!(should_include("a.rs", &c));
    assert!(!should_include("a.txt", &c));
    c.include_pattern = Some("a***".to_string());
    assert!(should_include("anything", &c));
    let mut e = cli("x");
    e.exclude = Some("*.log".to_string());
    assert!(!should_include("x.log", &e));
    assert!(should_include("x.txt", &e));
    let mut d = cli("x");
    d.exclude_dir = Some("build".to_string());
    assert!(!should_include("src/build/a.c", &d));
    assert!(should_include("src/a.c", &d));
    d.exclude_dir = Some("target".to_string());
    assert!(should_include("src/my_target.rs", &d));
    assert!(should_include("src/target", &d));
    assert!(!should_include("target/debug/x.rs", &d));
    assert!(!should_include("a\\target\\x.rs", &d));
    let mut q = cli("x");
    q.include_pattern = Some("a?c".to_string());
    assert!(should_include("abc", &q));
    assert!(!should_include("abbc", &q));
}

#[test]
fn classify_arguments() {
    let mut c = cli("x");
    assert!(matches!(classify_arg("*.txt", &c, false), ArgKind::Pattern));
    assert!(matches!(classify_arg("dir", &c, true), ArgKind::Single));
    c.recursive = true;
    assert!(matches!(classify_arg("dir", &c, true), ArgKind::Walk));
    c.exclude = Some("*.md".to_string());
    assert!(matches!(classify_arg("a.md", &c, false), ArgKind::Skip));
    assert!(!dir_entry_allowed("target", &c));
    assert!(!dir_entry_allowed(".git", &c));
    assert!(dir_entry_allowed("src", &c));
    c.exclude_dir = Some("vendor".to_string());
    assert!(!dir_entry_allowed("vendor", &c));
}

#[test]
fn streaming_a_source() {
    let c = cli("b");
    assert_eq!(stream_source("s", "abc\nxyz\nbb", &c, None), Some(vec![hit("s", 1, &format!("a{}c", red("b"))), hit("s", 3, &format!("{}{}", red("b"), red("b")))]));
    assert_eq!(stream_source("s", "", &c, None), Some(Vec::new()));
    assert_eq!(stream_source("s", "x", &cli(""), None), None);
    let sources = [src("f", "b1\nq\nb2")];
    assert_eq!(stream_source("f", "b1\nq\nb2", &c, None).unwrap(), search_from(&c, &sources).unwrap());
}

#[test]
fn streaming_agrees_with_memory_search() {
    let mut c = cli("an");
    c.ignore_case = true;
    let text = "Banana\nkiwi\nANT";
    let found = search_from(&c, &[src("f", text)]).unwrap();
    let streamed: Vec<_> = text
        .lines()
        .enumerate()
        .filter_map(|(i, l)| emit_if_match("f", l, i as u32 + 1, &c, None))
        .collect();
    assert_eq!(found, streamed);
}

#[test]
fn shown_lines_are_the_lines_marked() {
    let text = "one two\nthree\ntwo two";
    let found = search_from(&cli("two"), &[src("f", text)]).unwrap();
    let lines: Vec<&str> = text.lines().collect();
    for (name, n, shown) in &found {
        assert_eq!(name, "f");
        assert_eq!(shown.replace(ON, "").replace(OFF, ""), lines[*n as usize - 1]);
    }
    assert_eq!(found.iter().map(|h| h.1).collect::<Vec<_>>(), vec![1, 3]);
}

#[test]
fn inversion_partitions_all_lines() {
    let sources = [src("a", "x1\ny\nx2"), src("b", "y\ny\nx")];
    let plain = search_from(&cli("x"), &sources).unwrap();
    let mut c = cli("x");
    c.invert_match = true;
    let inverted = search_from(&c, &sources).unwrap();
    let mut seen: Vec<(String, u32)> = plain.iter().chain(inverted.iter()).map(|h| (h.0.clone(), h.1)).collect();
    seen.sort();
    let all: Vec<(String, u32)> =
        vec![("a".into(), 1), ("a".into(), 2), ("a".into(), 3), ("b".into(), 1), ("b".into(), 2), ("b".into(), 3)];
    assert_eq!(seen, all);
    assert_eq!(inverted, vec![hit("a", 2, "y"), hit("b", 1, "y"), hit("b", 2, "y")]);
}
