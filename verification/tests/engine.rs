use grep_redo::cli::Cli;
use grep_redo::engine::{
    choose_mode, execute_mode, expand_context, run, run_memory, stream_finish, stream_step,
    AllOutput, CountOutput, FilesWithMatchesOutput, FilesWithoutMatchOutput, LineOutput,
    OutputContext, OutputMode, OutputStrategy, QuietOutput, RunPlan,
};

fn cli() -> Cli {
    Cli {
        target: "a".to_string(),
        filenames: Vec::new(),
        ignore_case: false,
        invert_match: false,
        extended_regexp: false,
        fixed_strings: false,
        word_regexp: false,
        line_regexp: false,
        file: None,
        regexp: None,
        line_number: false,
        all: false,
        only_matching: false,
        files_with_matches: false,
        files_without_match: false,
        count: false,
        quiet: false,
        with_filename: false,
        no_filename: false,
        after_context: None,
        before_context: None,
        context: None,
        recursive: false,
        include_pattern: None,
        exclude: None,
        exclude_dir: None,
        max_count: None,
        text: false,
        threads: 0,
        input_encoding: "auto".to_string(),
        output_encoding: "utf-8".to_string(),
    }
}

fn src(name: &str, content: &str) -> (String, String) {
    (name.to_string(), content.to_string())
}

fn hit(name: &str, n: u32, text: &str) -> (String, u32, String) {
    (name.to_string(), n, text.to_string())
}

fn lines(v: &[&str]) -> Vec<String> {
    v.iter().map(|s| s.to_string()).collect()
}

#[test]
fn context_expansion() {
    let sources = vec![src("f", "l1\nl2\nl3\nl4\nl5")];
    let results = vec![hit("f", 3, "X")];
    assert_eq!(expand_context(&sources, &results, 1, 1), vec![hit("f", 2, "l2"), hit("f", 3, "X"), hit("f", 4, "l4")]);
    assert_eq!(expand_context(&sources, &results, 0, 0), results);
    assert_eq!(expand_context(&sources, &results, 5, 0), vec![hit("f", 1, "l1"), hit("f", 2, "l2"), hit("f", 3, "X")]);
    assert_eq!(expand_context(&sources, &results, 0, 9), vec![hit("f", 3, "X"), hit("f", 4, "l4"), hit("f", 5, "l5")]);
}

#[test]
fn context_merges_windows_and_keeps_found_lines() {
    let sources = vec![src("f", "a\nb\nc\nd\ne\nf"), src("g", "x\ny")];
    let results = vec![hit("f", 2, "B"), hit("f", 3, "C"), hit("g", 2, "Y")];
    assert_eq!(
        expand_context(&sources, &results, 0, 1),
        vec![hit("f", 2, "B"), hit("f", 3, "C"), hit("f", 4, "d"), hit("g", 2, "Y")]
    );
}

#[test]
fn line_output_formats() {
    let sources = vec![src("f", "a")];
    let results = vec![hit("f", 7, "a")];
    let mut c = cli();
    let ctx = OutputContext { cli: &c, sources: &sources, results: &results };
    assert_eq!(LineOutput.execute(&ctx), lines(&["a"]));
    c.line_number = true;
    let ctx = OutputContext { cli: &c, sources: &sources, results: &results };
    assert_eq!(LineOutput.execute(&ctx), lines(&["7:a"]));
    c.with_filename = true;
    let ctx = OutputContext { cli: &c, sources: &sources, results: &results };
    assert_eq!(LineOutput.execute(&ctx), lines(&["f:7:a"]));
    c.line_number = false;
    let ctx = OutputContext { cli: &c, sources: &sources, results: &results };
    assert_eq!(LineOutput.execute(&ctx), lines(&["f:a"]));
}

#[test]
fn all_output_shows_whole_text() {
    let sources = vec![src("f", "a\nb"), src("g", "c")];
    let results = vec![hit("f", 2, "B!")];
    let mut c = cli();
    c.line_number = true;
    let ctx = OutputContext { cli: &c, sources: &sources, results: &results };
    assert_eq!(AllOutput.execute(&ctx), lines(&["f:1:a", "f:2:B!", "g:1:c"]));
}

#[test]
fn count_output() {
    let c = cli();
    let one = vec![src("f", "")];
    let results = vec![hit("b", 1, "x"), hit("a", 1, "x"), hit("b", 2, "x")];
    let ctx = OutputContext { cli: &c, sources: &one, results: &results };
    assert_eq!(CountOutput.execute(&ctx), lines(&["3"]));
    let two = vec![src("b", ""), src("a", "")];
    let ctx = OutputContext { cli: &c, sources: &two, results: &results };
    assert_eq!(CountOutput.execute(&ctx), lines(&["a:1", "b:2"]));
    let none: Vec<(String, u32, String)> = Vec::new();
    let ctx = OutputContext { cli: &c, sources: &two, results: &none };
    assert_eq!(CountOutput.execute(&ctx), Vec::<String>::new());
}

#[test]
fn file_name_outputs_partition_sources() {
    let c = cli();
    let sources = vec![src("a", ""), src("b", ""), src("c", "")];
    let results = vec![hit("c", 1, "x"), hit("a", 1, "x"), hit("c", 2, "x")];
    let ctx = OutputContext { cli: &c, sources: &sources, results: &results };
    assert_eq!(FilesWithMatchesOutput.execute(&ctx), lines(&["c", "a"]));
    assert_eq!(FilesWithoutMatchOutput.execute(&ctx), lines(&["b"]));
    assert_eq!(QuietOutput.execute(&ctx), Vec::<String>::new());
}

#[test]
fn mode_choice() {
    let mut c = cli();
    assert!(matches!(choose_mode(&c), OutputMode::Lines));
    c.all = true;
    assert!(matches!(choose_mode(&c), OutputMode::All));
    c.count = true;
    assert!(matches!(choose_mode(&c), OutputMode::Count));
    c.files_without_match = true;
    assert!(matches!(choose_mode(&c), OutputMode::FilesWithoutMatch));
    c.files_with_matches = true;
    assert!(matches!(choose_mode(&c), OutputMode::FilesWithMatches));
    c.quiet = true;
    assert!(matches!(choose_mode(&c), OutputMode::Quiet));
    let sources = vec![src("f", "a")];
    let results = vec![hit("f", 1, "a")];
    let ctx = OutputContext { cli: &c, sources: &sources, results: &results };
    assert_eq!(execute_mode(&OutputMode::Count, &ctx), lines(&["1"]));
}

#[test]
fn run_plan() {
    let mut c = cli();
    assert!(matches!(run(&c), RunPlan::Streaming));
    c.count = true;
    assert!(matches!(run(&c), RunPlan::Streaming));
    c.context = Some(0);
    assert!(matches!(run(&c), RunPlan::Streaming));
    c.after_context = Some(2);
    assert!(matches!(run(&c), RunPlan::Memory));
    let mut v = cli();
    v.invert_match = true;
    assert!(matches!(run(&v), RunPlan::Memory));
}

#[test]
fn memory_mode() {
    let mut c = cli();
    c.context = Some(1);
    c.line_number = true;
    let sources = vec![src("f", "x\na\ny\nz")];
    let out = run_memory(&c, &sources).unwrap().unwrap();
    assert_eq!(out, (lines(&["1:x", "2:\x1b[31ma\x1b[0m", "3:y"]), true));
    let mut l = cli();
    l.files_without_match = true;
    let out = run_memory(&l, &[src("f", "a"), src("g", "b")]).unwrap().unwrap();
    assert_eq!(out, (lines(&["g"]), true));
    let mut e = cli();
    e.extended_regexp = true;
    e.target = "(".to_string();
    assert!(run_memory(&e, &sources).is_err());
}

#[test]
fn count_ignores_context_lines() {
    let mut c = cli();
    c.target = "foo".to_string();
    c.count = true;
    c.context = Some(1);
    let out = run_memory(&c, &[src("f.txt", "a\nfoo\nb\nc")]).unwrap().unwrap();
    assert_eq!(out, (lines(&["1"]), true));
}

#[test]
fn memory_mode_reports_selection() {
    let mut q = cli();
    q.quiet = true;
    q.invert_match = true;
    q.target = "a".to_string();
    assert_eq!(run_memory(&q, &[src("f", "a\na")]).unwrap().unwrap(), (Vec::<String>::new(), false));
    assert_eq!(run_memory(&q, &[src("f", "a\nb")]).unwrap().unwrap(), (Vec::<String>::new(), true));
    let mut c = cli();
    c.context = Some(2);
    assert_eq!(run_memory(&c, &[src("f", "x\ny")]).unwrap().unwrap(), (Vec::<String>::new(), false));
}

#[test]
fn streaming_steps() {
    let mut c = cli();
    let h = hit("f", 2, "ab");
    assert_eq!(stream_step(&c, &h), Some("ab".to_string()));
    c.filenames = vec!["f".to_string(), "g".to_string()];
    c.line_number = true;
    assert_eq!(stream_step(&c, &h), Some("f:2:ab".to_string()));
    c.count = true;
    assert_eq!(stream_step(&c, &h), None);
    assert_eq!(stream_finish(&c, 3), (Some("3".to_string()), false));
    c.files_with_matches = true;
    assert_eq!(stream_step(&c, &h), Some("f".to_string()));
    c.quiet = true;
    assert_eq!(stream_step(&c, &h), None);
    let d = cli();
    assert_eq!(stream_finish(&d, 0), (None, true));
}
