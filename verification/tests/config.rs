use grep_redo::Controller;
use grep_redo::{Config, InputSource};

fn args(v: &[&str]) -> Vec<String> {
    v.iter().map(|s| s.to_string()).collect()
}

#[test]
fn test_config_new() {
    let args = vec![
        "program".to_string(),
        "-u".to_string(),
        "target".to_string(),
        "output.txt".to_string(),
    ];
    let config = Config::new(&args).unwrap();
    assert_eq!(config.controller, Controller::CHECK_UPPER, "Expected controller to have CHECK_UPPER flag set");
    assert_eq!(config.target, "target", "Expected target to be 'target'");
}

#[test]
fn test_config_new_combined_flags() {
    let args = vec![
        "program".to_string(),
        "-l".to_string(),
        "-a".to_string(),
        "target".to_string(),
    ];
    let config = Config::new(&args).unwrap();
    assert_eq!(config.controller, Controller::SHOW_LINE | Controller::SHOW_ALL);
}

#[test]
fn config_long_options_and_file() {
    let c = Config::new(&args(&["p", "--upper", "needle", "--line", "notes.txt", "--all"])).unwrap();
    assert_eq!(c.controller, 7);
    assert_eq!(c.target, "needle");
    assert!(matches!(c.filesource, InputSource::File(ref f) if f == "notes.txt"));
}

#[test]
fn config_target_only_reads_stdin() {
    let c = Config::new(&args(&["p", "x"])).unwrap();
    assert!(matches!(c.filesource, InputSource::Stdin));
    assert_eq!(c.controller, Controller::DEFAULT);
}

#[test]
fn config_errors() {
    assert_eq!(Config::new(&args(&["p"])).err(), Some("No target specified"));
    assert_eq!(Config::new(&args(&[])).err(), Some("No target specified"));
    assert_eq!(Config::new(&args(&["p", "-u", "-a"])).err(), Some("No target specified"));
    assert_eq!(Config::new(&args(&["p", "a", "b", "c"])).err(), Some("Too many arguments"));
    assert_eq!(Config::new(&args(&["p", "x", "a***"])).err(), Some("Invalid glob pattern"));
    assert_eq!(
        Config::new(&args(&["p", "x", "/no_such_dir_for_this_search/*.txt"])).err(),
        Some("No files matched the glob pattern")
    );
}

#[test]
fn config_option_anywhere() {
    let a = Config::new(&args(&["p", "t", "-u", "f"])).unwrap();
    let b = Config::new(&args(&["p", "-u", "t", "f"])).unwrap();
    assert_eq!(a.controller, b.controller);
    assert_eq!(a.target, b.target);
    assert!(matches!(a.filesource, InputSource::File(ref f) if f == "f"));
}

#[test]
fn config_from_glob_entries() {
    let one = Config::from_glob_entries("t".to_string(), 2, vec![None, Some("a.txt".to_string())]).unwrap();
    assert!(matches!(one.filesource, InputSource::File(ref f) if f == "a.txt"));
    assert_eq!(one.controller, 2);
    let two = Config::from_glob_entries("t".to_string(), 0, vec![Some("a".to_string()), None, Some("b".to_string())]).unwrap();
    assert!(matches!(two.filesource, InputSource::Files(ref v) if v == &vec!["a".to_string(), "b".to_string()]));
    assert_eq!(
        Config::from_glob_entries("t".to_string(), 0, vec![None]).err(),
        Some("No files matched the glob pattern")
    );
}

#[test]
fn config_flag_values() {
    assert_eq!(grep_redo::flag_value("-u"), Controller::CHECK_UPPER);
    assert_eq!(grep_redo::flag_value("--line"), Controller::SHOW_LINE);
    assert_eq!(grep_redo::flag_value("-a"), Controller::SHOW_ALL);
    assert_eq!(grep_redo::flag_value("-x"), 0);
    assert!(grep_redo::is_glob_path("*.rs"));
    assert!(grep_redo::is_glob_path("a?"));
    assert!(grep_redo::is_glob_path("[ab]"));
    assert!(!grep_redo::is_glob_path("plain.txt"));
}
