use minigrep::text::{find_byte, same_text, split_around};
use minigrep::lines::strip_return;
use minigrep::{run, Config, ConfigError};

fn args(items: &[&str]) -> Vec<String> {
    items.iter().map(|s| s.to_string()).collect()
}

#[test]
fn ignore_flag_wins_whatever_the_environment() {
    let given = args(&["foo", "bar.txt", "ignore"]);
    let with_env = Config::build(&given, true).unwrap();
    let without_env = Config::build(&given, false).unwrap();
    assert!(with_env.ignore_case);
    assert!(without_env.ignore_case);
    assert_eq!(without_env.query, "foo");
    assert_eq!(without_env.file_path, "bar.txt");
}

#[test]
fn other_third_argument_falls_back_to_the_environment() {
    let given = args(&["foo", "bar.txt", "xyz"]);
    assert!(!Config::build(&given, false).unwrap().ignore_case);
    assert!(Config::build(&given, true).unwrap().ignore_case);
}

#[test]
fn absent_third_argument_falls_back_to_the_environment() {
    let given = args(&["foo", "bar.txt"]);
    assert!(!Config::build(&given, false).unwrap().ignore_case);
    assert!(Config::build(&given, true).unwrap().ignore_case);
}

#[test]
fn flag_is_compared_exactly() {
    for flag in ["Ignore", "IGNORE", "ignore ", "ignor", "ignored", ""] {
        let given = args(&["foo", "bar.txt", flag]);
        assert!(!Config::build(&given, false).unwrap().ignore_case);
    }
}

#[test]
fn arguments_after_the_third_are_ignored() {
    let given = args(&["foo", "bar.txt", "xyz", "ignore"]);
    let config = Config::build(&given, false).unwrap();
    assert!(!config.ignore_case);
    assert_eq!(config.query, "foo");
    assert_eq!(config.file_path, "bar.txt");
    let given = args(&["foo", "bar.txt", "ignore", "more", "still more"]);
    assert!(Config::build(&given, false).unwrap().ignore_case);
}

#[test]
fn one_argument_is_not_enough() {
    let given = args(&["foo"]);
    assert_eq!(
        Config::build(&given, false).unwrap_err(),
        ConfigError::InsufficientArguments
    );
    assert_eq!(
        Config::build(&given, true).unwrap_err(),
        ConfigError::InsufficientArguments
    );
}

#[test]
fn no_argument_is_not_enough() {
    let given: Vec<String> = Vec::new();
    assert_eq!(
        Config::build(&given, false).unwrap_err(),
        ConfigError::InsufficientArguments
    );
}

#[test]
fn file_path_is_not_looked_at() {
    let given = args(&["", "/no/such/file"]);
    let config = Config::build(&given, false).unwrap();
    assert_eq!(config.query, "");
    assert_eq!(config.file_path, "/no/such/file");
}

#[test]
fn error_has_a_message() {
    assert_eq!(ConfigError::InsufficientArguments.message(), "Not enough arguments.");
}

#[test]
fn run_searches_in_the_mode_of_the_configuration() {
    let contents = "Rust:\nsafe, fast, productive.\nPick three.\nTrust me.";
    let exact = Config::build(&args(&["rUsT", "poem.txt"]), false).unwrap();
    let folded = Config::build(&args(&["rUsT", "poem.txt", "ignore"]), false).unwrap();
    let none: Vec<&str> = Vec::new();
    assert_eq!(run(&exact, contents), none);
    assert_eq!(run(&folded, contents), vec!["Rust:", "Trust me."]);
}

#[test]
fn same_text_tells_equal_strings() {
    assert!(same_text("ignore", "ignore"));
    assert!(!same_text("ignore", "Ignore"));
    assert!(!same_text("ignore", "ignor"));
    assert!(!same_text("ignor", "ignore"));
    assert!(same_text("", ""));
    assert!(same_text("\u{e9}", "\u{e9}"));
    assert!(!same_text("\u{e9}", "e\u{301}"));
}

#[test]
fn find_byte_gives_the_first_place() {
    assert_eq!(find_byte(b"a\nb\n", b'\n'), 1);
    assert_eq!(find_byte(b"\n", b'\n'), 0);
    assert_eq!(find_byte(b"abc", b'\n'), 3);
    assert_eq!(find_byte(b"", b'\n'), 0);
}

#[test]
fn split_around_leaves_the_byte_out() {
    assert_eq!(split_around("key=value", 3), ("key", "value"));
    assert_eq!(split_around("=", 0), ("", ""));
    assert_eq!(split_around("\u{e9}\n\u{e8}", 2), ("\u{e9}", "\u{e8}"));
}

#[test]
fn strip_return_drops_one_final_return() {
    assert_eq!(strip_return("abc\r"), "abc");
    assert_eq!(strip_return("abc\r\r"), "abc\r");
    assert_eq!(strip_return("abc"), "abc");
    assert_eq!(strip_return("\rabc"), "\rabc");
    assert_eq!(strip_return("\r"), "");
    assert_eq!(strip_return(""), "");
}
