use minigrep::{contains, search, search_case_insensitive, search_lines, select_lines, split_lines};

#[test]
fn case_sensitive() {
    let query: &str = "duct";
    let contents: &str = "\
Rust:
safe, fast, productive.
Pick three.
Duct tape.";

    assert_eq!(
        vec!["safe, fast, productive."],
        search(query, contents)
    );
}

#[test]
fn case_insensitive() {
    let query = "rUsT";
    let contents = "\
Rust:
safe, fast, productive.
Pick three.
Trust me.";

    assert_eq!(
        vec!["Rust:", "Trust me."],
        search_case_insensitive(query, contents)
    );
}

#[test]
fn unified_search_agrees_with_both_entry_points() {
    let contents = "Rust:\nsafe, fast, productive.\nPick three.\nDuct tape.\nTrust me.";
    assert_eq!(search_lines("duct", contents, false), search("duct", contents));
    assert_eq!(
        search_lines("duct", contents, true),
        search_case_insensitive("duct", contents)
    );
    assert_eq!(search_lines("duct", contents, false), vec!["safe, fast, productive."]);
    assert_eq!(
        search_lines("duct", contents, true),
        vec!["safe, fast, productive.", "Duct tape."]
    );
}

#[test]
fn returned_lines_hold_the_query_and_the_others_do_not() {
    let contents = "alpha\nbeta\nalphabet\n\ngamma beta\nAlpha";
    let query = "alpha";
    let found = search(query, contents);
    assert_eq!(found, vec!["alpha", "alphabet"]);
    for line in contents.lines() {
        assert_eq!(found.contains(&line), line.contains(query));
    }
}

#[test]
fn folded_search_returns_the_lines_whose_lowercase_holds_the_lowercase_query() {
    let contents = "ALPHA\nbeta\nAlPhAbet\n\ngamma BETA\nalpha";
    let query = "aLpHa";
    let found = search_case_insensitive(query, contents);
    assert_eq!(found, vec!["ALPHA", "AlPhAbet", "alpha"]);
    let folded = query.to_lowercase();
    for line in contents.lines() {
        assert_eq!(found.contains(&line), line.to_lowercase().contains(&folded));
    }
}

#[test]
fn returned_lines_keep_their_letter_case() {
    assert_eq!(search_case_insensitive("TAPE", "Duct Tape.\nno"), vec!["Duct Tape."]);
}

#[test]
fn searching_twice_gives_the_same_result() {
    let contents = "one\ntwo\nthree\ntwo one\n";
    assert_eq!(search("one", contents), search("one", contents));
    assert_eq!(
        search_case_insensitive("ONE", contents),
        search_case_insensitive("ONE", contents)
    );
    assert_eq!(search("one", contents), vec!["one", "two one"]);
}

#[test]
fn empty_query_returns_every_line() {
    let contents = "first\n\nthird\n\n";
    let all = vec!["first", "", "third", ""];
    assert_eq!(search("", contents), all);
    assert_eq!(search_case_insensitive("", contents), all);
    assert_eq!(search_lines("", contents, false), all);
    assert_eq!(search_lines("", contents, true), all);
}

#[test]
fn absent_query_returns_no_line() {
    let none: Vec<&str> = Vec::new();
    assert_eq!(search("xyz", "abc\ndef"), none);
    assert_eq!(search_case_insensitive("xyz", "abc\ndef"), none);
}

#[test]
fn empty_contents_have_no_line() {
    let none: Vec<&str> = Vec::new();
    assert_eq!(search("", ""), none);
    assert_eq!(search("a", ""), none);
    assert_eq!(search_case_insensitive("", ""), none);
}

#[test]
fn a_line_with_several_matches_is_returned_once() {
    assert_eq!(search("an", "banana\nan\nbn"), vec!["banana", "an"]);
}

#[test]
fn equal_lines_are_each_returned() {
    assert_eq!(search("x", "x\ny\nx\nx"), vec!["x", "x", "x"]);
}

#[test]
fn ignoring_case_adds_lines_for_plain_letters() {
    let contents = "Rust:\nsafe, fast, productive.\nPick three.\nDuct tape.";
    let exact = search("Duct", contents);
    let folded = search_case_insensitive("Duct", contents);
    assert_eq!(exact, vec!["Duct tape."]);
    assert_eq!(folded, vec!["safe, fast, productive.", "Duct tape."]);
    for line in &exact {
        assert!(folded.contains(line));
    }
}

#[test]
fn final_sigma_folds_by_its_neighbours() {
    let contents = "\u{391}\u{3a3}\u{391}";
    let query = "\u{391}\u{3a3}";
    assert_eq!(search(query, contents), vec![contents]);
    let none: Vec<&str> = Vec::new();
    assert_eq!(search_case_insensitive(query, contents), none);
}

#[test]
fn folding_reaches_beyond_ascii() {
    assert_eq!(
        search_case_insensitive("\u{fc}ber", "\u{dc}BER uns\nuber"),
        vec!["\u{dc}BER uns"]
    );
    let none: Vec<&str> = Vec::new();
    assert_eq!(search("\u{fc}ber", "\u{dc}BER uns\nuber"), none);
}

#[test]
fn select_lines_takes_the_needle_as_given() {
    let lines = vec!["Rust:", "trust", "TRUST"];
    assert_eq!(select_lines(&lines, "rust", false), vec!["trust"]);
    assert_eq!(select_lines(&lines, "rust", true), vec!["Rust:", "trust", "TRUST"]);
    let none: Vec<&str> = Vec::new();
    assert_eq!(select_lines(&lines, "RUST", true), none);
    assert_eq!(select_lines(&lines, "", true), lines);
}

#[test]
fn contains_finds_runs_of_characters() {
    assert!(contains("safe, fast, productive.", "duct"));
    assert!(!contains("Duct tape.", "duct"));
    assert!(contains("abc", "abc"));
    assert!(contains("abc", "a"));
    assert!(contains("abc", "c"));
    assert!(!contains("abc", "abcd"));
    assert!(!contains("abc", "ac"));
    assert!(contains("aab", "ab"));
    assert!(contains("abc", ""));
    assert!(contains("", ""));
    assert!(!contains("", "a"));
}

#[test]
fn contains_works_on_characters_of_several_bytes() {
    assert!(contains("h\u{e9}llo w\u{f6}rld", "w\u{f6}r"));
    assert!(contains("\u{65e5}\u{672c}\u{8a9e}", "\u{672c}"));
    assert!(!contains("\u{65e5}\u{672c}\u{8a9e}", "\u{672d}"));
    assert!(contains("a\u{1f600}b", "\u{1f600}b"));
    assert!(!contains("\u{e9}", "\u{e8}"));
}

#[test]
fn split_lines_cuts_at_line_feeds() {
    assert_eq!(split_lines("a\nb\nc"), vec!["a", "b", "c"]);
    assert_eq!(split_lines("a\nb\n"), vec!["a", "b"]);
    assert_eq!(split_lines("a\n\nb"), vec!["a", "", "b"]);
    assert_eq!(split_lines("\n"), vec![""]);
    assert_eq!(split_lines("\n\n"), vec!["", ""]);
    assert_eq!(split_lines("abc"), vec!["abc"]);
    let none: Vec<&str> = Vec::new();
    assert_eq!(split_lines(""), none);
}

#[test]
fn split_lines_drops_a_return_before_a_line_feed() {
    assert_eq!(split_lines("a\r\nb\r\n"), vec!["a", "b"]);
    assert_eq!(split_lines("a\r\r\nb"), vec!["a\r", "b"]);
    assert_eq!(split_lines("a\rb\nc"), vec!["a\rb", "c"]);
    assert_eq!(split_lines("a\nb\r"), vec!["a", "b\r"]);
    assert_eq!(split_lines("\r\n"), vec![""]);
    assert_eq!(split_lines("\r"), vec!["\r"]);
}

#[test]
fn split_lines_agrees_with_the_standard_library() {
    let samples = [
        "",
        "\n",
        "\r\n",
        "one",
        "one\n",
        "one\r\ntwo\n\nthree\r",
        "h\u{e9}\nw\u{f6}\r\n\u{65e5}\u{672c}",
        "\n\n\r\n\r\r\n",
    ];
    for text in samples {
        let expected: Vec<&str> = text.lines().collect();
        assert_eq!(split_lines(text), expected);
    }
}
