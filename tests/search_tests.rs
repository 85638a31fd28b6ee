use minigrep::lines::{contains, lines};
use minigrep::{search, search_case_insensitive};

#[test]
fn case_sensitive() {
    let query = "duct";
    let contents = "\
Rust:
safe, fast, productive.
Duct tape.";

    assert_eq!(vec!["safe, fast, productive."], search(query, contents));
}

#[test]
fn case_insensitive() {
    let query = "rUst";
    let contents = "\
Rust:
safe, fast, productive.
Trust me.";

    assert_eq!(vec!["Rust:", "Trust me."], search_case_insensitive(query, contents));
}

#[test]
fn exact_search_matches_inside_words() {
    let contents = "Line one: safe, fast, productive.\nDuct tape fixes.\nTrust the plan.";
    assert_eq!(vec!["Line one: safe, fast, productive."], search("duct", contents));
}

#[test]
fn case_blind_search_finds_one_line() {
    let contents = "Line one: safe, fast, productive.\nDuct tape fixes.\nTrust the plan.";
    assert_eq!(vec!["Trust the plan."], search_case_insensitive("ust", contents));
}

#[test]
fn no_match_gives_empty_result() {
    let empty: Vec<&str> = Vec::new();
    assert_eq!(empty, search("xyz", "abc\ndef"));
    assert_eq!(empty, search_case_insensitive("xyz", "abc\ndef"));
}

#[test]
fn empty_query_keeps_every_line() {
    let contents = "one\ntwo\n\nthree";
    assert_eq!(vec!["one", "two", "", "three"], search("", contents));
    assert_eq!(vec!["one", "two", "", "three"], search_case_insensitive("", contents));
}

#[test]
fn case_blind_result_holds_exact_result() {
    let contents = "Rust:\nrust\nTRUST\nnothing";
    let exact = search("rust", contents);
    let blind = search_case_insensitive("rust", contents);
    assert_eq!(vec!["rust"], exact);
    assert_eq!(vec!["Rust:", "rust", "TRUST"], blind);
    for line in &exact {
        assert!(blind.contains(line));
    }
}

#[test]
fn duplicate_lines_are_kept() {
    assert_eq!(vec!["ab", "ab"], search("a", "ab\nxy\nab"));
}

#[test]
fn lines_drop_terminators() {
    assert_eq!(vec!["a", "b", "", "c\r"], lines("a\r\nb\n\r\nc\r"));
    assert_eq!(vec!["a", ""], lines("a\n\n"));
    let none: Vec<&str> = Vec::new();
    assert_eq!(none, lines(""));
    assert_eq!(vec![""], lines("\n"));
}

#[test]
fn contains_finds_runs_of_bytes() {
    assert!(contains("productive", "duct"));
    assert!(contains("abc", ""));
    assert!(contains("", ""));
    assert!(!contains("ab", "abc"));
    assert!(!contains("Duct", "duct"));
    assert!(contains("ßtraße", "raß"));
}

#[test]
fn case_blind_search_lowers_non_ascii() {
    assert_eq!(vec!["STRAẞE"], search_case_insensitive("straße", "STRAẞE\nweg"));
}

#[test]
fn final_sigma_lowers_in_context() {
    assert_eq!(vec!["ΑΣ"], search("Σ", "ΑΣ"));
    let none: Vec<&str> = Vec::new();
    assert_eq!(none, search_case_insensitive("Σ", "ΑΣ"));
}
