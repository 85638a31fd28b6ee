use minigrep::{highlight_query, run, Config, Pattern, PatternError};

fn config(query: &str, ignore_case: bool) -> Config {
    Config { query: query.to_string(), file_path: "f".to_string(), ignore_case }
}

#[test]
fn every_match_is_wrapped() {
    assert_eq!(
        Ok("a\x1b[31mb\x1b[0mc\x1b[31mb\x1b[0m".to_string()),
        highlight_query("abcb", "b", false)
    );
}

#[test]
fn case_rule_applies_to_marks() {
    assert_eq!(
        Ok("Tr\x1b[31must\x1b[0m the plan.".to_string()),
        highlight_query("Trust the plan.", "UST", true)
    );
    assert_eq!(Ok("Trust the plan.".to_string()), highlight_query("Trust the plan.", "UST", false));
}

#[test]
fn matches_do_not_overlap() {
    assert_eq!(Ok("\x1b[31maa\x1b[0ma".to_string()), highlight_query("aaa", "aa", false));
}

#[test]
fn marking_twice_keeps_earlier_marks() {
    let pattern = Pattern::new("duct", false).unwrap();
    let once = pattern.highlight("productive");
    assert_eq!("pro\x1b[31mduct\x1b[0mive", once);
    let twice = pattern.highlight(&once);
    assert_eq!("pro\x1b[31m\x1b[31mduct\x1b[0m\x1b[0mive", twice);
    let other = Pattern::new("ive", false).unwrap();
    assert_eq!("pro\x1b[31mduct\x1b[0m\x1b[31mive\x1b[0m", other.highlight(&once));
}

#[test]
fn invalid_pattern_is_an_error() {
    assert_eq!(Err(PatternError), highlight_query("a(b", "(", false));
    assert!(Pattern::new("[", true).is_err());
}

#[test]
fn run_selects_and_marks() {
    let contents = "Line one: safe, fast, productive.\nDuct tape fixes.\nTrust the plan.";
    assert_eq!(
        Ok(vec!["Line one: safe, fast, pro\x1b[31mduct\x1b[0mive.".to_string()]),
        run(&config("duct", false), contents, true)
    );
    assert_eq!(
        Ok(vec![
            "Line one: safe, fast, productive.".to_string(),
            "Duct tape fixes.".to_string()
        ]),
        run(&config("duct", true), contents, false)
    );
    assert_eq!(Ok(Vec::new()), run(&config("xyz", false), "abc\ndef", true));
}

#[test]
fn run_fails_on_invalid_pattern_only_when_marking() {
    assert_eq!(Err(PatternError), run(&config("(", false), "a(b", true));
    assert_eq!(Ok(vec!["a(b".to_string()]), run(&config("(", false), "a(b", false));
}
