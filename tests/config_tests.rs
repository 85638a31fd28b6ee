use minigrep::{Config, ConfigError};

fn strings(items: &[&str]) -> Vec<String> {
    items.iter().map(|s| s.to_string()).collect()
}

#[test]
fn should_fail() {
    let result_no_args = Config::build(Vec::new(), false);
    let result_one_arg = Config::build(vec![String::from("arg1")], false);
    let result_two_args = Config::build(vec![String::from("arg1"), String::from("arg2")], false);

    assert!(result_no_args.is_err(), "{}", "Didn't get a query string");
    assert!(result_one_arg.is_err(), "{}", "Didn't get a query string");
    assert!(result_two_args.is_err(), "{}", "Didn't get a file path");
}

#[test]
fn case_insensitive_arg() {
    let args = vec![
        String::from("arg"),
        String::from("man"),
        String::from("./example"),
        String::from("-i"),
    ];
    let config = Config::build(args, false).unwrap();

    assert_eq!(config.ignore_case, true);
}

#[test]
fn missing_inputs_name_what_is_missing() {
    assert_eq!(Some(ConfigError::MissingQuery), Config::build(strings(&[]), true).err());
    assert_eq!(Some(ConfigError::MissingQuery), Config::build(strings(&["prog"]), true).err());
    assert_eq!(
        Some(ConfigError::MissingFilePath),
        Config::build(strings(&["prog", "q"]), true).err()
    );
    assert_eq!("Didn't get a query string", ConfigError::MissingQuery.message());
    assert_eq!("Didn't get a file path", ConfigError::MissingFilePath.message());
}

#[test]
fn inputs_fill_the_config() {
    let config = Config::build(strings(&["prog", "needle", "poem.txt"]), false).unwrap();
    assert_eq!("needle", config.query);
    assert_eq!("poem.txt", config.file_path);
    assert!(!config.ignore_case);
}

#[test]
fn environment_indicator_alone_ignores_case() {
    let config = Config::build(strings(&["prog", "q", "f"]), true).unwrap();
    assert!(config.ignore_case);
}

#[test]
fn explicit_flag_wins_over_environment() {
    let flagged = Config::build(strings(&["prog", "q", "f", "-i"]), false).unwrap();
    assert!(flagged.ignore_case);
    let other = Config::build(strings(&["prog", "q", "f", "-x"]), true).unwrap();
    assert!(!other.ignore_case);
}
