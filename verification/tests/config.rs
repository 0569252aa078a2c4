use minigrep_rd::{matching_lines, search, search_case_insensitive, Config};

fn args_of(parts: &[&str]) -> Vec<String> {
    parts.iter().map(|part| part.to_string()).collect()
}

#[test]
fn build_with_two_arguments_succeeds() {
    let args = args_of(&["program", "needle", "poem.txt"]);
    let config = match Config::build(&args, false) {
        Ok(config) => config,
        Err(message) => panic!("unexpected error: {message}"),
    };
    assert_eq!(config.query().as_str(), "needle");
    assert_eq!(config.file_path().as_str(), "poem.txt");
    assert_eq!(*config.ignore_case(), false);
}

#[test]
fn build_keeps_the_ignore_case_flag() {
    let args = args_of(&["program", "needle", "poem.txt"]);
    let config = match Config::build(&args, true) {
        Ok(config) => config,
        Err(message) => panic!("unexpected error: {message}"),
    };
    assert_eq!(*config.ignore_case(), true);
}

#[test]
fn build_ignores_extra_arguments() {
    let args = args_of(&["program", "needle", "poem.txt", "extra", "more"]);
    let config = match Config::build(&args, false) {
        Ok(config) => config,
        Err(message) => panic!("unexpected error: {message}"),
    };
    assert_eq!(config.query().as_str(), "needle");
    assert_eq!(config.file_path().as_str(), "poem.txt");
}

#[test]
fn build_without_arguments_reports_the_missing_query() {
    let args = args_of(&["program"]);
    match Config::build(&args, false) {
        Err(message) => assert_eq!(message, "Please enter query as 1st argument"),
        Ok(_) => panic!("expected an error"),
    }
}

#[test]
fn build_with_only_a_query_reports_the_missing_file_path() {
    let args = args_of(&["program", "needle"]);
    match Config::build(&args, false) {
        Err(message) => assert_eq!(message, "Please enter file path as 2nd argument"),
        Ok(_) => panic!("expected an error"),
    }
}

#[test]
fn the_two_missing_argument_reports_differ() {
    let no_query = match Config::build(&args_of(&["program"]), false) {
        Err(message) => message,
        Ok(_) => panic!("expected an error"),
    };
    let no_path = match Config::build(&args_of(&["program", "needle"]), false) {
        Err(message) => message,
        Ok(_) => panic!("expected an error"),
    };
    assert_ne!(no_query, no_path);
}

#[test]
fn matching_lines_dispatches_on_the_flag() {
    let contents = "They'd Banish us, you know.\nThey'd banish us, you know.";
    let args = args_of(&["program", "banish", "poem.txt"]);
    let sensitive_config = match Config::build(&args, false) {
        Ok(config) => config,
        Err(message) => panic!("unexpected error: {message}"),
    };
    let insensitive_config = match Config::build(&args, true) {
        Ok(config) => config,
        Err(message) => panic!("unexpected error: {message}"),
    };
    assert_eq!(
        search("banish", contents),
        matching_lines(&sensitive_config, contents)
    );
    assert_eq!(
        search_case_insensitive("banish", contents),
        matching_lines(&insensitive_config, contents)
    );
    assert_eq!(
        vec!["They'd banish us, you know."],
        matching_lines(&sensitive_config, contents)
    );
    assert_eq!(
        vec!["They'd Banish us, you know.", "They'd banish us, you know."],
        matching_lines(&insensitive_config, contents)
    );
}
