use minigrep_rd::{search, search_case_insensitive};

#[test]
fn case_insensitive_search_finds_one_line() {
    let query = "Banish";
    // Backslash tells Rust that it should ignore the first New line
    let contents = "\
            Are you nobody, too?
Then there's a pair of us - don't tell!
They'd banish us, you know.
        ";

    assert_eq!(
        vec!["They'd banish us, you know."],
        search_case_insensitive(query, contents)
    );
}

#[test]
fn case_insensitive_search_finds_multiple_lines() {
    let query = "Banish";
    // Backslash tells Rust that it should ignore the first New line
    let contents = "\
            Are you baNiShed, too?
Then there's a pair of us - don't tell!
They'd banish us, you know.
        ";

    assert_eq!(
        vec!["Are you baNiShed, too?", "They'd banish us, you know."],
        search_case_insensitive(query, contents)
    );
}

#[test]
fn case_insensitive_search_returns_empty_list_if_no_results_found() {
    let query = "banish";
    // Backslash tells Rust that it should ignore the first New line
    let contents = "\
            Are you nobody, too?
Then there's a pair of us - don't tell!
They'd vanish us, you know.
        ";

    let empty_vec: Vec<&str> = Vec::new();
    assert_eq!(empty_vec, search_case_insensitive(query, contents));
}

#[test]
fn case_sensitive_search_finds_one_line() {
    let query = "banish";
    // Backslash tells Rust that it should ignore the first New line
    let contents = "\
            Are you Banished, too?
Then there's a pair of us - don't tell!
They'd banish us, you know.
        ";

    assert_eq!(vec!["They'd banish us, you know."], search(query, contents));
}

#[test]
fn case_sensitive_search_finds_multiple_lines() {
    let query = "banish";
    // Backslash tells Rust that it should ignore the first New line
    let contents = "\
            Are you banished, too?
Then there's a pair of us - don't tell!
They'd banish us, you know.
        ";

    assert_eq!(
        vec!["Are you banished, too?", "They'd banish us, you know."],
        search(query, contents)
    );
}

#[test]
fn case_sensitive_search_returns_empty_list_if_no_results_found() {
    let query = "banish";
    // Backslash tells Rust that it should ignore the first New line
    let contents = "\
            Are you nobody, too?
Then there's a pair of us - don't tell!
They'd vanish us, you know.
        ";

    let empty_vec: Vec<&str> = Vec::new();
    assert_eq!(empty_vec, search(query, contents));
}
