use minigrep_rd::{search, search_case_insensitive};

#[test]
fn empty_query_returns_every_line_in_order() {
    let contents = "first\nsecond\nthird";
    let all = vec!["first", "second", "third"];
    assert_eq!(all, search("", contents));
    assert_eq!(all, search_case_insensitive("", contents));
}

#[test]
fn empty_contents_yield_no_matches() {
    let empty: Vec<&str> = Vec::new();
    assert_eq!(empty, search("needle", ""));
    assert_eq!(empty, search_case_insensitive("needle", ""));
}

#[test]
fn search_twice_returns_identical_output() {
    let query = "pair";
    let contents = "Are you nobody, too?\nThen there's a pair of us - don't tell!";
    assert_eq!(search(query, contents), search(query, contents));
    assert_eq!(
        search_case_insensitive(query, contents),
        search_case_insensitive(query, contents)
    );
}

#[test]
fn every_case_sensitive_match_also_matches_case_insensitively() {
    let query = "banish";
    let contents = "They'd banish us, you know.\nThey'd BANISH us anyway.\nvanish";
    let sensitive = search(query, contents);
    let insensitive = search_case_insensitive(query, contents);
    assert_eq!(vec!["They'd banish us, you know."], sensitive);
    assert_eq!(
        vec!["They'd banish us, you know.", "They'd BANISH us anyway."],
        insensitive
    );
    for line in &sensitive {
        assert!(insensitive.contains(line));
    }
}

#[test]
fn crlf_terminators_are_not_part_of_the_lines() {
    let contents = "one\r\ntwo\r\nthree";
    assert_eq!(vec!["one", "two", "three"], search("", contents));
    assert_eq!(vec!["two"], search("two", contents));
}

#[test]
fn lone_carriage_return_does_not_end_a_line() {
    let contents = "a\rb\nc";
    assert_eq!(vec!["a\rb", "c"], search("", contents));
    assert_eq!(vec!["a\rb"], search("a\rb", contents));
}

#[test]
fn final_line_without_terminator_is_included() {
    assert_eq!(vec!["tail"], search("tail", "head\ntail"));
}

#[test]
fn empty_segment_after_final_terminator_is_not_a_line() {
    assert_eq!(vec!["head"], search("", "head\n"));
}

#[test]
fn repeated_lines_are_each_reported() {
    let contents = "echo\nother\necho";
    assert_eq!(vec!["echo", "echo"], search("echo", contents));
}

#[test]
fn case_insensitive_match_keeps_original_spelling() {
    let contents = "ThE QuIcK bRoWn FoX";
    assert_eq!(
        vec!["ThE QuIcK bRoWn FoX"],
        search_case_insensitive("quick brown", contents)
    );
}

#[test]
fn ascii_case_folding_leaves_other_characters_alone() {
    let contents = "Stra\u{df}e 42\nstras se";
    assert_eq!(
        vec!["Stra\u{df}e 42"],
        search_case_insensitive("stra\u{df}e", contents)
    );
}

#[test]
fn case_sensitive_search_respects_case_exactly() {
    let contents = "Banished\nvanish";
    let empty: Vec<&str> = Vec::new();
    assert_eq!(empty, search("banish", contents));
}
