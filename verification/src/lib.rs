//! A small line-oriented substring search library.
//!
//! A `Config` couples a query string, a file path and a case-sensitivity
//! flag; `search` and `search_case_insensitive` return the lines of a text
//! that contain the query, in their original order and with their original
//! spelling. Case-insensitive matching folds both sides with the ASCII
//! lower-case mapping. Reading the file and printing the matches is left
//! to the caller; everything here is pure computation over in-memory text.

pub mod text;

use vstd::prelude::*;

use crate::text::contains_chars;
use crate::text::contains_str;
use crate::text::contains_str_fold;
use crate::text::fold_chars;
use crate::text::line_seq;
use crate::text::occurs_at;
use crate::text::split_lines;

verus! {

/// A line matches `query` exactly when it contains it as a contiguous
/// substring.
pub open spec fn line_matches(line: Seq<char>, query: Seq<char>) -> bool {
    contains_chars(line, query)
}

/// A line matches `query` up to ASCII case when the folded line contains
/// the folded query.
pub open spec fn line_matches_fold(line: Seq<char>, query: Seq<char>) -> bool {
    contains_chars(fold_chars(line), fold_chars(query))
}

/// The lines among `lines` that contain `query` exactly, keeping their
/// relative order.
pub open spec fn matching(lines: Seq<Seq<char>>, query: Seq<char>) -> Seq<Seq<char>> {
    lines.filter(|line: Seq<char>| line_matches(line, query))
}

/// The lines among `lines` that contain `query` up to ASCII case, keeping
/// their relative order.
pub open spec fn matching_fold(lines: Seq<Seq<char>>, query: Seq<char>) -> Seq<Seq<char>> {
    lines.filter(|line: Seq<char>| line_matches_fold(line, query))
}

/// What case-sensitive search returns: the lines of `contents` that
/// contain `query`, in original order.
pub open spec fn search_results(query: Seq<char>, contents: Seq<char>) -> Seq<Seq<char>> {
    matching(line_seq(contents), query)
}

/// What case-insensitive search returns: the lines of `contents` that
/// contain `query` up to ASCII case, in original order, each with its
/// original spelling.
pub open spec fn search_results_fold(query: Seq<char>, contents: Seq<char>) -> Seq<Seq<char>> {
    matching_fold(line_seq(contents), query)
}

/// One step of both filters: the selection over a nonempty sequence of
/// lines is the selection over all but the last, extended by the last line
/// exactly when it matches.
proof fn lemma_matching_push(lines: Seq<Seq<char>>, query: Seq<char>)
    requires
        lines.len() > 0,
    ensures
        matching(lines, query) == (if line_matches(lines.last(), query) {
            matching(lines.drop_last(), query).push(lines.last())
        } else {
            matching(lines.drop_last(), query)
        }),
        matching_fold(lines, query) == (if line_matches_fold(lines.last(), query) {
            matching_fold(lines.drop_last(), query).push(lines.last())
        } else {
            matching_fold(lines.drop_last(), query)
        }),
{
    reveal(Seq::filter);
}

/// A filtered sequence is a subsequence of the original: its elements
/// stand at strictly increasing positions of the original sequence.
proof fn lemma_filter_subsequence<A>(s: Seq<A>, pred: spec_fn(A) -> bool) -> (positions: Seq<
    int,
>)
    ensures
        positions.len() == s.filter(pred).len(),
        forall|k: int| 0 <= k < positions.len() ==> 0 <= #[trigger] positions[k] < s.len(),
        forall|k: int| 0 <= k < positions.len() ==> s.filter(pred)[k] == s[#[trigger] positions[
            k
        ]],
        forall|k: int| 0 <= k < positions.len() - 1 ==> #[trigger] positions[k] < positions[k
            + 1],
    decreases s.len(),
{
    reveal(Seq::filter);
    if s.len() == 0 {
        Seq::empty()
    } else {
        let prefix = lemma_filter_subsequence(s.drop_last(), pred);
        assert forall|k: int| 0 <= k < prefix.len() implies s.drop_last()[#[trigger] prefix[k]]
            == s[prefix[k]] by {}
        if pred(s.last()) {
            let positions = prefix.push(s.len() - 1);
            assert(s.filter(pred) == s.drop_last().filter(pred).push(s.last()));
            assert forall|k: int| 0 <= k < positions.len() implies s.filter(pred)[k]
                == s[#[trigger] positions[k]] by {}
            positions
        } else {
            prefix
        }
    }
}

/// Case-sensitive search is exact: every returned line contains the query,
/// every line of the text that contains the query is returned, and the
/// returned lines stand at strictly increasing positions of the text's
/// lines, so their original order is kept.
pub proof fn lemma_search_results_exact(query: Seq<char>, contents: Seq<char>) -> (positions: Seq<
    int,
>)
    ensures
        forall|i: int| 0 <= i < search_results(query, contents).len() ==> line_matches(
            #[trigger] search_results(query, contents)[i],
            query,
        ),
        forall|j: int| 0 <= j < line_seq(contents).len() && line_matches(
            line_seq(contents)[j],
            query,
        ) ==> search_results(query, contents).contains(#[trigger] line_seq(contents)[j]),
        positions.len() == search_results(query, contents).len(),
        forall|k: int| 0 <= k < positions.len() ==> 0 <= #[trigger] positions[k] < line_seq(
            contents,
        ).len(),
        forall|k: int| 0 <= k < positions.len() ==> search_results(query, contents)[k] == line_seq(
            contents,
        )[#[trigger] positions[k]],
        forall|k: int| 0 <= k < positions.len() - 1 ==> #[trigger] positions[k] < positions[k
            + 1],
{
    broadcast use vstd::seq_lib::group_filter_ensures;

    let lines = line_seq(contents);
    let pred = |line: Seq<char>| line_matches(line, query);
    assert forall|j: int|
        0 <= j < lines.len() && line_matches(lines[j], query) implies search_results(
        query,
        contents,
    ).contains(#[trigger] lines[j]) by {
        lines.lemma_filter_contains(pred, j);
    }
    lemma_filter_subsequence(lines, pred)
}

/// Case-insensitive search is exact in the same way, for matching up to
/// ASCII case.
pub proof fn lemma_search_results_fold_exact(query: Seq<char>, contents: Seq<char>) -> (positions:
    Seq<int>)
    ensures
        forall|i: int| 0 <= i < search_results_fold(query, contents).len() ==> line_matches_fold(
            #[trigger] search_results_fold(query, contents)[i],
            query,
        ),
        forall|j: int| 0 <= j < line_seq(contents).len() && line_matches_fold(
            line_seq(contents)[j],
            query,
        ) ==> search_results_fold(query, contents).contains(#[trigger] line_seq(contents)[j]),
        positions.len() == search_results_fold(query, contents).len(),
        forall|k: int| 0 <= k < positions.len() ==> 0 <= #[trigger] positions[k] < line_seq(
            contents,
        ).len(),
        forall|k: int| 0 <= k < positions.len() ==> search_results_fold(query, contents)[k]
            == line_seq(contents)[#[trigger] positions[k]],
        forall|k: int| 0 <= k < positions.len() - 1 ==> #[trigger] positions[k] < positions[k
            + 1],
{
    broadcast use vstd::seq_lib::group_filter_ensures;

    let lines = line_seq(contents);
    let pred = |line: Seq<char>| line_matches_fold(line, query);
    assert forall|j: int|
        0 <= j < lines.len() && line_matches_fold(lines[j], query) implies search_results_fold(
        query,
        contents,
    ).contains(#[trigger] lines[j]) by {
        lines.lemma_filter_contains(pred, j);
    }
    lemma_filter_subsequence(lines, pred)
}

/// A line that contains the query exactly also contains it up to ASCII
/// case: folding both sides preserves the occurrence.
pub proof fn lemma_exact_match_implies_fold_match(line: Seq<char>, query: Seq<char>)
    ensures
        line_matches(line, query) ==> line_matches_fold(line, query),
{
    if line_matches(line, query) {
        let i = choose|i: int| occurs_at(line, query, i);
        assert(fold_chars(line).subrange(i, i + fold_chars(query).len() as int) =~= fold_chars(
            query,
        )) by {
            assert forall|t: int| 0 <= t < query.len() implies fold_chars(line)[i + t]
                == fold_chars(query)[t] by {
                assert(line.subrange(i, i + query.len() as int)[t] == line[i + t]);
            }
        }
        assert(occurs_at(fold_chars(line), fold_chars(query), i));
    }
}

/// Case-insensitive search returns, for every line value, at least as many
/// occurrences as case-sensitive search does: its result is a superset by
/// count of the case-sensitive result.
pub proof fn lemma_fold_results_superset(query: Seq<char>, contents: Seq<char>)
    ensures
        forall|line: Seq<char>| #[trigger] search_results(query, contents).to_multiset().count(
            line,
        ) <= search_results_fold(query, contents).to_multiset().count(line),
        search_results(query, contents).len() <= search_results_fold(query, contents).len(),
{
    lemma_matching_count_mono(line_seq(contents), query);
}

/// Filtering with exact matching never keeps more copies of a line than
/// filtering with matching up to ASCII case.
proof fn lemma_matching_count_mono(lines: Seq<Seq<char>>, query: Seq<char>)
    ensures
        forall|line: Seq<char>| #[trigger] matching(lines, query).to_multiset().count(line)
            <= matching_fold(lines, query).to_multiset().count(line),
        matching(lines, query).len() <= matching_fold(lines, query).len(),
    decreases lines.len(),
{
    reveal(Seq::filter);
    if lines.len() > 0 {
        lemma_matching_count_mono(lines.drop_last(), query);
        lemma_matching_push(lines, query);
        lemma_exact_match_implies_fold_match(lines.last(), query);
        let exact_prefix = matching(lines.drop_last(), query);
        let fold_prefix = matching_fold(lines.drop_last(), query);
        exact_prefix.to_multiset_ensures();
        fold_prefix.to_multiset_ensures();
    }
}

/// Both searches are functions of the query and the contents alone: two
/// runs in the same mode on the same inputs return the same lines.
pub proof fn lemma_search_deterministic(
    query: Seq<char>,
    contents: Seq<char>,
    ignore_case: bool,
    first: Seq<Seq<char>>,
    second: Seq<Seq<char>>,
)
    requires
        first == (if ignore_case {
            search_results_fold(query, contents)
        } else {
            search_results(query, contents)
        }),
        second == (if ignore_case {
            search_results_fold(query, contents)
        } else {
            search_results(query, contents)
        }),
    ensures
        first == second,
{
}

/// With an empty query both searches return every line of the text,
/// unchanged and in order: every line contains the empty string.
pub proof fn lemma_empty_query_selects_all(query: Seq<char>, contents: Seq<char>)
    requires
        query.len() == 0,
    ensures
        search_results(query, contents) == line_seq(contents),
        search_results_fold(query, contents) == line_seq(contents),
{
    assert(fold_chars(query).len() == 0);
    assert forall|j: int| 0 <= j < line_seq(contents).len() implies line_matches(
        #[trigger] line_seq(contents)[j],
        query,
    ) && line_matches_fold(line_seq(contents)[j], query) by {
        let line = line_seq(contents)[j];
        assert(line.subrange(0, 0) =~= query);
        assert(occurs_at(line, query, 0));
        assert(fold_chars(line).subrange(0, 0) =~= fold_chars(query));
        assert(occurs_at(fold_chars(line), fold_chars(query), 0));
    }
    lemma_matching_all(line_seq(contents), query);
}

/// Filtering keeps a sequence whole when every element matches.
proof fn lemma_matching_all(lines: Seq<Seq<char>>, query: Seq<char>)
    requires
        forall|j: int| 0 <= j < lines.len() ==> line_matches(#[trigger] lines[j], query),
        forall|j: int| 0 <= j < lines.len() ==> line_matches_fold(#[trigger] lines[j], query),
    ensures
        matching(lines, query) == lines,
        matching_fold(lines, query) == lines,
    decreases lines.len(),
{
    reveal(Seq::filter);
    if lines.len() > 0 {
        assert forall|j: int| 0 <= j < lines.drop_last().len() implies line_matches(
            #[trigger] lines.drop_last()[j],
            query,
        ) && line_matches_fold(lines.drop_last()[j], query) by {
            assert(lines.drop_last()[j] == lines[j]);
        }
        lemma_matching_all(lines.drop_last(), query);
        lemma_matching_push(lines, query);
        assert(matching(lines, query) =~= lines);
        assert(matching_fold(lines, query) =~= lines);
    }
}

/// An empty text has no lines, so either search returns nothing, whatever
/// the query.
pub proof fn lemma_empty_contents_no_results(query: Seq<char>)
    ensures
        search_results(query, Seq::empty()) == Seq::<Seq<char>>::empty(),
        search_results_fold(query, Seq::empty()) == Seq::<Seq<char>>::empty(),
{
    reveal(Seq::filter);
    assert(line_seq(Seq::empty()) == Seq::<Seq<char>>::empty());
}

/// Returns every line of `contents` that contains `query` as an exact
/// substring, in original order; each returned slice borrows from
/// `contents`.
pub fn search<'a>(query: &str, contents: &'a str) -> (matches: Vec<&'a str>)
    ensures
        matches.deep_view() == search_results(query@, contents@),
{
    let lines = split_lines(contents);
    let mut matches: Vec<&'a str> = Vec::new();
    let mut idx: usize = 0;
    proof {
        reveal(Seq::filter);
        assert(lines.deep_view().take(0) =~= Seq::<Seq<char>>::empty());
        assert(matches.deep_view() =~= matching(lines.deep_view().take(0), query@));
    }
    while idx < lines.len()
        invariant
            lines.deep_view() == line_seq(contents@),
            idx <= lines@.len(),
            matches.deep_view() == matching(lines.deep_view().take(idx as int), query@),
        decreases lines@.len() - idx,
    {
        let ghost prev = matches.deep_view();
        let line = lines[idx];
        let hit = contains_str(line, query);
        proof {
            let lv = lines.deep_view();
            let cur = lv.take(idx as int + 1);
            assert(cur.drop_last() =~= lv.take(idx as int));
            assert(cur.last() == lv[idx as int]);
            lemma_matching_push(cur, query@);
        }
        if hit {
            matches.push(line);
            proof {
                assert(matches.deep_view() =~= prev.push(line@));
            }
        }
        idx += 1;
    }
    proof {
        assert(lines.deep_view().take(lines@.len() as int) =~= lines.deep_view());
    }
    matches
}

/// Returns every line of `contents` that contains `query` up to ASCII
/// case, in original order; the returned slices keep their original
/// spelling and borrow from `contents`.
pub fn search_case_insensitive<'a>(query: &str, contents: &'a str) -> (matches: Vec<&'a str>)
    ensures
        matches.deep_view() == search_results_fold(query@, contents@),
{
    let lines = split_lines(contents);
    let mut matches: Vec<&'a str> = Vec::new();
    let mut idx: usize = 0;
    proof {
        reveal(Seq::filter);
        assert(lines.deep_view().take(0) =~= Seq::<Seq<char>>::empty());
        assert(matches.deep_view() =~= matching_fold(lines.deep_view().take(0), query@));
    }
    while idx < lines.len()
        invariant
            lines.deep_view() == line_seq(contents@),
            idx <= lines@.len(),
            matches.deep_view() == matching_fold(lines.deep_view().take(idx as int), query@),
        decreases lines@.len() - idx,
    {
        let ghost prev = matches.deep_view();
        let line = lines[idx];
        let hit = contains_str_fold(line, query);
        proof {
            let lv = lines.deep_view();
            let cur = lv.take(idx as int + 1);
            assert(cur.drop_last() =~= lv.take(idx as int));
            assert(cur.last() == lv[idx as int]);
            lemma_matching_push(cur, query@);
        }
        if hit {
            matches.push(line);
            proof {
                assert(matches.deep_view() =~= prev.push(line@));
            }
        }
        idx += 1;
    }
    proof {
        assert(lines.deep_view().take(lines@.len() as int) =~= lines.deep_view());
    }
    matches
}

/// The report when the query argument is absent.
pub open spec fn missing_query_message() -> Seq<char> {
    "Please enter query as 1st argument"@
}

/// The report when the file path argument is absent.
pub open spec fn missing_file_path_message() -> Seq<char> {
    "Please enter file path as 2nd argument"@
}

/// The two reports for an absent argument differ, so a failed build says
/// which argument was missing.
pub proof fn lemma_missing_messages_differ()
    ensures
        missing_query_message() != missing_file_path_message(),
{
    reveal_strlit("Please enter query as 1st argument");
    reveal_strlit("Please enter file path as 2nd argument");
    assert(missing_query_message().len() == 34);
    assert(missing_file_path_message().len() == 38);
}

/// The configuration of one run: what to search for, in which file, and
/// whether case is ignored. Immutable once built.
pub struct Config {
    query: String,
    file_path: String,
    ignore_case: bool,
}

impl Config {
    /// The query, as a character sequence.
    pub closed spec fn spec_query(&self) -> Seq<char> {
        self.query@
    }

    /// The file path, as a character sequence.
    pub closed spec fn spec_file_path(&self) -> Seq<char> {
        self.file_path@
    }

    /// Whether matching ignores ASCII case.
    pub closed spec fn spec_ignore_case(&self) -> bool {
        self.ignore_case
    }

    /// The string to search for.
    pub fn query(&self) -> (query: &String)
        ensures
            query@ == self.spec_query(),
    {
        &self.query
    }

    /// The path of the file to search in.
    pub fn file_path(&self) -> (file_path: &String)
        ensures
            file_path@ == self.spec_file_path(),
    {
        &self.file_path
    }

    /// Whether matching ignores ASCII case.
    pub fn ignore_case(&self) -> (ignore_case: &bool)
        ensures
            *ignore_case == self.spec_ignore_case(),
    {
        &self.ignore_case
    }

    /// Builds a configuration from the process arguments. The first
    /// argument (the program name) is skipped; the next two become the
    /// query and the file path, and any further arguments are ignored.
    /// Each absent argument is reported with its own message.
    pub fn build(args: &Vec<String>, ignore_case: bool) -> (result: Result<Config, &'static str>)
        ensures
            args@.len() >= 3 ==> (result matches Ok(config) && config.spec_query() == args@[1]@
                && config.spec_file_path() == args@[2]@ && config.spec_ignore_case()
                == ignore_case),
            args@.len() < 2 ==> (result matches Err(message) && message@
                == missing_query_message()),
            args@.len() == 2 ==> (result matches Err(message) && message@
                == missing_file_path_message()),
    {
        if args.len() < 2 {
            return Err("Please enter query as 1st argument");
        }
        if args.len() < 3 {
            return Err("Please enter file path as 2nd argument");
        }
        let query = args[1].clone();
        let file_path = args[2].clone();
        Ok(Config { query, file_path, ignore_case })
    }
}

/// The lines of `contents` that the configuration selects: matched up to
/// ASCII case when `ignore_case` is set, exactly otherwise.
pub fn matching_lines<'a>(config: &Config, contents: &'a str) -> (matches: Vec<&'a str>)
    ensures
        config.spec_ignore_case() ==> matches.deep_view() == search_results_fold(
            config.spec_query(),
            contents@,
        ),
        !config.spec_ignore_case() ==> matches.deep_view() == search_results(
            config.spec_query(),
            contents@,
        ),
{
    if *config.ignore_case() {
        search_case_insensitive(config.query().as_str(), contents)
    } else {
        search(config.query().as_str(), contents)
    }
}

} // verus!
