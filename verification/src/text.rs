//! Verified text primitives: ASCII case folding, substring containment and
//! line splitting, each with a mathematical model over `Seq<char>`.

use vstd::prelude::*;

verus! {

/// ASCII case folding of a single character: `'A'..='Z'` maps to the
/// corresponding lower-case letter, every other character is unchanged.
pub open spec fn fold_char(c: char) -> char {
    if 'A' <= c && c <= 'Z' {
        ((c as u32) + 32) as char
    } else {
        c
    }
}

/// ASCII case folding of a whole character sequence.
pub open spec fn fold_chars(s: Seq<char>) -> Seq<char> {
    s.map_values(|c: char| fold_char(c))
}

/// Executable counterpart of `fold_char`.
pub fn fold_char_exec(c: char) -> (r: char)
    ensures
        r == fold_char(c),
{
    if 'A' <= c && c <= 'Z' {
        let b: u8 = c as u8;
        proof {
            assert(c as u32 <= 90);
            assert(b == c as u32);
        }
        (b + 32) as char
    } else {
        c
    }
}

/// Removes one trailing carriage return, if present. A line that was
/// terminated by `"\r\n"` keeps neither character of its terminator.
pub open spec fn strip_final_cr(l: Seq<char>) -> Seq<char> {
    if l.len() > 0 && l[l.len() - 1] == '\r' {
        l.take(l.len() - 1)
    } else {
        l
    }
}

/// The lines of a text: the segments delimited by `'\n'` or `"\r\n"`,
/// without the terminator. A final segment without a terminator is still a
/// line; the empty segment after a final terminator is not. A carriage
/// return not followed by a line feed terminates nothing.
pub open spec fn line_seq(s: Seq<char>) -> Seq<Seq<char>>
    decreases s.len(),
{
    if s.len() == 0 {
        Seq::empty()
    } else if s[0] == '\n' {
        seq![Seq::<char>::empty()] + line_seq(s.skip(1))
    } else if s.len() >= 2 && s[0] == '\r' && s[1] == '\n' {
        seq![Seq::<char>::empty()] + line_seq(s.skip(2))
    } else {
        let rest = line_seq(s.skip(1));
        if rest.len() == 0 {
            seq![seq![s[0]]]
        } else {
            seq![seq![s[0]] + rest[0]] + rest.skip(1)
        }
    }
}

/// Prepending a character commutes with removing a trailing carriage
/// return, as long as the character itself is not a lone trailing one.
proof fn lemma_strip_prepend(c: char, t: Seq<char>)
    requires
        t.len() > 0 || c != '\r',
    ensures
        strip_final_cr(seq![c] + t) == seq![c] + strip_final_cr(t),
{
    let u = seq![c] + t;
    if t.len() == 0 {
        assert(u =~= seq![c]);
        assert(strip_final_cr(u) =~= seq![c] + strip_final_cr(t));
    } else {
        assert(u[u.len() - 1] == t[t.len() - 1]);
        if t[t.len() - 1] == '\r' {
            assert(u.take(u.len() - 1) =~= seq![c] + t.take(t.len() - 1));
        } else {
            assert(u =~= seq![c] + strip_final_cr(t));
        }
    }
}

/// A nonempty text without a line feed is exactly one line: itself.
proof fn lemma_line_seq_no_newline(s: Seq<char>)
    requires
        s.len() > 0,
        forall|k: int| 0 <= k < s.len() ==> s[k] != '\n',
    ensures
        line_seq(s) == seq![s],
    decreases s.len(),
{
    assert(s[0] != '\n');
    if s.len() == 1 {
        assert(s.skip(1).len() == 0);
        assert(line_seq(s.skip(1)) == Seq::<Seq<char>>::empty());
        assert(seq![s[0]] =~= s);
    } else {
        assert(s[1] != '\n');
        assert forall|k: int| 0 <= k < s.skip(1).len() implies s.skip(1)[k] != '\n' by {
            assert(s.skip(1)[k] == s[k + 1]);
        }
        lemma_line_seq_no_newline(s.skip(1));
        let rest = line_seq(s.skip(1));
        assert(rest == seq![s.skip(1)]);
        assert(rest.len() == 1);
        assert(seq![s[0]] + rest[0] =~= s);
        assert(rest.skip(1) =~= Seq::<Seq<char>>::empty());
        assert(seq![seq![s[0]] + rest[0]] + rest.skip(1) =~= seq![s]);
    }
}

/// Splitting off the first line: when the first line feed of `s` stands at
/// index `i`, the lines of `s` are the segment before it, with a trailing
/// carriage return removed, followed by the lines of the remainder.
proof fn lemma_line_seq_first_newline(s: Seq<char>, i: int)
    requires
        0 <= i < s.len(),
        s[i] == '\n',
        forall|k: int| 0 <= k < i ==> s[k] != '\n',
    ensures
        line_seq(s) == seq![strip_final_cr(s.take(i))] + line_seq(s.skip(i + 1)),
    decreases s.len(),
{
    if i == 0 {
        assert(s[0] == '\n');
        assert(s.take(0) =~= Seq::<char>::empty());
        assert(strip_final_cr(s.take(0)) == Seq::<char>::empty());
    } else if i == 1 && s[0] == '\r' {
        assert(s.len() >= 2 && s[1] == '\n');
        assert(line_seq(s) == seq![Seq::<char>::empty()] + line_seq(s.skip(2)));
        assert(s.take(1) =~= seq!['\r']);
        assert(strip_final_cr(s.take(1)) =~= Seq::<char>::empty());
    } else {
        // The first two branches of `line_seq` do not apply here: the first
        // character is no line feed, and a leading "\r\n" would put the
        // first line feed at index 1.
        assert(s[0] != '\n');
        if s.len() >= 2 && s[0] == '\r' && s[1] == '\n' {
            assert(i > 1 ==> s[1] != '\n');
            assert(false);
        }
        assert forall|k: int| 0 <= k < i - 1 implies s.skip(1)[k] != '\n' by {
            assert(s.skip(1)[k] == s[k + 1]);
        }
        assert(s.skip(1)[i - 1] == s[i]);
        lemma_line_seq_first_newline(s.skip(1), i - 1);
        let rest = line_seq(s.skip(1));
        let head = strip_final_cr(s.skip(1).take(i - 1));
        assert(rest == seq![head] + line_seq(s.skip(1).skip(i)));
        assert(rest.len() >= 1);
        assert(rest[0] == head);
        assert(s.skip(1).skip(i) =~= s.skip(i + 1));
        assert(rest.skip(1) =~= line_seq(s.skip(i + 1)));
        // Merge the first character into the first line of the remainder.
        assert(s.take(i) =~= seq![s[0]] + s.skip(1).take(i - 1));
        if i == 1 {
            assert(s[0] != '\r');
        }
        lemma_strip_prepend(s[0], s.skip(1).take(i - 1));
        assert(strip_final_cr(s.take(i)) == seq![s[0]] + head);
        assert(seq![seq![s[0]] + rest[0]] + rest.skip(1) =~= seq![strip_final_cr(s.take(i))]
            + line_seq(s.skip(i + 1)));
    }
}

/// Splits a text into its lines; each returned slice borrows from
/// `contents`.
pub fn split_lines<'a>(contents: &'a str) -> (lines: Vec<&'a str>)
    ensures
        lines.deep_view() == line_seq(contents@),
{
    let n = contents.unicode_len();
    let mut lines: Vec<&'a str> = Vec::new();
    let mut start: usize = 0;
    proof {
        assert(lines.deep_view() =~= Seq::<Seq<char>>::empty());
        assert(contents@.skip(0) =~= contents@);
        assert(line_seq(contents@) =~= lines.deep_view() + line_seq(contents@.skip(0)));
    }
    while start < n
        invariant
            n == contents@.len(),
            start <= n,
            line_seq(contents@) == lines.deep_view() + line_seq(contents@.skip(start as int)),
        decreases n - start,
    {
        let ghost prev_lines = lines.deep_view();
        let mut j = start;
        while j < n && contents.get_char(j) != '\n'
            invariant
                n == contents@.len(),
                start <= j <= n,
                forall|k: int| start <= k < j ==> contents@[k] != '\n',
            decreases n - j,
        {
            j += 1;
        }
        let end = if j < n && j > start && contents.get_char(j - 1) == '\r' {
            j - 1
        } else {
            j
        };
        let line = contents.substring_char(start, end);
        lines.push(line);
        proof {
            let t = contents@.skip(start as int);
            assert(lines.deep_view() =~= prev_lines.push(line@));
            if j == n {
                assert(t.len() > 0);
                assert forall|k: int| 0 <= k < t.len() implies t[k] != '\n' by {
                    assert(t[k] == contents@[start + k]);
                }
                lemma_line_seq_no_newline(t);
                assert(line@ =~= t);
                assert(contents@.skip(n as int).len() == 0);
                assert(line_seq(contents@.skip(n as int)) == Seq::<Seq<char>>::empty());
                assert(prev_lines.push(line@) =~= prev_lines + line_seq(t));
                assert(line_seq(contents@) =~= lines.deep_view() + line_seq(
                    contents@.skip(n as int),
                ));
            } else {
                let i = j - start;
                assert(t[i] == contents@[j as int]);
                assert(t[i] == '\n');
                assert forall|k: int| 0 <= k < i implies t[k] != '\n' by {
                    assert(t[k] == contents@[start + k]);
                }
                lemma_line_seq_first_newline(t, i);
                assert(t.take(i) =~= contents@.subrange(start as int, j as int));
                if j > start && contents@[j - 1] == '\r' {
                    assert(t.take(i)[i - 1] == '\r');
                    assert(strip_final_cr(t.take(i)) =~= contents@.subrange(
                        start as int,
                        j - 1,
                    ));
                    assert(strip_final_cr(t.take(i)) =~= line@);
                } else {
                    if t.take(i).len() > 0 {
                        assert(t.take(i)[i - 1] == contents@[j - 1]);
                        assert(t.take(i)[i - 1] != '\r');
                    }
                    assert(strip_final_cr(t.take(i)) =~= line@);
                }
                assert(t.skip(i + 1) =~= contents@.skip(j + 1));
                assert(line_seq(t) == seq![line@] + line_seq(contents@.skip(j + 1)));
                assert(prev_lines + line_seq(t) =~= prev_lines.push(line@) + line_seq(
                    contents@.skip(j + 1),
                ));
                assert(line_seq(contents@) =~= lines.deep_view() + line_seq(
                    contents@.skip(j + 1),
                ));
            }
        }
        start = if j < n {
            j + 1
        } else {
            n
        };
    }
    proof {
        assert(contents@.skip(n as int).len() == 0);
        assert(line_seq(contents@.skip(n as int)) == Seq::<Seq<char>>::empty());
        assert(lines.deep_view() + line_seq(contents@.skip(n as int)) =~= lines.deep_view());
    }
    lines
}

/// `needle` occurs in `hay` as a contiguous substring starting at index `i`.
pub open spec fn occurs_at(hay: Seq<char>, needle: Seq<char>, i: int) -> bool {
    0 <= i && i + needle.len() <= hay.len() && hay.subrange(i, i + needle.len() as int) == needle
}

/// `hay` contains `needle` as a contiguous substring. Every sequence
/// contains the empty sequence.
pub open spec fn contains_chars(hay: Seq<char>, needle: Seq<char>) -> bool {
    exists|i: int| occurs_at(hay, needle, i)
}

/// Decides whether `needle` occurs in `hay` at index `i`, comparing
/// characters exactly.
fn occurs_at_exec(hay: &str, needle: &str, i: usize, m: usize) -> (b: bool)
    requires
        m == needle@.len(),
        i + m <= hay@.len(),
        i + m <= usize::MAX,
    ensures
        b == occurs_at(hay@, needle@, i as int),
{
    let mut k: usize = 0;
    while k < m
        invariant
            m == needle@.len(),
            i + m <= hay@.len(),
            i + m <= usize::MAX,
            k <= m,
            forall|t: int| 0 <= t < k ==> hay@[i + t] == needle@[t],
        decreases m - k,
    {
        if hay.get_char(i + k) != needle.get_char(k) {
            proof {
                assert(hay@.subrange(i as int, i + m as int)[k as int] == hay@[i + k]);
            }
            return false;
        }
        k += 1;
    }
    proof {
        assert(hay@.subrange(i as int, i + m as int) =~= needle@);
    }
    true
}

/// Decides whether `needle` occurs in `hay` at index `i` after ASCII case
/// folding of both sides.
fn occurs_at_fold_exec(hay: &str, needle: &str, i: usize, m: usize) -> (b: bool)
    requires
        m == needle@.len(),
        i + m <= hay@.len(),
        i + m <= usize::MAX,
    ensures
        b == occurs_at(fold_chars(hay@), fold_chars(needle@), i as int),
{
    proof {
        assert(fold_chars(hay@).len() == hay@.len());
        assert(fold_chars(needle@).len() == needle@.len());
    }
    let mut k: usize = 0;
    while k < m
        invariant
            m == needle@.len(),
            i + m <= hay@.len(),
            i + m <= usize::MAX,
            k <= m,
            fold_chars(hay@).len() == hay@.len(),
            fold_chars(needle@).len() == needle@.len(),
            forall|t: int| 0 <= t < k ==> fold_chars(hay@)[i + t] == fold_chars(needle@)[t],
        decreases m - k,
    {
        if fold_char_exec(hay.get_char(i + k)) != fold_char_exec(needle.get_char(k)) {
            proof {
                assert(fold_chars(hay@)[i + k] == fold_char(hay@[i + k]));
                assert(fold_chars(needle@)[k as int] == fold_char(needle@[k as int]));
                assert(fold_chars(hay@).subrange(i as int, i + m as int)[k as int]
                    == fold_chars(hay@)[i + k]);
            }
            return false;
        }
        k += 1;
    }
    proof {
        assert(fold_chars(hay@).subrange(i as int, i + m as int) =~= fold_chars(needle@));
    }
    true
}

/// Decides substring containment, comparing characters exactly.
pub fn contains_str(hay: &str, needle: &str) -> (b: bool)
    ensures
        b == contains_chars(hay@, needle@),
{
    let n = hay.unicode_len();
    let m = needle.unicode_len();
    if m > n {
        return false;
    }
    if m == 0 {
        proof {
            assert(hay@.subrange(0, 0) =~= needle@);
            assert(occurs_at(hay@, needle@, 0));
        }
        return true;
    }
    let mut i: usize = 0;
    while i <= n - m
        invariant
            1 <= m <= n,
            n == hay@.len(),
            m == needle@.len(),
            i <= n - m + 1,
            forall|t: int| 0 <= t < i ==> !occurs_at(hay@, needle@, t),
        decreases n - m + 1 - i,
    {
        if occurs_at_exec(hay, needle, i, m) {
            return true;
        }
        i += 1;
    }
    proof {
        assert(forall|t: int| occurs_at(hay@, needle@, t) ==> 0 <= t && t <= n - m);
    }
    false
}

/// Decides substring containment after ASCII case folding of both sides.
pub fn contains_str_fold(hay: &str, needle: &str) -> (b: bool)
    ensures
        b == contains_chars(fold_chars(hay@), fold_chars(needle@)),
{
    proof {
        assert(fold_chars(hay@).len() == hay@.len());
        assert(fold_chars(needle@).len() == needle@.len());
    }
    let n = hay.unicode_len();
    let m = needle.unicode_len();
    if m > n {
        return false;
    }
    if m == 0 {
        proof {
            assert(fold_chars(hay@).subrange(0, 0) =~= fold_chars(needle@));
            assert(occurs_at(fold_chars(hay@), fold_chars(needle@), 0));
        }
        return true;
    }
    let mut i: usize = 0;
    while i <= n - m
        invariant
            1 <= m <= n,
            n == hay@.len(),
            m == needle@.len(),
            fold_chars(hay@).len() == hay@.len(),
            fold_chars(needle@).len() == needle@.len(),
            i <= n - m + 1,
            forall|t: int| 0 <= t < i ==> !occurs_at(fold_chars(hay@), fold_chars(needle@), t),
        decreases n - m + 1 - i,
    {
        if occurs_at_fold_exec(hay, needle, i, m) {
            return true;
        }
        i += 1;
    }
    proof {
        assert(forall|t: int|
            occurs_at(fold_chars(hay@), fold_chars(needle@), t) ==> 0 <= t && t <= n - m);
    }
    false
}

} // verus!
