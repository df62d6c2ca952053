//! Splitting report text into lines. A line is terminated by a line feed or
//! by a carriage return and line feed; the final line may lack its
//! terminator. A trailing carriage return on a line is dropped; a carriage
//! return anywhere else in a line is a parse failure.

use vstd::prelude::*;
use vstd::string::*;

verus! {

/// A parse failure: the input did not match the expected grammar. `line` is
/// the zero-based index of the line at which parsing stopped, kept for
/// diagnostics.
#[derive(Clone, Copy, Debug, PartialEq, Eq, Structural)]
pub struct ParseError {
    pub line: usize,
}

/// Index of the first line feed in `s`, if any.
pub open spec fn find_newline(s: Seq<char>) -> Option<int>
    decreases s.len(),
{
    if s.len() == 0 {
        None
    } else if s[0] == '\n' {
        Some(0)
    } else {
        match find_newline(s.skip(1)) {
            Some(i) => Some(i + 1),
            None => None,
        }
    }
}

pub proof fn lemma_find_newline(s: Seq<char>)
    ensures
        match find_newline(s) {
            Some(i) => 0 <= i < s.len() && s[i] == '\n' && forall|j: int|
                0 <= j < i ==> s[j] != '\n',
            None => forall|j: int| 0 <= j < s.len() ==> s[j] != '\n',
        },
    decreases s.len(),
{
    if s.len() == 0 {
    } else if s[0] == '\n' {
    } else {
        lemma_find_newline(s.skip(1));
        match find_newline(s.skip(1)) {
            Some(i) => {
                assert(s[i + 1] == s.skip(1)[i]);
                assert forall|j: int| 0 <= j < i + 1 implies s[j] != '\n' by {
                    if j > 0 {
                        assert(s[j] == s.skip(1)[j - 1]);
                    }
                }
            },
            None => {
                assert forall|j: int| 0 <= j < s.len() implies s[j] != '\n' by {
                    if j > 0 {
                        assert(s[j] == s.skip(1)[j - 1]);
                    }
                }
            },
        }
    }
}

/// The raw lines of `s`: maximal line-feed-free runs; the final run is kept
/// even when no line feed follows it.
pub open spec fn raw_lines(s: Seq<char>) -> Seq<Seq<char>>
    decreases s.len(),
    via raw_lines_decreases
{
    if s.len() == 0 {
        Seq::empty()
    } else {
        match find_newline(s) {
            Some(i) => seq![s.take(i)] + raw_lines(s.skip(i + 1)),
            None => seq![s],
        }
    }
}

#[via_fn]
proof fn raw_lines_decreases(s: Seq<char>) {
    lemma_find_newline(s);
}

/// A line with its one trailing carriage return, if any, dropped.
pub open spec fn strip_cr(l: Seq<char>) -> Seq<char> {
    if l.len() > 0 && l.last() == '\r' {
        l.drop_last()
    } else {
        l
    }
}

/// Whether a raw line is acceptable: once its trailing carriage return is
/// dropped, no carriage return is left.
pub open spec fn line_ok(l: Seq<char>) -> bool {
    forall|j: int| 0 <= j < strip_cr(l).len() ==> strip_cr(l)[j] != '\r'
}

/// The cleaned lines of report text: the raw lines, each with its trailing
/// carriage return dropped, or `None` where a carriage return stands anywhere
/// but at the end of a line.
pub open spec fn clean_lines(text: Seq<char>) -> Option<Seq<Seq<char>>> {
    let raw = raw_lines(text);
    if forall|k: int| 0 <= k < raw.len() ==> #[trigger] line_ok(raw[k]) {
        Some(raw.map_values(|l: Seq<char>| strip_cr(l)))
    } else {
        None
    }
}

/// No character of `s` is a line feed or carriage return.
pub open spec fn no_line_break(s: Seq<char>) -> bool {
    forall|j: int| 0 <= j < s.len() ==> s[j] != '\n' && s[j] != '\r'
}

/// Every raw line is free of line feeds.
pub proof fn lemma_raw_lines_no_newline(s: Seq<char>)
    ensures
        forall|k: int, j: int|
            0 <= k < raw_lines(s).len() && 0 <= j < raw_lines(s)[k].len()
                ==> #[trigger] raw_lines(s)[k][j] != '\n',
    decreases s.len(),
{
    lemma_find_newline(s);
    if s.len() == 0 {
    } else {
        match find_newline(s) {
            Some(i) => {
                lemma_raw_lines_no_newline(s.skip(i + 1));
                assert forall|k: int, j: int|
                    0 <= k < raw_lines(s).len() && 0 <= j < raw_lines(s)[k].len() implies #[trigger] raw_lines(
                    s,
                )[k][j] != '\n' by {
                    if k == 0 {
                        assert(raw_lines(s)[0] == s.take(i));
                        assert(s.take(i)[j] == s[j]);
                    } else {
                        assert(raw_lines(s)[k] == raw_lines(s.skip(i + 1))[k - 1]);
                    }
                }
            },
            None => {},
        }
    }
}

/// Cleaned lines are free of line breaks altogether.
pub proof fn lemma_clean_lines_no_break(text: Seq<char>, lines: Seq<Seq<char>>)
    requires
        clean_lines(text) == Some(lines),
    ensures
        forall|k: int| 0 <= k < lines.len() ==> #[trigger] no_line_break(lines[k]),
{
    lemma_raw_lines_no_newline(text);
    let raw = raw_lines(text);
    assert forall|k: int| 0 <= k < lines.len() implies #[trigger] no_line_break(lines[k]) by {
        assert(line_ok(raw[k]));
        assert(lines[k] == strip_cr(raw[k]));
        assert forall|j: int| 0 <= j < lines[k].len() implies lines[k][j] != '\n' && lines[k][j]
            != '\r' by {
            assert(strip_cr(raw[k])[j] == raw[k][j]);
            assert(raw[k][j] != '\n');
        }
    }
}

/// Split report text into cleaned lines, or fail on a stray carriage return.
#[verifier::loop_isolation(false)]
#[verifier::rlimit(60)]
pub fn split_clean_lines<'a>(s: &'a str) -> (r: Result<Vec<&'a str>, ParseError>)
    ensures
        match r {
            Ok(v) => clean_lines(s@) == Some(v.deep_view()),
            Err(e) => clean_lines(s@) is None,
        },
{
    let n = s.unicode_len();
    let mut lines: Vec<&'a str> = Vec::new();
    let ghost mut processed: Seq<Seq<char>> = Seq::empty();
    let mut start: usize = 0;
    proof {
        assert(s@.skip(0) =~= s@);
        assert(raw_lines(s@) =~= processed + raw_lines(s@.skip(0)));
    }
    while start < n
        invariant
            0 <= start <= n,
            n as nat == s@.len(),
            raw_lines(s@) == processed + raw_lines(s@.skip(start as int)),
            lines.deep_view() == processed.map_values(|l: Seq<char>| strip_cr(l)),
            forall|k: int| 0 <= k < processed.len() ==> #[trigger] line_ok(processed[k]),
        decreases n - start,
    {
        let ghost tail = s@.skip(start as int);
        // Scan to the end of the current line.
        let mut j = start;
        while j < n && s.get_char(j) != '\n'
            invariant
                start <= j <= n,
                n as nat == s@.len(),
                forall|t: int| start <= t < j ==> s@[t] != '\n',
            decreases n - j,
        {
            j = j + 1;
        }
        proof {
            lemma_find_newline(tail);
            assert(tail.len() == n - start);
            assert(forall|u: int| 0 <= u < tail.len() ==> tail[u] == s@[start + u]);
            if j < n {
                // The newline at j is the first in the tail.
                match find_newline(tail) {
                    Some(i) => {
                        if i < j - start {
                            assert(tail[i] == s@[start + i]);
                            assert(false);
                        }
                        if i > j - start {
                            assert(tail[j - start] == '\n');
                            assert(false);
                        }
                    },
                    None => {
                        assert(tail[j - start] == '\n');
                        assert(false);
                    },
                }
            } else {
                match find_newline(tail) {
                    Some(i) => {
                        assert(tail[i] == s@[start + i]);
                        assert(false);
                    },
                    None => {},
                }
            }
        }
        let ghost rawline = s@.subrange(start as int, j as int);
        proof {
            assert(tail.take(j - start) =~= rawline);
            if j < n {
                assert(raw_lines(tail) == seq![rawline] + raw_lines(tail.skip(j - start + 1)));
                assert(tail.skip(j - start + 1) =~= s@.skip(j + 1));
            } else {
                assert(tail =~= rawline);
                assert(raw_lines(tail) == seq![rawline]);
            }
        }
        // Drop a trailing carriage return.
        let end = if j > start && s.get_char(j - 1) == '\r' {
            j - 1
        } else {
            j
        };
        proof {
            assert(strip_cr(rawline) =~= s@.subrange(start as int, end as int));
        }
        // A carriage return anywhere else in the line is a failure.
        let mut t = start;
        while t < end
            invariant
                start <= t <= end <= n,
                n as nat == s@.len(),
                forall|u: int| start <= u < t ==> s@[u] != '\r',
            decreases end - t,
        {
            if s.get_char(t) == '\r' {
                proof {
                    let clean = strip_cr(rawline);
                    assert(clean[t - start] == s@[t as int]);
                    assert(!line_ok(rawline));
                    let raw = raw_lines(s@);
                    assert(raw[processed.len() as int] == rawline);
                    assert(!(forall|k: int| 0 <= k < raw.len() ==> #[trigger] line_ok(raw[k])));
                }
                return Err(ParseError { line: lines.len() });
            }
            t = t + 1;
        }
        let piece = s.substring_char(start, end);
        let ghost dv0 = lines.deep_view();
        lines.push(piece);
        proof {
            assert(piece@ == strip_cr(rawline));
            assert(line_ok(rawline));
            let prev = processed;
            processed = processed.push(rawline);
            assert forall|q: int| 0 <= q < lines.deep_view().len() implies lines.deep_view()[q]
                == processed.map_values(|l: Seq<char>| strip_cr(l))[q] by {
                if q < prev.len() {
                    assert(lines.deep_view()[q] == dv0[q]);
                    assert(dv0[q] == prev.map_values(|l: Seq<char>| strip_cr(l))[q]);
                } else {
                    assert(lines.deep_view()[q] == piece@);
                }
            }
            assert(lines.deep_view() =~= processed.map_values(|l: Seq<char>| strip_cr(l)));
            if j < n {
                assert(raw_lines(s@) =~= processed + raw_lines(s@.skip(j + 1)));
            } else {
                assert(raw_lines(s@.skip(n as int)) == Seq::<Seq<char>>::empty());
                assert(raw_lines(s@) =~= processed + raw_lines(s@.skip(n as int)));
            }
        }
        if j < n {
            start = j + 1;
        } else {
            start = n;
        }
    }
    proof {
        assert(s@.skip(n as int) =~= Seq::<char>::empty());
        assert(raw_lines(s@) =~= processed);
        assert(clean_lines(s@) == Some(lines.deep_view()));
    }
    Ok(lines)
}

} // verus!
