//! Parsing the single-target query report: the echoed target name, an input
//! description line, typed input lines, and an output list.

use vstd::prelude::*;
use vstd::string::*;

use crate::deps_file::chars_match_at;
use crate::lines::clean_lines;
use crate::lines::split_clean_lines;
use crate::lines::ParseError;

verus! {

/// One typed input of a query report, carrying its raw payload text.
#[derive(Debug, Clone, PartialEq, Eq)]
pub enum QueryInput {
    Normal(String),
    Implicit(String),
    OrderOnly(String),
}

/// A typed input at the level of the mathematical model.
#[verifier::ext_equal]
pub enum QueryInputView {
    Normal(Seq<char>),
    Implicit(Seq<char>),
    OrderOnly(Seq<char>),
}

impl View for QueryInput {
    type V = QueryInputView;

    open spec fn view(&self) -> QueryInputView {
        match self {
            QueryInput::Normal(s) => QueryInputView::Normal(s@),
            QueryInput::Implicit(s) => QueryInputView::Implicit(s@),
            QueryInput::OrderOnly(s) => QueryInputView::OrderOnly(s@),
        }
    }
}

impl DeepView for QueryInput {
    type V = QueryInputView;

    open spec fn deep_view(&self) -> QueryInputView {
        self.view()
    }
}

/// A parsed query report at the level of the mathematical model.
#[verifier::ext_equal]
pub struct QueryView {
    pub input_desc: Seq<char>,
    pub inputs: Seq<QueryInputView>,
    pub outputs: Seq<Seq<char>>,
}

/// A parsed query report: the free-form input description, the typed inputs
/// in order, and the output paths in order.
#[derive(Debug, Clone)]
pub struct QueryResult {
    pub input_desc: String,
    pub input: Vec<QueryInput>,
    pub outputs: Vec<String>,
}

impl View for QueryResult {
    type V = QueryView;

    open spec fn view(&self) -> QueryView {
        QueryView {
            input_desc: self.input_desc@,
            inputs: self.input.deep_view(),
            outputs: self.outputs.deep_view(),
        }
    }
}

/// The literal prefix of the input description line.
pub open spec fn input_prefix() -> Seq<char> {
    "  input: "@
}

/// The literal header line that opens the output list.
pub open spec fn outputs_header() -> Seq<char> {
    "  outputs:"@
}

/// A line indented by the four spaces that mark an input or output line.
pub open spec fn is_indented(l: Seq<char>) -> bool {
    l.len() >= 4 && l[0] == ' ' && l[1] == ' ' && l[2] == ' ' && l[3] == ' '
}

/// How one indented line is classified: `"|| "` marks an order-only input,
/// `"| "` an implicit input, anything else a normal input; the payload is the
/// remainder after the prefix, verbatim.
pub open spec fn classify_input(l: Seq<char>) -> QueryInputView {
    let rest = l.skip(4);
    if rest.len() >= 3 && rest[0] == '|' && rest[1] == '|' && rest[2] == ' ' {
        QueryInputView::OrderOnly(rest.skip(3))
    } else if rest.len() >= 2 && rest[0] == '|' && rest[1] == ' ' {
        QueryInputView::Implicit(rest.skip(2))
    } else {
        QueryInputView::Normal(rest)
    }
}

/// Length of the maximal run of indented lines in `lines` starting at `i`.
pub open spec fn indent_run_len(lines: Seq<Seq<char>>, i: int) -> int
    decreases lines.len() - i,
{
    if i < lines.len() && is_indented(lines[i]) {
        1 + indent_run_len(lines, i + 1)
    } else {
        0
    }
}

pub proof fn lemma_indent_run_len(lines: Seq<Seq<char>>, i: int)
    requires
        0 <= i <= lines.len(),
    ensures
        ({
            let k = indent_run_len(lines, i);
            &&& 0 <= k
            &&& i + k <= lines.len()
            &&& forall|t: int| i <= t < i + k ==> is_indented(lines[t])
            &&& (i + k == lines.len() || !is_indented(lines[i + k]))
        }),
    decreases lines.len() - i,
{
    if i < lines.len() && is_indented(lines[i]) {
        lemma_indent_run_len(lines, i + 1);
    }
}

/// The query-report grammar over cleaned lines, against the caller-supplied
/// target name: the echoed `<target>:` line, the `  input: ` description
/// line, the maximal run of indented input lines, the `  outputs:` header,
/// then nothing but indented output lines to the end of the text.
pub open spec fn spec_parse_query_lines(lines: Seq<Seq<char>>, target: Seq<char>) -> Option<
    QueryView,
> {
    if lines.len() < 2 {
        None
    } else if lines[0] != target.push(':') {
        None
    } else if !(lines[1].len() >= input_prefix().len() && lines[1].take(input_prefix().len() as int)
        == input_prefix()) {
        None
    } else {
        let desc = lines[1].skip(input_prefix().len() as int);
        let k = indent_run_len(lines, 2);
        if 2 + k >= lines.len() {
            None
        } else if lines[2 + k] != outputs_header() {
            None
        } else if !(forall|t: int| 2 + k < t < lines.len() ==> #[trigger] is_indented(lines[t])) {
            None
        } else {
            Some(
                QueryView {
                    input_desc: desc,
                    inputs: lines.subrange(2, 2 + k).map_values(|l: Seq<char>| classify_input(l)),
                    outputs: lines.skip(2 + k + 1).map_values(|l: Seq<char>| l.skip(4)),
                },
            )
        }
    }
}

/// What the whole query report text parses to, for a given target name:
/// `None` unless every line matches and nothing is left over.
pub open spec fn spec_parse_query(text: Seq<char>, target: Seq<char>) -> Option<QueryView> {
    match clean_lines(text) {
        Some(lines) => spec_parse_query_lines(lines, target),
        None => None,
    }
}

fn check_indent(l: &str) -> (r: bool)
    ensures
        r == is_indented(l@),
{
    let n = l.unicode_len();
    n >= 4 && l.get_char(0) == ' ' && l.get_char(1) == ' ' && l.get_char(2) == ' ' && l.get_char(3)
        == ' '
}

impl QueryResult {
    /// Parse the text of a single-target query report against the
    /// caller-supplied target name. Succeeds exactly when the whole text
    /// matches the grammar, the echoed name matches `query_target` exactly,
    /// and nothing is left over.
    #[verifier::loop_isolation(false)]
    #[verifier::rlimit(80)]
    pub fn try_from_string<'a>(input: &'a str, query_target: &'a str) -> (r: Result<
        QueryResult,
        ParseError,
    >)
        ensures
            match r {
                Ok(q) => spec_parse_query(input@, query_target@) == Some(q@),
                Err(e) => spec_parse_query(input@, query_target@) is None,
            },
    {
        let ghost target = query_target@;
        let lines = match split_clean_lines(input) {
            Ok(l) => l,
            Err(e) => {
                return Err(e);
            },
        };
        let ghost all: Seq<Seq<char>> = lines.deep_view();
        let n = lines.len();
        if n < 2 {
            return Err(ParseError { line: 0 });
        }
        // First line: the echoed target name followed by a colon, exactly.
        let l0 = lines[0];
        let n0 = l0.unicode_len();
        let tlen = query_target.unicode_len();
        let line0_ok = n0 >= 1 && n0 - 1 == tlen && chars_match_at(l0, 0, query_target)
            && l0.get_char(n0 - 1) == ':';
        proof {
            if line0_ok {
                assert(all[0] =~= target.push(':'));
            } else {
                if all[0] == target.push(':') {
                    assert(l0@.len() == target.len() + 1);
                    assert(l0@.subrange(0, target.len() as int) =~= target);
                    assert(l0@[n0 - 1] == ':');
                    assert(false);
                }
            }
        }
        if !line0_ok {
            return Err(ParseError { line: 0 });
        }
        // Second line: the input description, behind its literal prefix.
        let l1 = lines[1];
        let n1 = l1.unicode_len();
        if !chars_match_at(l1, 0, "  input: ") {
            return Err(ParseError { line: 1 });
        }
        let plen = "  input: ".unicode_len();
        let input_desc = l1.substring_char(plen, n1).to_owned();
        proof {
            assert(input_desc@ == all[1].skip(input_prefix().len() as int));
        }
        // The run of indented input lines.
        let mut input: Vec<QueryInput> = Vec::new();
        let mut j: usize = 2;
        while j < n && check_indent(lines[j])
            invariant
                2 <= j <= n,
                forall|t: int| 2 <= t < j ==> #[trigger] is_indented(all[t]),
                input.deep_view() == all.subrange(2, j as int).map_values(
                    |l: Seq<char>| classify_input(l),
                ),
            decreases n - j,
        {
            let l = lines[j];
            let nl = l.unicode_len();
            let ghost v0 = input@;
            let item: QueryInput = if nl >= 7 && l.get_char(4) == '|' && l.get_char(5) == '|'
                && l.get_char(6) == ' ' {
                QueryInput::OrderOnly(l.substring_char(7, nl).to_owned())
            } else if nl >= 6 && l.get_char(4) == '|' && l.get_char(5) == ' ' {
                QueryInput::Implicit(l.substring_char(6, nl).to_owned())
            } else {
                QueryInput::Normal(l.substring_char(4, nl).to_owned())
            };
            proof {
                let rest = l@.skip(4);
                assert(rest.len() == nl - 4);
                assert(forall|q: int| 0 <= q < rest.len() ==> rest[q] == l@[q + 4]);
                if nl >= 7 {
                    assert(rest.skip(3) =~= l@.skip(7));
                }
                if nl >= 6 {
                    assert(rest.skip(2) =~= l@.skip(6));
                }
                assert(item@ =~= classify_input(l@));
            }
            let ghost dv0 = input.deep_view();
            input.push(item);
            proof {
                let f = |l: Seq<char>| classify_input(l);
                assert(input@ == v0.push(item));
                assert(dv0.len() == v0.len());
                assert(dv0.len() == j - 2);
                assert forall|q: int| 0 <= q < input.deep_view().len() implies input.deep_view()[q]
                    == all.subrange(2, j + 1).map_values(f)[q] by {
                    if q < j - 2 {
                        assert(input@[q] == v0[q]);
                        assert(input.deep_view()[q] == v0[q]@);
                        assert(dv0[q] == v0[q]@);
                        assert(all.subrange(2, j as int)[q] == all.subrange(2, j + 1)[q]);
                    } else {
                        assert(input@[q] == item);
                        assert(input.deep_view()[q] == item@);
                        assert(all.subrange(2, j + 1)[q] == all[j as int]);
                    }
                }
                assert(input.deep_view() =~= all.subrange(2, j + 1).map_values(f));
            }
            j = j + 1;
        }
        proof {
            // The indented run from position 2 has length exactly j - 2.
            lemma_indent_run_len(all, 2);
            let k = indent_run_len(all, 2);
            if k < j - 2 {
                assert(is_indented(all[2 + k]));
                assert(false);
            }
            if k > j - 2 {
                assert(is_indented(all[j as int]));
                assert(false);
            }
            assert(k == j - 2);
        }
        if j >= n {
            return Err(ParseError { line: j });
        }
        // The header that opens the output list, exactly.
        let lj = lines[j];
        let nj = lj.unicode_len();
        let hlen = "  outputs:".unicode_len();
        let header_ok = nj == hlen && chars_match_at(lj, 0, "  outputs:");
        proof {
            if header_ok {
                assert(all[j as int] =~= outputs_header());
            } else {
                if all[j as int] == outputs_header() {
                    assert(lj@.subrange(0, outputs_header().len() as int) =~= outputs_header());
                    assert(false);
                }
            }
        }
        if !header_ok {
            return Err(ParseError { line: j });
        }
        // Everything after the header must be an indented output line.
        let mut outputs: Vec<String> = Vec::new();
        let mut t = j + 1;
        while t < n
            invariant
                j + 1 <= t <= n,
                forall|u: int| j + 1 <= u < t ==> #[trigger] is_indented(all[u]),
                outputs.deep_view() == all.subrange(j + 1, t as int).map_values(
                    |l: Seq<char>| l.skip(4),
                ),
            decreases n - t,
        {
            let l = lines[t];
            if !check_indent(l) {
                proof {
                    let k = indent_run_len(all, 2);
                    assert(2 + k < t < all.len() && !is_indented(all[t as int]));
                    assert(!(forall|u: int| 2 + k < u < all.len() ==> #[trigger] is_indented(
                        all[u],
                    )));
                }
                return Err(ParseError { line: t });
            }
            let nl = l.unicode_len();
            let ghost v0 = outputs@;
            let ghost dv0 = outputs.deep_view();
            let piece = l.substring_char(4, nl).to_owned();
            outputs.push(piece);
            proof {
                let f = |l: Seq<char>| l.skip(4);
                assert(outputs@ == v0.push(piece));
                assert(dv0.len() == v0.len());
                assert(dv0.len() == t - j - 1);
                assert forall|q: int| 0 <= q < outputs.deep_view().len() implies outputs.deep_view()[q]
                    == all.subrange(j + 1, t + 1).map_values(f)[q] by {
                    if q < t - j - 1 {
                        assert(outputs@[q] == v0[q]);
                        assert(outputs.deep_view()[q] == v0[q]@);
                        assert(dv0[q] == v0[q]@);
                        assert(all.subrange(j + 1, t as int)[q] == all.subrange(j + 1, t + 1)[q]);
                    } else {
                        assert(outputs@[q] == piece);
                        assert(outputs.deep_view()[q] == piece@);
                        assert(all.subrange(j + 1, t + 1)[q] == all[t as int]);
                    }
                }
                assert(outputs.deep_view() =~= all.subrange(j + 1, t + 1).map_values(f));
            }
            t = t + 1;
        }
        let r = QueryResult { input_desc, input, outputs };
        proof {
            let k = indent_run_len(all, 2);
            assert(all.subrange(j + 1, n as int) =~= all.skip(2 + k + 1));
            assert(r@ =~= spec_parse_query_lines(all, target).unwrap());
        }
        Ok(r)
    }

    /// Whether the report describes a no-op aggregation target: its input
    /// description is exactly the literal `phony`.
    pub fn phony(&self) -> (r: bool)
        ensures
            r == (self.input_desc@ == "phony"@),
    {
        let n = self.input_desc.as_str().unicode_len();
        let plen = "phony".unicode_len();
        if n != plen {
            proof {
                assert(self.input_desc@ != "phony"@);
            }
            return false;
        }
        let r = crate::deps_file::chars_match_at(self.input_desc.as_str(), 0, "phony");
        proof {
            if r {
                assert(self.input_desc@.subrange(0, "phony"@.len() as int) =~= self.input_desc@);
            } else {
                assert(self.input_desc@.subrange(0, n as int) =~= self.input_desc@);
            }
        }
        r
    }
}

} // verus!
