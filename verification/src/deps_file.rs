//! Parsing the dependency-listing report: stanzas of one header line
//! (`<output-path>: #deps ...`) followed by four-space-indented dependency
//! lines, concatenated end to end.

use vstd::prelude::*;
use vstd::string::*;

use crate::lines::clean_lines;
use crate::lines::lemma_clean_lines_no_break;
use crate::lines::no_line_break;
use crate::lines::split_clean_lines;
use crate::lines::ParseError;

verus! {

/// The literal marker that makes a line a header line.
pub open spec fn deps_marker() -> Seq<char> {
    ": #deps"@
}

/// The marker stands in `line` at position `i`.
pub open spec fn marker_at(line: Seq<char>, i: int) -> bool {
    0 <= i && i + deps_marker().len() <= line.len() && line.subrange(i, i + deps_marker().len())
        == deps_marker()
}

/// A line is a header line exactly when it contains the marker somewhere.
pub open spec fn is_header_line(line: Seq<char>) -> bool {
    exists|i: int| marker_at(line, i)
}

/// Position of the first occurrence of the marker in `line`, if any.
pub open spec fn find_marker(line: Seq<char>) -> Option<int>
    decreases line.len(),
{
    if marker_at(line, 0) {
        Some(0)
    } else if line.len() == 0 {
        None
    } else {
        match find_marker(line.skip(1)) {
            Some(i) => Some(i + 1),
            None => None,
        }
    }
}

/// The output path a header line carries: everything before the first
/// occurrence of the marker, verbatim.
pub open spec fn header_path(line: Seq<char>) -> Seq<char> {
    line.take(find_marker(line).unwrap())
}

/// Shifting a line by one shifts marker positions by one.
proof fn lemma_marker_at_skip(line: Seq<char>, i: int)
    requires
        line.len() > 0,
        1 <= i,
    ensures
        marker_at(line, i) == marker_at(line.skip(1), i - 1),
{
    if 0 <= i - 1 && i - 1 + deps_marker().len() <= line.skip(1).len() {
        assert(line.skip(1).subrange(i - 1, i - 1 + deps_marker().len()) =~= line.subrange(
            i,
            i + deps_marker().len(),
        ));
    }
}

pub proof fn lemma_find_marker(line: Seq<char>)
    ensures
        match find_marker(line) {
            Some(i) => marker_at(line, i) && forall|j: int| j < i ==> !marker_at(line, j),
            None => forall|j: int| !marker_at(line, j),
        },
    decreases line.len(),
{
    if marker_at(line, 0) {
        assert(forall|j: int| j < 0 ==> !marker_at(line, j));
    } else if line.len() == 0 {
    } else {
        lemma_find_marker(line.skip(1));
        match find_marker(line.skip(1)) {
            Some(i) => {
                lemma_marker_at_skip(line, i + 1);
                assert forall|j: int| j < i + 1 implies !marker_at(line, j) by {
                    if 1 <= j {
                        lemma_marker_at_skip(line, j);
                    }
                }
            },
            None => {
                assert forall|j: int| true implies !marker_at(line, j) by {
                    if 1 <= j {
                        lemma_marker_at_skip(line, j);
                    }
                }
            },
        }
    }
}

/// `find_marker` is `Some` exactly on header lines.
pub proof fn lemma_is_header_line(line: Seq<char>)
    ensures
        is_header_line(line) == (find_marker(line) is Some),
{
    lemma_find_marker(line);
    match find_marker(line) {
        Some(i) => {
            assert(marker_at(line, i));
        },
        None => {
            assert(forall|j: int| !marker_at(line, j));
        },
    }
}

/// A dependency line: four literal spaces, then a non-empty path that does
/// not itself begin with a space.
pub open spec fn is_dep_line(line: Seq<char>) -> bool {
    line.len() >= 5 && line[0] == ' ' && line[1] == ' ' && line[2] == ' ' && line[3] == ' '
        && line[4] != ' '
}

/// The path a dependency line carries: everything after the indentation,
/// verbatim.
pub open spec fn dep_path(line: Seq<char>) -> Seq<char> {
    line.skip(4)
}

/// Whether the pattern `pat` stands in `s` at character position `i`.
pub fn chars_match_at(s: &str, i: usize, pat: &str) -> (r: bool)
    requires
        i <= s@.len(),
    ensures
        r == (i + pat@.len() <= s@.len() && s@.subrange(i as int, i + pat@.len()) == pat@),
{
    let n = s.unicode_len();
    let plen = pat.unicode_len();
    if plen > n - i {
        return false;
    }
    let mut k: usize = 0;
    while k < plen
        invariant
            0 <= k <= plen,
            i + plen <= n,
            n as nat == s@.len(),
            plen as nat == pat@.len(),
            i <= s@.len(),
            forall|q: int| 0 <= q < k ==> s@[i + q] == pat@[q],
        decreases plen - k,
    {
        if s.get_char(i + k) != pat.get_char(k) {
            proof {
                assert(s@.subrange(i as int, i + pat@.len())[k as int] != pat@[k as int]);
            }
            return false;
        }
        k = k + 1;
    }
    proof {
        assert(s@.subrange(i as int, i + pat@.len()) =~= pat@);
    }
    true
}

/// Whether `s` has the exact shape of what follows the output path on a
/// header line: the marker itself, then anything free of line breaks.
pub fn output_line_suffix(s: &str) -> (r: bool)
    ensures
        r == (s@.len() >= deps_marker().len() && s@.take(deps_marker().len() as int)
            == deps_marker() && no_line_break(s@.skip(deps_marker().len() as int))),
{
    let n = s.unicode_len();
    if !chars_match_at(s, 0, ": #deps") {
        proof {
            assert(s@.subrange(0, deps_marker().len() as int) == s@.take(
                deps_marker().len() as int,
            ));
        }
        return false;
    }
    let plen = ": #deps".unicode_len();
    let mut k: usize = plen;
    while k < n
        invariant
            plen <= k <= n,
            n as nat == s@.len(),
            plen as nat == deps_marker().len(),
            forall|q: int| plen <= q < k ==> s@[q] != '\n' && s@[q] != '\r',
        decreases n - k,
    {
        if s.get_char(k) == '\n' || s.get_char(k) == '\r' {
            proof {
                assert(s@.skip(plen as int)[k - plen] == s@[k as int]);
            }
            return false;
        }
        k = k + 1;
    }
    proof {
        assert forall|q: int| 0 <= q < s@.skip(plen as int).len() implies s@.skip(plen as int)[q]
            != '\n' && s@.skip(plen as int)[q] != '\r' by {
            assert(s@.skip(plen as int)[q] == s@[q + plen]);
        }
    }
    true
}

/// Recognize a header line: `Some` of the output path exactly when `s` is
/// free of line breaks and contains the marker, `None` otherwise.
#[verifier::loop_isolation(false)]
pub fn recognize_output_line<'a>(s: &'a str) -> (r: Option<&'a str>)
    ensures
        match r {
            Some(p) => no_line_break(s@) && is_header_line(s@) && p@ == header_path(s@),
            None => !(no_line_break(s@) && is_header_line(s@)),
        },
{
    let n = s.unicode_len();
    let mut k: usize = 0;
    while k < n
        invariant
            0 <= k <= n,
            forall|q: int| 0 <= q < k ==> s@[q] != '\n' && s@[q] != '\r',
        decreases n - k,
    {
        if s.get_char(k) == '\n' || s.get_char(k) == '\r' {
            return None;
        }
        k = k + 1;
    }
    let mut i: usize = 0;
    while i < n
        invariant
            0 <= i <= n,
            forall|j: int| 0 <= j < i ==> !marker_at(s@, j),
        decreases n - i,
    {
        if chars_match_at(s, i, ": #deps") {
            proof {
                assert(marker_at(s@, i as int));
                lemma_find_marker(s@);
                lemma_is_header_line(s@);
                let f = find_marker(s@).unwrap();
                if f < i as int {
                    assert(!marker_at(s@, f));
                    assert(false);
                }
                if f > i as int {
                    assert(!marker_at(s@, i as int));
                    assert(false);
                }
            }
            let p = s.substring_char(0, i);
            proof {
                assert(p@ =~= header_path(s@));
            }
            return Some(p);
        }
        i = i + 1;
    }
    proof {
        lemma_find_marker(s@);
        lemma_is_header_line(s@);
        reveal_strlit(": #deps");
        assert(deps_marker().len() == 7);
        assert(forall|j: int| true ==> !marker_at(s@, j));
        assert(find_marker(s@) is None);
    }
    None
}

/// Recognize a dependency line: `Some` of the path exactly when `s` is free
/// of line breaks and has the dependency-line shape, `None` otherwise.
#[verifier::loop_isolation(false)]
pub fn recognize_dep<'a>(s: &'a str) -> (r: Option<&'a str>)
    ensures
        match r {
            Some(p) => no_line_break(s@) && is_dep_line(s@) && p@ == dep_path(s@),
            None => !(no_line_break(s@) && is_dep_line(s@)),
        },
{
    let n = s.unicode_len();
    let mut k: usize = 0;
    while k < n
        invariant
            0 <= k <= n,
            forall|q: int| 0 <= q < k ==> s@[q] != '\n' && s@[q] != '\r',
        decreases n - k,
    {
        if s.get_char(k) == '\n' || s.get_char(k) == '\r' {
            return None;
        }
        k = k + 1;
    }
    if n < 5 {
        return None;
    }
    if s.get_char(0) != ' ' || s.get_char(1) != ' ' || s.get_char(2) != ' ' || s.get_char(3) != ' '
        || s.get_char(4) == ' ' {
        return None;
    }
    let p = s.substring_char(4, n);
    proof {
        assert(p@ =~= dep_path(s@));
    }
    Some(p)
}

/// Length of the maximal run of dependency lines in `lines` starting at `i`.
pub open spec fn dep_run_len(lines: Seq<Seq<char>>, i: int) -> int
    decreases lines.len() - i,
{
    if i < lines.len() && is_dep_line(lines[i]) {
        1 + dep_run_len(lines, i + 1)
    } else {
        0
    }
}

pub proof fn lemma_dep_run_len(lines: Seq<Seq<char>>, i: int)
    requires
        0 <= i <= lines.len(),
    ensures
        ({
            let k = dep_run_len(lines, i);
            &&& 0 <= k
            &&& i + k <= lines.len()
            &&& forall|t: int| i <= t < i + k ==> is_dep_line(lines[t])
            &&& (i + k == lines.len() || !is_dep_line(lines[i + k]))
        }),
    decreases lines.len() - i,
{
    if i < lines.len() && is_dep_line(lines[i]) {
        lemma_dep_run_len(lines, i + 1);
    }
}

/// One parsed stanza at the level of the mathematical model: the output path
/// and its ordered inputs, as character sequences.
#[verifier::ext_equal]
pub struct DepsView {
    pub output: Seq<char>,
    pub inputs: Seq<Seq<char>>,
}

/// The dependency-report grammar over cleaned lines: a sequence of stanzas,
/// each one header line followed by its maximal run of dependency lines;
/// every line must belong to some stanza, or the whole document fails.
pub open spec fn spec_parse_doc(lines: Seq<Seq<char>>) -> Option<Seq<DepsView>>
    decreases lines.len(),
    via spec_parse_doc_decreases
{
    if lines.len() == 0 {
        Some(Seq::empty())
    } else if !is_header_line(lines[0]) {
        None
    } else {
        let k = dep_run_len(lines, 1);
        let rec = DepsView {
            output: header_path(lines[0]),
            inputs: lines.subrange(1, 1 + k).map_values(|l: Seq<char>| dep_path(l)),
        };
        match spec_parse_doc(lines.skip(1 + k)) {
            Some(rest) => Some(seq![rec] + rest),
            None => None,
        }
    }
}

#[via_fn]
proof fn spec_parse_doc_decreases(lines: Seq<Seq<char>>) {
    if lines.len() > 0 {
        lemma_dep_run_len(lines, 1);
    }
}

/// What the whole report text parses to: `None` on any line that fails to
/// match the grammar at its expected position.
pub open spec fn spec_parse_deps(text: Seq<char>) -> Option<Seq<DepsView>> {
    match clean_lines(text) {
        Some(lines) => spec_parse_doc(lines),
        None => None,
    }
}

/// One stanza of the report: one output path and its ordered inputs, borrowed
/// from the parsed text.
#[derive(Debug, Clone)]
pub struct DepsForOneFile<'a> {
    pub output: &'a str,
    pub inputs: Vec<&'a str>,
}

impl<'a> View for DepsForOneFile<'a> {
    type V = DepsView;

    open spec fn view(&self) -> DepsView {
        DepsView { output: self.output@, inputs: self.inputs.deep_view() }
    }
}

impl<'a> DeepView for DepsForOneFile<'a> {
    type V = DepsView;

    open spec fn deep_view(&self) -> DepsView {
        self.view()
    }
}

/// One stanza of the report with owned path strings, for results that must
/// outlive the parsed text.
#[derive(Debug, Clone)]
pub struct DepsForOneFileOwned {
    pub output: String,
    pub inputs: Vec<String>,
}

impl View for DepsForOneFileOwned {
    type V = DepsView;

    open spec fn view(&self) -> DepsView {
        DepsView { output: self.output@, inputs: self.inputs.deep_view() }
    }
}

impl<'a> DepsForOneFile<'a> {
    /// Deep-copy the borrowed paths into an owned record.
    pub fn into_owned(self) -> (r: DepsForOneFileOwned)
        ensures
            r@ == self@,
    {
        let output = self.output.to_owned();
        let mut inputs: Vec<String> = Vec::new();
        let mut i: usize = 0;
        while i < self.inputs.len()
            invariant
                0 <= i <= self.inputs.len(),
                inputs.deep_view() == self.inputs.deep_view().take(i as int),
            decreases self.inputs.len() - i,
        {
            let ghost dv0 = inputs.deep_view();
            let ghost v0 = inputs@;
            let piece = self.inputs[i].to_owned();
            inputs.push(piece);
            proof {
                assert(inputs@ == v0.push(piece));
                assert(self.inputs.deep_view().len() == self.inputs@.len());
                assert(dv0.len() == v0.len());
                assert(dv0.len() == i as int);
                assert forall|q: int| 0 <= q < inputs.deep_view().len() implies inputs.deep_view()[q]
                    == self.inputs.deep_view().take(i + 1)[q] by {
                    if q < i as int {
                        assert(inputs@[q] == v0[q]);
                        assert(inputs.deep_view()[q] == v0[q]@);
                        assert(dv0[q] == v0[q]@);
                        assert(dv0[q] == self.inputs.deep_view()[q]);
                    } else {
                        assert(inputs@[q] == piece);
                        assert(inputs.deep_view()[q] == piece@);
                        assert(self.inputs.deep_view().take(i + 1)[q] == self.inputs@[q]@);
                    }
                }
                assert(inputs.deep_view() =~= self.inputs.deep_view().take(i + 1));
            }
            i = i + 1;
        }
        proof {
            assert(self.inputs.deep_view().take(self.inputs.len() as int) =~= self.inputs.deep_view());
        }
        let r = DepsForOneFileOwned { output, inputs };
        proof {
            assert(r@ =~= self@);
        }
        r
    }
}

/// Parse the full text of a dependency-listing report into its stanzas, in
/// order. Succeeds exactly when the whole text matches the grammar; any line
/// failing to match at its expected position fails the whole document, with
/// the index of the offending line in the error.
#[verifier::loop_isolation(false)]
#[verifier::rlimit(60)]
pub fn recognize_deps<'a>(input: &'a str) -> (r: Result<Vec<DepsForOneFile<'a>>, ParseError>)
    ensures
        match r {
            Ok(v) => spec_parse_deps(input@) == Some(v.deep_view()),
            Err(e) => spec_parse_deps(input@) is None,
        },
{
    let lines = match split_clean_lines(input) {
        Ok(l) => l,
        Err(e) => {
            return Err(e);
        },
    };
    let ghost all: Seq<Seq<char>> = lines.deep_view();
    proof {
        lemma_clean_lines_no_break(input@, all);
    }
    let n = lines.len();
    let mut out: Vec<DepsForOneFile<'a>> = Vec::new();
    let mut i: usize = 0;
    proof {
        assert(all.skip(0) =~= all);
    }
    while i < n
        invariant
            0 <= i <= n,
            n == lines.len(),
            match spec_parse_doc(all.skip(i as int)) {
                Some(rest) => spec_parse_doc(all) == Some(out.deep_view() + rest),
                None => spec_parse_doc(all) is None,
            },
        decreases n - i,
    {
        let ghost tail = all.skip(i as int);
        let header = lines[i];
        let path = match recognize_output_line(header) {
            Some(p) => p,
            None => {
                proof {
                    assert(no_line_break(all[i as int]));
                    assert(tail[0] == all[i as int]);
                    assert(!is_header_line(tail[0]));
                    assert(spec_parse_doc(tail) is None);
                }
                return Err(ParseError { line: i });
            },
        };
        let mut inputs: Vec<&'a str> = Vec::new();
        let mut j = i + 1;
        while j < n
            invariant
                i + 1 <= j <= n,
                forall|t: int| i + 1 <= t < j ==> is_dep_line(all[t]),
                inputs.deep_view() == all.subrange(i + 1, j as int).map_values(
                    |l: Seq<char>| dep_path(l),
                ),
            decreases n - j,
        {
            let ghost dv0 = inputs.deep_view();
            match recognize_dep(lines[j]) {
                Some(p) => {
                    inputs.push(p);
                    proof {
                        let f = |l: Seq<char>| dep_path(l);
                        assert forall|q: int| 0 <= q < inputs.deep_view().len() implies inputs.deep_view()[q]
                            == all.subrange(i + 1, j + 1).map_values(f)[q] by {
                            if q < j - i - 1 {
                                assert(inputs.deep_view()[q] == dv0[q]);
                                assert(all.subrange(i + 1, j as int)[q] == all.subrange(
                                    i + 1,
                                    j + 1,
                                )[q]);
                            } else {
                                assert(inputs.deep_view()[q] == p@);
                                assert(all.subrange(i + 1, j + 1)[q] == all[j as int]);
                            }
                        }
                        assert(inputs.deep_view() =~= all.subrange(i + 1, j + 1).map_values(f));
                    }
                },
                None => {
                    proof {
                        assert(no_line_break(all[j as int]));
                        assert(!is_dep_line(all[j as int]));
                    }
                    break ;
                },
            }
            j = j + 1;
        }
        proof {
            // The run of dependency lines after the header is exactly j - i - 1.
            lemma_dep_run_len(tail, 1);
            let k = dep_run_len(tail, 1);
            assert(forall|u: int| 0 <= u < tail.len() ==> tail[u] == all[i + u]);
            if k < j - i - 1 {
                assert(is_dep_line(all[i + 1 + k]));
                assert(!is_dep_line(tail[1 + k]));
                assert(false);
            }
            if k > j - i - 1 {
                assert(is_dep_line(tail[1 + (j - i - 1)]));
                assert(!is_dep_line(all[j as int]) || j == n);
                assert(false);
            }
            assert(k == j - i - 1);
            assert(is_header_line(tail[0]));
            let f = |l: Seq<char>| dep_path(l);
            assert(tail.subrange(1, 1 + k) =~= all.subrange(i + 1, j as int));
            assert(header_path(tail[0]) == path@);
            assert(tail.skip(1 + k) =~= all.skip(j as int));
        }
        let ghost out0 = out.deep_view();
        let rec = DepsForOneFile { output: path, inputs };
        out.push(rec);
        proof {
            let k = dep_run_len(tail, 1);
            let stanza = DepsView {
                output: header_path(tail[0]),
                inputs: tail.subrange(1, 1 + k).map_values(|l: Seq<char>| dep_path(l)),
            };
            assert(rec@ =~= stanza);
            assert forall|q: int| 0 <= q < out.deep_view().len() implies out.deep_view()[q] == (
            out0 + seq![stanza])[q] by {
                if q < out0.len() {
                    assert(out.deep_view()[q] == out0[q]);
                } else {
                    assert(out.deep_view()[q] == rec@);
                }
            }
            assert(out.deep_view() =~= out0 + seq![stanza]);
            match spec_parse_doc(all.skip(j as int)) {
                Some(rest) => {
                    assert(spec_parse_doc(tail) == Some(seq![stanza] + rest));
                    assert(out0 + (seq![stanza] + rest) =~= out.deep_view() + rest);
                },
                None => {
                    assert(spec_parse_doc(tail) is None);
                },
            }
        }
        i = j;
    }
    proof {
        assert(all.skip(n as int) =~= Seq::<Seq<char>>::empty());
        assert(spec_parse_doc(all.skip(n as int)) == Some(Seq::<DepsView>::empty()));
        assert(out.deep_view() + Seq::<DepsView>::empty() =~= out.deep_view());
    }
    Ok(out)
}

} // verus!
