//! The general properties the library promises, stated and proved over the
//! registry's abstract model and the parsers' grammar specifications.

use vstd::prelude::*;

use crate::deps_file::deps_marker;
use crate::deps_file::header_path;
use crate::deps_file::is_header_line;
use crate::deps_file::lemma_find_marker;
use crate::deps_file::lemma_is_header_line;
use crate::deps_file::marker_at;
use crate::deps_file::spec_parse_deps;
use crate::deps_file::spec_parse_doc;
use crate::deps_file::DepsView;
use crate::lines::find_newline;
use crate::lines::lemma_find_newline;
use crate::lines::raw_lines;
use crate::registry::spec_assign;
use crate::registry::spec_ingest;
use crate::registry::spec_record_dependency;
use crate::registry::FileType;
use crate::registry::RegistryModel;

verus! {

/// Promotion never moves a classification down: the result ranks at least as
/// high as either argument.
pub proof fn lemma_promote_monotonic(a: FileType, b: FileType)
    ensures
        a.spec_promote(b).rank() >= a.rank(),
        a.spec_promote(b).rank() >= b.rank(),
{
}

/// Promotion is order-independent in final value: applying two observations
/// in either order stores the same classification.
pub proof fn lemma_promote_order_independent(a: FileType, b: FileType, c: FileType)
    ensures
        a.spec_promote(b).spec_promote(c) == a.spec_promote(c).spec_promote(b),
{
}

/// The least classification is the identity of promotion.
pub proof fn lemma_promote_source_identity(a: FileType)
    ensures
        a.spec_promote(FileType::SourceFile) == a,
        FileType::SourceFile.spec_promote(a) == a,
{
}

/// What one insertion does to the model, in full: well-formedness is kept,
/// the path ends up present under a stable identity, no stored
/// classification ever decreases, identities of paths already present do not
/// move, and the edge set is untouched.
pub proof fn lemma_assign_props(m: RegistryModel, path: Seq<char>, t: FileType)
    requires
        m.wf(),
    ensures
        ({
            let (m1, i) = spec_assign(m, path, t);
            &&& m1.wf()
            &&& 0 <= i < m1.paths.len()
            &&& m.paths.len() <= m1.paths.len()
            &&& m1.paths[i] == path
            &&& m1.id_of(path) == Some(i)
            &&& forall|q: int| 0 <= q < m.paths.len() ==> m1.paths[q] == m.paths[q]
            &&& forall|q: int|
                0 <= q < m.kinds.len() ==> (#[trigger] m1.kinds[q]).rank() >= m.kinds[q].rank()
            &&& m1.kinds[i].rank() >= t.rank()
            &&& m1.edges == m.edges
            &&& forall|p: Seq<char>|
                (#[trigger] m.id_of(p)) is Some ==> m1.id_of(p) == m.id_of(p)
        }),
{
    m.paths.index_of_first_ensures(path);
    let (m1, i) = spec_assign(m, path, t);
    match m.paths.index_of_first(path) {
        Some(f) => {
            assert(m1.paths == m.paths);
            assert forall|p: Seq<char>| (#[trigger] m.id_of(p)) is Some implies m1.id_of(p)
                == m.id_of(p) by {}
            assert(m1.kinds[i] == m.kinds[f].spec_promote(t));
            lemma_promote_monotonic(m.kinds[f], t);
        },
        None => {
            let n = m.paths.len() as int;
            assert(forall|q: int| 0 <= q < n ==> m.paths[q] != path);
            assert(m1.paths[n] == path);
            assert(forall|q: int| 0 <= q < n ==> m1.paths[q] == m.paths[q]);
            assert(m1.paths.no_duplicates()) by {
                assert forall|a: int, b: int|
                    0 <= a < b < m1.paths.len() implies m1.paths[a] != m1.paths[b] by {
                    if b < n {
                        assert(m.paths[a] != m.paths[b]);
                    } else {
                        assert(m1.paths[b] == path);
                        assert(m1.paths[a] == m.paths[a]);
                    }
                }
            }
            m1.paths.index_of_first_ensures(path);
            assert(m1.paths.contains(path));
            let f1 = m1.paths.index_of_first(path).unwrap();
            if f1 < n {
                assert(m.paths[f1] == path);
                assert(false);
            }
            assert(m1.id_of(path) == Some(n));
            assert(m1.kinds[i] == t);
            assert forall|p: Seq<char>| (#[trigger] m.id_of(p)) is Some implies m1.id_of(p)
                == m.id_of(p) by {
                m.paths.index_of_first_ensures(p);
                m1.paths.index_of_first_ensures(p);
                let f = m.id_of(p).unwrap();
                assert(m1.paths[f] == p);
                assert(m1.paths.contains(p));
                let f2 = m1.id_of(p).unwrap();
                if f2 < f {
                    assert(m1.paths[f2] == m.paths[f2]);
                    assert(false);
                }
                if f2 > f {
                    assert(false);
                }
            }
        },
    }
}

/// What recording one dependency does to the model, in full: well-formedness
/// is kept, both paths end up present, the producer's classification ranks
/// at least `GeneratedFile`, the recorded edge is in the graph, and nothing
/// already stored is lost or demoted.
pub proof fn lemma_record_dependency_props(m: RegistryModel, prod: Seq<char>, inp: Seq<char>)
    requires
        m.wf(),
    ensures
        ({
            let m2 = spec_record_dependency(m, prod, inp);
            &&& m2.wf()
            &&& m.paths.len() <= m2.paths.len()
            &&& forall|q: int| 0 <= q < m.paths.len() ==> m2.paths[q] == m.paths[q]
            &&& forall|q: int|
                0 <= q < m.kinds.len() ==> (#[trigger] m2.kinds[q]).rank() >= m.kinds[q].rank()
            &&& forall|e: (int, int)| #[trigger] m.edges.contains(e) ==> m2.edges.contains(e)
            &&& forall|p: Seq<char>|
                (#[trigger] m.id_of(p)) is Some ==> m2.id_of(p) == m.id_of(p)
            &&& m2.id_of(prod) is Some
            &&& m2.id_of(inp) is Some
            &&& m2.kinds[m2.id_of(prod).unwrap()].rank() >= FileType::GeneratedFile.rank()
            &&& m2.edges.contains((m2.id_of(prod).unwrap(), m2.id_of(inp).unwrap()))
        }),
{
    let (ma, i) = spec_assign(m, prod, FileType::GeneratedFile);
    lemma_assign_props(m, prod, FileType::GeneratedFile);
    let (mb, j) = spec_assign(ma, inp, FileType::SourceFile);
    lemma_assign_props(ma, inp, FileType::SourceFile);
    let m2 = spec_record_dependency(m, prod, inp);
    assert(mb.id_of(prod) == Some(i));
    assert(m2.paths == mb.paths && m2.kinds == mb.kinds);
    assert(m2.id_of(prod) == Some(i));
    assert(m2.id_of(inp) == Some(j));
    assert(mb.kinds[i].rank() >= ma.kinds[i].rank());
    assert(m2.edges.contains((i, j)));
    assert(m2.wf()) by {
        assert forall|e: (int, int)| #[trigger] m2.edges.contains(e) implies 0 <= e.0
            < m2.paths.len() && 0 <= e.1 < m2.paths.len() by {
            if e != ((i, j)) {
                assert(mb.edges.contains(e));
            }
        }
    }
}

/// Inserting a path whose stored classification already absorbs the request
/// changes nothing.
pub proof fn lemma_assign_stable(m: RegistryModel, path: Seq<char>, t: FileType)
    requires
        m.wf(),
        m.id_of(path) is Some,
        m.kinds[m.id_of(path).unwrap()].spec_promote(t) == m.kinds[m.id_of(path).unwrap()],
    ensures
        spec_assign(m, path, t).0 == m,
        spec_assign(m, path, t).1 == m.id_of(path).unwrap(),
{
    m.paths.index_of_first_ensures(path);
    let f = m.id_of(path).unwrap();
    assert(m.kinds.update(f, m.kinds[f].spec_promote(t)) =~= m.kinds);
    assert(spec_assign(m, path, t).0 =~= m);
}

/// Recording a dependency that is already fully recorded changes nothing:
/// the operation is idempotent.
pub proof fn lemma_record_dependency_stable(m: RegistryModel, prod: Seq<char>, inp: Seq<char>)
    requires
        m.wf(),
        m.id_of(prod) is Some,
        m.kinds[m.id_of(prod).unwrap()].rank() >= FileType::GeneratedFile.rank(),
        m.id_of(inp) is Some,
        m.edges.contains((m.id_of(prod).unwrap(), m.id_of(inp).unwrap())),
    ensures
        spec_record_dependency(m, prod, inp) == m,
{
    m.paths.index_of_first_ensures(prod);
    m.paths.index_of_first_ensures(inp);
    let i = m.id_of(prod).unwrap();
    let j = m.id_of(inp).unwrap();
    assert(m.kinds[i].spec_promote(FileType::GeneratedFile) == m.kinds[i]);
    lemma_assign_stable(m, prod, FileType::GeneratedFile);
    lemma_promote_source_identity(m.kinds[j]);
    lemma_assign_stable(m, inp, FileType::SourceFile);
    assert(m.edges.insert((i, j)) =~= m.edges);
    assert(spec_record_dependency(m, prod, inp) =~= m);
}

/// A stanza is fully recorded in a model: its output is present and ranks at
/// least `GeneratedFile`, every input is present, and every edge from the
/// output to an input is in the graph.
pub open spec fn record_settled(m: RegistryModel, output: Seq<char>, inputs: Seq<Seq<char>>) -> bool {
    &&& m.id_of(output) is Some
    &&& m.kinds[m.id_of(output).unwrap()].rank() >= FileType::GeneratedFile.rank()
    &&& forall|k: int| 0 <= k < inputs.len() ==> (#[trigger] m.id_of(inputs[k])) is Some
    &&& forall|k: int|
        0 <= k < inputs.len() ==> m.edges.contains(
            (m.id_of(output).unwrap(), (#[trigger] m.id_of(inputs[k])).unwrap()),
        )
}

/// What ingesting one stanza does to the model, in full: well-formedness is
/// kept, the stanza ends up fully recorded, and nothing already stored is
/// lost or demoted.
pub proof fn lemma_ingest_props(m: RegistryModel, output: Seq<char>, inputs: Seq<Seq<char>>)
    requires
        m.wf(),
    ensures
        ({
            let mi = spec_ingest(m, output, inputs);
            &&& mi.wf()
            &&& m.paths.len() <= mi.paths.len()
            &&& forall|q: int| 0 <= q < m.paths.len() ==> mi.paths[q] == m.paths[q]
            &&& forall|q: int|
                0 <= q < m.kinds.len() ==> (#[trigger] mi.kinds[q]).rank() >= m.kinds[q].rank()
            &&& forall|e: (int, int)| #[trigger] m.edges.contains(e) ==> mi.edges.contains(e)
            &&& forall|p: Seq<char>|
                (#[trigger] m.id_of(p)) is Some ==> mi.id_of(p) == m.id_of(p)
            &&& record_settled(mi, output, inputs)
        }),
    decreases inputs.len(),
{
    let mi = spec_ingest(m, output, inputs);
    if inputs.len() == 0 {
        lemma_assign_props(m, output, FileType::GeneratedFile);
    } else {
        let mp = spec_ingest(m, output, inputs.drop_last());
        lemma_ingest_props(m, output, inputs.drop_last());
        lemma_record_dependency_props(mp, output, inputs.last());
        mp.paths.index_of_first_ensures(output);
        let io = mp.id_of(output).unwrap();
        assert(mi.id_of(output) == Some(io));
        assert(mi.kinds[io].rank() >= mp.kinds[io].rank());
        assert(record_settled(mi, output, inputs)) by {
            assert forall|k: int| 0 <= k < inputs.len() implies (#[trigger] mi.id_of(inputs[k]))
                is Some by {
                if k < inputs.len() - 1 {
                    assert(inputs.drop_last()[k] == inputs[k]);
                    assert(mp.id_of(inputs.drop_last()[k]) is Some);
                } else {
                    assert(inputs.last() == inputs[k]);
                }
            }
            assert forall|k: int| 0 <= k < inputs.len() implies mi.edges.contains(
                (mi.id_of(output).unwrap(), (#[trigger] mi.id_of(inputs[k])).unwrap()),
            ) by {
                if k < inputs.len() - 1 {
                    assert(inputs.drop_last()[k] == inputs[k]);
                    assert(mp.id_of(inputs.drop_last()[k]) is Some);
                    assert(mi.id_of(inputs[k]) == mp.id_of(inputs[k]));
                    assert(mp.edges.contains((io, mp.id_of(inputs[k]).unwrap())));
                } else {
                    assert(inputs.last() == inputs[k]);
                }
            }
        }
    }
}

/// Ingesting a stanza that is already fully recorded changes nothing.
pub proof fn lemma_ingest_stable(m: RegistryModel, output: Seq<char>, inputs: Seq<Seq<char>>)
    requires
        m.wf(),
        record_settled(m, output, inputs),
    ensures
        spec_ingest(m, output, inputs) == m,
    decreases inputs.len(),
{
    if inputs.len() == 0 {
        let i = m.id_of(output).unwrap();
        assert(m.kinds[i].spec_promote(FileType::GeneratedFile) == m.kinds[i]);
        lemma_assign_stable(m, output, FileType::GeneratedFile);
    } else {
        assert(record_settled(m, output, inputs.drop_last())) by {
            assert(forall|k: int|
                0 <= k < inputs.drop_last().len() ==> inputs.drop_last()[k] == inputs[k]);
        }
        lemma_ingest_stable(m, output, inputs.drop_last());
        assert(inputs.last() == inputs[inputs.len() - 1]);
        lemma_record_dependency_stable(m, output, inputs.last());
    }
}

/// Ingesting the same stanza twice leaves exactly the state of ingesting it
/// once: no duplicated identities, no duplicated edges, no changed
/// classifications.
pub proof fn lemma_ingest_idempotent(m: RegistryModel, output: Seq<char>, inputs: Seq<Seq<char>>)
    requires
        m.wf(),
    ensures
        spec_ingest(spec_ingest(m, output, inputs), output, inputs) == spec_ingest(
            m,
            output,
            inputs,
        ),
{
    lemma_ingest_props(m, output, inputs);
    lemma_ingest_stable(spec_ingest(m, output, inputs), output, inputs);
}

/// What folding every stanza of a parsed report into the model yields, in
/// order.
pub open spec fn spec_ingest_all(m: RegistryModel, docs: Seq<DepsView>) -> RegistryModel
    decreases docs.len(),
{
    if docs.len() == 0 {
        m
    } else {
        spec_ingest(spec_ingest_all(m, docs.drop_last()), docs.last().output, docs.last().inputs)
    }
}

/// A settled stanza stays settled through any later ingestion.
proof fn lemma_settled_preserved(
    m: RegistryModel,
    output: Seq<char>,
    inputs: Seq<Seq<char>>,
    output2: Seq<char>,
    inputs2: Seq<Seq<char>>,
)
    requires
        m.wf(),
        record_settled(m, output, inputs),
    ensures
        record_settled(spec_ingest(m, output2, inputs2), output, inputs),
{
    lemma_ingest_props(m, output2, inputs2);
    let mi = spec_ingest(m, output2, inputs2);
    m.paths.index_of_first_ensures(output);
    let io = m.id_of(output).unwrap();
    assert(mi.id_of(output) == Some(io));
    assert(mi.kinds[io].rank() >= m.kinds[io].rank());
    assert forall|k: int| 0 <= k < inputs.len() implies (#[trigger] mi.id_of(inputs[k]))
        is Some by {
        assert(m.id_of(inputs[k]) is Some);
    }
    assert forall|k: int| 0 <= k < inputs.len() implies mi.edges.contains(
        (mi.id_of(output).unwrap(), (#[trigger] mi.id_of(inputs[k])).unwrap()),
    ) by {
        assert(m.id_of(inputs[k]) is Some);
        assert(mi.id_of(inputs[k]) == m.id_of(inputs[k]));
        assert(m.edges.contains((io, m.id_of(inputs[k]).unwrap())));
    }
}

/// After a whole report is ingested, every one of its stanzas is fully
/// recorded, and the model is still well-formed.
pub proof fn lemma_ingest_all_props(m: RegistryModel, docs: Seq<DepsView>)
    requires
        m.wf(),
    ensures
        ({
            let mi = spec_ingest_all(m, docs);
            &&& mi.wf()
            &&& forall|d: int|
                0 <= d < docs.len() ==> record_settled(
                    mi,
                    (#[trigger] docs[d]).output,
                    docs[d].inputs,
                )
        }),
    decreases docs.len(),
{
    if docs.len() > 0 {
        let mp = spec_ingest_all(m, docs.drop_last());
        lemma_ingest_all_props(m, docs.drop_last());
        lemma_ingest_props(mp, docs.last().output, docs.last().inputs);
        let mi = spec_ingest_all(m, docs);
        assert forall|d: int| 0 <= d < docs.len() implies record_settled(
            mi,
            (#[trigger] docs[d]).output,
            docs[d].inputs,
        ) by {
            if d < docs.len() - 1 {
                assert(docs.drop_last()[d] == docs[d]);
                assert(record_settled(mp, docs[d].output, docs[d].inputs));
                lemma_settled_preserved(
                    mp,
                    docs[d].output,
                    docs[d].inputs,
                    docs.last().output,
                    docs.last().inputs,
                );
            } else {
                assert(docs.last() == docs[d]);
            }
        }
    }
}

/// Ingesting a report whose every stanza is already fully recorded changes
/// nothing.
proof fn lemma_ingest_all_stable(m: RegistryModel, docs: Seq<DepsView>)
    requires
        m.wf(),
        forall|d: int|
            0 <= d < docs.len() ==> record_settled(m, (#[trigger] docs[d]).output, docs[d].inputs),
    ensures
        spec_ingest_all(m, docs) == m,
    decreases docs.len(),
{
    if docs.len() > 0 {
        assert(forall|d: int| 0 <= d < docs.drop_last().len() ==> docs.drop_last()[d] == docs[d]);
        lemma_ingest_all_stable(m, docs.drop_last());
        assert(docs.last() == docs[docs.len() - 1]);
        lemma_ingest_stable(m, docs.last().output, docs.last().inputs);
    }
}

/// Re-running ingestion over the identical report leaves the registry
/// exactly as one run does: identities, classifications and edges are all
/// unchanged by the second pass.
pub proof fn lemma_ingest_all_idempotent(m: RegistryModel, docs: Seq<DepsView>)
    requires
        m.wf(),
    ensures
        spec_ingest_all(spec_ingest_all(m, docs), docs) == spec_ingest_all(m, docs),
{
    lemma_ingest_all_props(m, docs);
    lemma_ingest_all_stable(spec_ingest_all(m, docs), docs);
}

/// For every header line built as `<p>` + the marker + any suffix, the
/// parser's grammar extracts the output path exactly `<p>`, whatever the
/// suffix holds — provided the marker does not already occur inside `<p>`.
#[verifier::rlimit(60)]
pub proof fn lemma_header_extracts_path(p: Seq<char>, suffix: Seq<char>)
    requires
        forall|i: int| !marker_at(p, i),
    ensures
        is_header_line(p + deps_marker() + suffix),
        header_path(p + deps_marker() + suffix) == p,
{
    reveal_strlit(": #deps");
    assert(deps_marker().len() == 7);
    let line = p + deps_marker() + suffix;
    let n = p.len() as int;
    assert(line.subrange(n, n + 7) =~= deps_marker());
    assert(marker_at(line, n));
    assert forall|i: int| 0 <= i < n implies !marker_at(line, i) by {
        if marker_at(line, i) {
            if i + 7 <= n {
                assert(p.subrange(i, i + 7) =~= line.subrange(i, i + 7));
                assert(marker_at(p, i));
                assert(false);
            } else {
                // The occurrence would straddle the end of `p`: then the
                // marker's first character, a colon, would also stand at a
                // later position inside the marker, where no colon stands.
                let j = n - i;
                assert(1 <= j < 7);
                assert(line.subrange(i, i + 7)[j] == deps_marker()[j]);
                assert(line[n] == deps_marker()[j]);
                assert(line[n] == deps_marker()[0]);
                assert(deps_marker()[0] == ':');
                assert(deps_marker()[1] == ' ' && deps_marker()[2] == '#' && deps_marker()[3]
                    == 'd' && deps_marker()[4] == 'e' && deps_marker()[5] == 'p'
                    && deps_marker()[6] == 's');
                assert(false);
            }
        }
    }
    lemma_find_marker(line);
    lemma_is_header_line(line);
    match crate::deps_file::find_marker(line) {
        Some(f) => {
            if f < n {
                assert(!marker_at(line, f));
                assert(false);
            }
            if f > n {
                assert(!marker_at(line, n));
                assert(false);
            }
        },
        None => {
            assert(!marker_at(line, n));
            assert(false);
        },
    }
    assert(header_path(line) == line.take(n) && line.take(n) =~= p);
}

/// A final line lacking its terminator at end of input parses like a
/// terminated one: appending the missing line feed to report text that does
/// not already end in one changes no line, and so no parse.
pub proof fn lemma_final_terminator_optional(s: Seq<char>)
    requires
        s.len() > 0,
        s.last() != '\n',
    ensures
        raw_lines(s.push('\n')) == raw_lines(s),
    decreases s.len(),
{
    lemma_find_newline(s);
    let s2 = s.push('\n');
    lemma_find_newline(s2);
    match find_newline(s) {
        Some(i) => {
            match find_newline(s2) {
                Some(i2) => {
                    if i2 < i {
                        assert(s[i2] == s2[i2]);
                        assert(false);
                    }
                    if i2 > i {
                        assert(s2[i] == s[i]);
                        assert(false);
                    }
                },
                None => {
                    assert(s2[i] == s[i]);
                    assert(false);
                },
            }
            assert(s2.take(i) =~= s.take(i));
            assert(s2.skip(i + 1) =~= s.skip(i + 1).push('\n'));
            if i + 1 == s.len() {
                assert(s.last() == '\n');
                assert(false);
            }
            assert(s.skip(i + 1).len() > 0);
            assert(s.skip(i + 1).last() == s.last());
            lemma_final_terminator_optional(s.skip(i + 1));
        },
        None => {
            let n = s.len() as int;
            assert(s2[n] == '\n');
            match find_newline(s2) {
                Some(i2) => {
                    if i2 < n {
                        assert(s[i2] == s2[i2]);
                        assert(false);
                    }
                    assert(i2 == n);
                },
                None => {
                    assert(false);
                },
            }
            assert(s2.take(n) =~= s);
            assert(s2.skip(n + 1) =~= Seq::<char>::empty());
            assert(raw_lines(s2) == seq![s] + raw_lines(Seq::<char>::empty()));
            assert(seq![s] + Seq::<Seq<char>>::empty() =~= seq![s]);
            assert(raw_lines(s) == seq![s]);
        },
    }
}

/// The same, at the level of the whole dependency report: a report whose
/// final line lacks its terminator parses exactly as the terminated report.
pub proof fn lemma_deps_report_final_terminator(text: Seq<char>)
    requires
        text.len() > 0,
        text.last() != '\n',
    ensures
        spec_parse_deps(text.push('\n')) == spec_parse_deps(text),
{
    lemma_final_terminator_optional(text);
}

/// A stanza with zero dependency lines is valid and yields an output record
/// with an empty input sequence.
pub proof fn lemma_stanza_without_deps(h: Seq<char>)
    requires
        is_header_line(h),
    ensures
        spec_parse_doc(seq![h]) == Some(
            seq![DepsView { output: header_path(h), inputs: Seq::empty() }],
        ),
{
    let lines: Seq<Seq<char>> = seq![h];
    assert(lines[0] == h);
    assert(crate::deps_file::dep_run_len(lines, 1) == 0);
    assert(lines.skip(1) =~= Seq::<Seq<char>>::empty());
    assert(spec_parse_doc(lines.skip(1)) == Some(Seq::<DepsView>::empty()));
    let rec = DepsView {
        output: header_path(h),
        inputs: lines.subrange(1, 1).map_values(|l: Seq<char>| crate::deps_file::dep_path(l)),
    };
    assert(spec_parse_doc(lines) == Some(seq![rec] + Seq::<DepsView>::empty()));
    assert(rec.inputs =~= Seq::<Seq<char>>::empty());
    assert(rec =~= (DepsView { output: header_path(h), inputs: Seq::empty() }));
    assert(seq![rec] + Seq::<DepsView>::empty() =~= seq![
        DepsView { output: header_path(h), inputs: Seq::empty() },
    ]);
}

} // verus!
