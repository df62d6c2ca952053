//! The file registry: one stable small-integer identity per distinct path,
//! a monotonically promoted classification per identity, and a directed
//! dependency graph over identities.

use vstd::prelude::*;

use crate::deps_file::DepsForOneFile;
use crate::store::graph_add_edge;
use crate::store::graph_all_edges;
use crate::store::graph_contains_edge;
use crate::store::graph_edge_count;
use crate::store::graph_edge_set;
use crate::store::graph_new;
use crate::store::iset_elems;
use crate::store::iset_get_index;
use crate::store::iset_get_index_of;
use crate::store::iset_insert_full;
use crate::store::iset_new;

verus! {

/// Classification of a file seen during a build, ordered from least to most
/// "downstream": a plain source file, a generated intermediate, an output
/// artifact. A path's stored classification is only ever promoted upward.
#[derive(Clone, Copy, Debug, PartialEq, Eq, Structural)]
pub enum FileType {
    SourceFile,
    GeneratedFile,
    OutputArtifact,
}

impl FileType {
    /// Position of this classification in the promotion order.
    pub open spec fn rank(self) -> int {
        match self {
            FileType::SourceFile => 0,
            FileType::GeneratedFile => 1,
            FileType::OutputArtifact => 2,
        }
    }

    /// The higher of two classifications in the promotion order.
    pub open spec fn spec_promote(self, other: FileType) -> FileType {
        if self.rank() < other.rank() {
            other
        } else {
            self
        }
    }

    fn rank_exec(self) -> (r: u8)
        ensures
            r as int == self.rank(),
    {
        match self {
            FileType::SourceFile => 0,
            FileType::GeneratedFile => 1,
            FileType::OutputArtifact => 2,
        }
    }

    /// Promote this classification to the higher of itself and `new_type`;
    /// never demotes.
    pub fn promote_to(&mut self, new_type: FileType)
        ensures
            *final(self) == old(self).spec_promote(new_type),
    {
        if self.rank_exec() < new_type.rank_exec() {
            *self = new_type;
        }
    }
}

impl Default for FileType {
    /// A path's classification on first sight, before any promotion: the
    /// least-specific assumption.
    fn default() -> (r: Self)
        ensures
            r == FileType::SourceFile,
    {
        FileType::SourceFile
    }
}

/// The stable identity assigned to one distinct file path: its position in
/// insertion order.
#[derive(Clone, Copy, Debug, Hash, PartialEq, Eq, Structural)]
pub struct FileId(pub usize);

/// The abstract state of a [`Registry`]: the distinct paths in insertion
/// order, one classification per path at the same position, and the set of
/// directed producer-to-input edges over path positions.
#[verifier::ext_equal]
pub struct RegistryModel {
    pub paths: Seq<Seq<char>>,
    pub kinds: Seq<FileType>,
    pub edges: Set<(int, int)>,
}

impl RegistryModel {
    pub open spec fn empty() -> RegistryModel {
        RegistryModel { paths: Seq::empty(), kinds: Seq::empty(), edges: Set::empty() }
    }

    /// Well-formedness: paths are distinct, one classification per path, and
    /// every edge endpoint is an assigned identity.
    pub open spec fn wf(self) -> bool {
        &&& self.paths.no_duplicates()
        &&& self.kinds.len() == self.paths.len()
        &&& self.edges.finite()
        &&& forall|e: (int, int)|
            #[trigger] self.edges.contains(e) ==> 0 <= e.0 < self.paths.len() && 0 <= e.1
                < self.paths.len()
    }

    /// The identity the registry associates with `path`, or `None` where the
    /// path was never inserted.
    pub open spec fn id_of(self, path: Seq<char>) -> Option<int> {
        self.paths.index_of_first(path)
    }
}

/// What inserting `path` under `t` does to a model: a present path keeps its
/// identity and has its classification promoted; an absent one is appended
/// under the next identity, its default classification at once promoted to
/// `t` (the default is the least classification, so the stored value is `t`).
/// The result pairs the new model with the path's identity.
pub open spec fn spec_assign(m: RegistryModel, path: Seq<char>, t: FileType) -> (RegistryModel, int) {
    match m.paths.index_of_first(path) {
        Some(i) => (
            RegistryModel { kinds: m.kinds.update(i, m.kinds[i].spec_promote(t)), ..m },
            i,
        ),
        None => (
            RegistryModel { paths: m.paths.push(path), kinds: m.kinds.push(t), ..m },
            m.paths.len() as int,
        ),
    }
}

/// What recording one dependency does to a model: the producer is forced
/// toward `GeneratedFile`, the input toward `SourceFile`, and the directed
/// edge producer-to-input joins the edge set.
pub open spec fn spec_record_dependency(
    m: RegistryModel,
    producer: Seq<char>,
    input: Seq<char>,
) -> RegistryModel {
    let (m1, i) = spec_assign(m, producer, FileType::GeneratedFile);
    let (m2, j) = spec_assign(m1, input, FileType::SourceFile);
    RegistryModel { edges: m2.edges.insert((i, j)), ..m2 }
}

/// What ingesting one parsed record does to a model: the output path is
/// registered as a producer even when the record has no inputs, and one
/// dependency is recorded per input, in order.
pub open spec fn spec_ingest(
    m: RegistryModel,
    output: Seq<char>,
    inputs: Seq<Seq<char>>,
) -> RegistryModel
    decreases inputs.len(),
{
    if inputs.len() == 0 {
        spec_assign(m, output, FileType::GeneratedFile).0
    } else {
        spec_record_dependency(spec_ingest(m, output, inputs.drop_last()), output, inputs.last())
    }
}

/// The accumulating file registry and dependency graph: assigns one stable
/// [`FileId`] per distinct path, tracks the most downstream [`FileType`] ever
/// observed for it, and stores directed producer-to-input edges.
pub struct Registry {
    paths: indexmap::IndexSet<String>,
    kinds: Vec<FileType>,
    graph: petgraph::graphmap::DiGraphMap<usize, ()>,
}

impl View for Registry {
    type V = RegistryModel;

    closed spec fn view(&self) -> RegistryModel {
        RegistryModel {
            paths: iset_elems(self.paths),
            kinds: self.kinds@,
            edges: graph_edge_set(self.graph),
        }
    }
}

impl Registry {
    pub fn new() -> (r: Registry)
        ensures
            r@.wf(),
            r@ == RegistryModel::empty(),
    {
        let r = Registry { paths: iset_new(), kinds: Vec::new(), graph: graph_new() };
        proof {
            assert(r@ =~= RegistryModel::empty());
        }
        r
    }

    /// The number of identities assigned so far.
    pub fn len(&self) -> (n: usize)
        requires
            self@.wf(),
        ensures
            n as nat == self@.paths.len(),
    {
        self.kinds.len()
    }

    /// Look `path` up by exact string equality: if absent, insert a new
    /// record under the next sequential identity with classification
    /// `classification`; if present, promote the stored classification to the
    /// higher of itself and `classification`. Either way the path's stable
    /// identity is returned. Never fails.
    pub fn assign_or_promote(&mut self, path: String, classification: FileType) -> (id: FileId)
        requires
            old(self)@.wf(),
        ensures
            final(self)@.wf(),
            final(self)@ == spec_assign(old(self)@, path@, classification).0,
            id.0 as int == spec_assign(old(self)@, path@, classification).1,
            id.0 < final(self)@.paths.len(),
    {
        let ghost m0 = self@;
        let ghost p = path@;
        proof {
            m0.paths.index_of_first_ensures(p);
        }
        let (idx, inserted) = iset_insert_full(&mut self.paths, path);
        if inserted {
            self.kinds.push(classification);
            proof {
                assert(self@ =~= spec_assign(m0, p, classification).0);
                assert forall|e: (int, int)| #[trigger] self@.edges.contains(e) implies 0 <= e.0
                    < self@.paths.len() && 0 <= e.1 < self@.paths.len() by {
                    assert(m0.edges.contains(e));
                }
            }
            FileId(idx)
        } else {
            proof {
                // The path is present: with distinct paths, the index the set
                // returned is the first (and only) occurrence.
                let j = m0.paths.index_of_first(p).unwrap();
                if j != idx as int {
                    assert(m0.paths[j] == m0.paths[idx as int]);
                    assert(false);
                }
            }
            let mut kind = self.kinds[idx];
            kind.promote_to(classification);
            self.kinds.set(idx, kind);
            proof {
                assert(self@ =~= spec_assign(m0, p, classification).0);
                assert forall|e: (int, int)| #[trigger] self@.edges.contains(e) implies 0 <= e.0
                    < self@.paths.len() && 0 <= e.1 < self@.paths.len() by {
                    assert(m0.edges.contains(e));
                }
            }
            FileId(idx)
        }
    }

    /// Resolve both paths, forcing the producer toward `GeneratedFile` and
    /// the input toward `SourceFile`, then record the directed edge
    /// producer-to-input, idempotently. A self-dependency is recorded as a
    /// self-loop edge. Never fails.
    pub fn record_dependency(&mut self, producer_path: String, input_path: String)
        requires
            old(self)@.wf(),
        ensures
            final(self)@.wf(),
            final(self)@ == spec_record_dependency(old(self)@, producer_path@, input_path@),
    {
        let ghost m0 = self@;
        let ghost prod = producer_path@;
        let ghost inp = input_path@;
        let p = self.assign_or_promote(producer_path, FileType::GeneratedFile);
        let i = self.assign_or_promote(input_path, FileType::SourceFile);
        graph_add_edge(&mut self.graph, p.0, i.0);
        proof {
            assert(self@ =~= spec_record_dependency(m0, prod, inp));
            assert forall|e: (int, int)| #[trigger] self@.edges.contains(e) implies 0 <= e.0
                < self@.paths.len() && 0 <= e.1 < self@.paths.len() by {
                let m2 = spec_assign(spec_assign(m0, prod, FileType::GeneratedFile).0, inp,
                    FileType::SourceFile).0;
                if e != ((p.0 as int, i.0 as int)) {
                    assert(m2.edges.contains(e));
                }
            }
        }
    }

    /// Fold one parsed stanza into the registry: register the output as a
    /// producer (even when the stanza has no inputs), then record one
    /// dependency per input, in order.
    pub fn ingest(&mut self, deps: &DepsForOneFile<'_>)
        requires
            old(self)@.wf(),
        ensures
            final(self)@.wf(),
            final(self)@ == spec_ingest(old(self)@, deps@.output, deps@.inputs),
    {
        let ghost m0 = self@;
        let ghost o = deps@.output;
        let ghost ins = deps@.inputs;
        self.assign_or_promote(deps.output.to_owned(), FileType::GeneratedFile);
        proof {
            assert(ins.take(0) =~= Seq::<Seq<char>>::empty());
            assert(self@ == spec_ingest(m0, o, ins.take(0)));
        }
        let mut i: usize = 0;
        while i < deps.inputs.len()
            invariant
                0 <= i <= deps.inputs.len(),
                old(self)@ == m0,
                m0.wf(),
                deps@.output == o,
                deps@.inputs == ins,
                ins.len() == deps.inputs.len(),
                self@.wf(),
                self@ == spec_ingest(m0, o, ins.take(i as int)),
            decreases deps.inputs.len() - i,
        {
            let input = deps.inputs[i];
            self.record_dependency(deps.output.to_owned(), input.to_owned());
            proof {
                assert(ins.take(i + 1).drop_last() =~= ins.take(i as int));
                assert(ins.take(i + 1).last() == ins[i as int]);
                assert(self@ == spec_ingest(m0, o, ins.take(i + 1)));
            }
            i = i + 1;
        }
        proof {
            assert(ins.take(ins.len() as int) =~= ins);
        }
    }

    /// The identity the registry has assigned to `path`, if any.
    pub fn lookup(&self, path: &String) -> (r: Option<FileId>)
        requires
            self@.wf(),
        ensures
            match r {
                Some(id) => self@.id_of(path@) == Some(id.0 as int),
                None => self@.id_of(path@) is None,
            },
    {
        proof {
            self@.paths.index_of_first_ensures(path@);
        }
        match iset_get_index_of(&self.paths, path) {
            Some(i) => {
                proof {
                    let f = self@.paths.index_of_first(path@).unwrap();
                    if f != i as int {
                        assert(self@.paths[f] == self@.paths[i as int]);
                        assert(false);
                    }
                }
                Some(FileId(i))
            },
            None => None,
        }
    }

    /// The path behind an identity, if the identity was ever assigned.
    pub fn path_at(&self, id: FileId) -> (r: Option<String>)
        requires
            self@.wf(),
        ensures
            match r {
                Some(p) => id.0 < self@.paths.len() && p@ == self@.paths[id.0 as int],
                None => id.0 >= self@.paths.len(),
            },
    {
        match iset_get_index(&self.paths, id.0) {
            Some(p) => Some(p.clone()),
            None => None,
        }
    }

    /// The classification currently stored for an identity.
    pub fn classification_of(&self, id: FileId) -> (r: Option<FileType>)
        requires
            self@.wf(),
        ensures
            match r {
                Some(t) => id.0 < self@.kinds.len() && t == self@.kinds[id.0 as int],
                None => id.0 >= self@.kinds.len(),
            },
    {
        if id.0 < self.kinds.len() {
            Some(self.kinds[id.0])
        } else {
            None
        }
    }

    /// Whether the directed edge producer-to-input is in the graph.
    pub fn has_edge(&self, producer: FileId, input: FileId) -> (r: bool)
        ensures
            r == self@.edges.contains((producer.0 as int, input.0 as int)),
    {
        graph_contains_edge(&self.graph, producer.0, input.0)
    }

    /// Every recorded edge, producer to input, each exactly once, for
    /// walking the finished graph.
    #[verifier::loop_isolation(false)]
    pub fn edges(&self) -> (r: Vec<(FileId, FileId)>)
        ensures
            forall|q: int|
                0 <= q < r@.len() ==> self@.edges.contains(
                    (((#[trigger] r@[q]).0).0 as int, (r@[q].1).0 as int),
                ),
            forall|a: int, b: int|
                #[trigger] self@.edges.contains((a, b)) ==> exists|q: int|
                    0 <= q < r@.len() && (r@[q].0).0 as int == a && (r@[q].1).0 as int == b,
            r@.no_duplicates(),
    {
        let raw = graph_all_edges(&self.graph);
        let mut r: Vec<(FileId, FileId)> = Vec::new();
        let mut i: usize = 0;
        while i < raw.len()
            invariant
                0 <= i <= raw.len(),
                r@.len() == i,
                forall|q: int|
                    0 <= q < i ==> #[trigger] r@[q] == (FileId(raw@[q].0), FileId(raw@[q].1)),
            decreases raw.len() - i,
        {
            let e = raw[i];
            r.push((FileId(e.0), FileId(e.1)));
            i = i + 1;
        }
        proof {
            assert forall|a: int, b: int| #[trigger] self@.edges.contains((a, b)) implies exists|
                q: int,
            | 0 <= q < r@.len() && (r@[q].0).0 as int == a && (r@[q].1).0 as int == b by {
                let q = choose|q: int|
                    0 <= q < raw@.len() && raw@[q].0 as int == a && raw@[q].1 as int == b;
                assert((r@[q].0).0 as int == a && (r@[q].1).0 as int == b);
            }
            assert forall|q1: int, q2: int| 0 <= q1 < q2 < r@.len() implies r@[q1] != r@[q2] by {
                assert(raw@[q1] != raw@[q2]);
            }
        }
        r
    }

    /// The number of distinct edges recorded so far.
    pub fn edge_count(&self) -> (r: usize)
        requires
            self@.wf(),
        ensures
            r as nat == self@.edges.len(),
    {
        graph_edge_count(&self.graph)
    }
}

} // verus!
