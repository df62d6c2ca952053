//! Trusted declarations of the two outside collections the registry is built
//! on: an insertion-ordered string set (indexmap) and a directed graph keyed
//! by small integers (petgraph). Each method the registry calls is wrapped in
//! a function whose contract states what the collection's source shows.

use vstd::prelude::*;

verus! {

#[verifier::external_type_specification]
#[verifier::external_body]
#[verifier::reject_recursive_types(T)]
#[verifier::reject_recursive_types(S)]
pub struct ExIndexSet<T, S>(indexmap::IndexSet<T, S>);

#[verifier::external_type_specification]
#[verifier::external_body]
pub struct ExDirected(petgraph::Directed);

#[verifier::external_type_specification]
#[verifier::external_body]
#[verifier::reject_recursive_types(N)]
#[verifier::reject_recursive_types(E)]
#[verifier::reject_recursive_types(Ty)]
#[verifier::reject_recursive_types(S)]
pub struct ExGraphMap<N, E, Ty, S>(petgraph::graphmap::GraphMap<N, E, Ty, S>) where S: std::hash::BuildHasher;

/// The values held by an insertion-ordered string set, in insertion order.
pub uninterp spec fn iset_elems(s: indexmap::IndexSet<String>) -> Seq<Seq<char>>;

/// The ordered pairs held by a directed graph over `usize` nodes.
pub uninterp spec fn graph_edge_set(g: petgraph::graphmap::DiGraphMap<usize, ()>) -> Set<(int, int)>;

/// Relies on indexmap's `IndexSet::new`: the new set holds nothing.
#[verifier::external_body]
pub(crate) fn iset_new() -> (r: indexmap::IndexSet<String>)
    ensures
        iset_elems(r) == Seq::<Seq<char>>::empty(),
{
    indexmap::IndexSet::new()
}

/// Relies on indexmap's `IndexSet::insert_full`: a value equal to a present
/// one returns that value's index and `false` and leaves the set unchanged;
/// a new value is appended at index `len` and `true` is returned.
#[verifier::external_body]
pub(crate) fn iset_insert_full(s: &mut indexmap::IndexSet<String>, value: String) -> (r: (usize, bool))
    ensures
        r.1 == !iset_elems(*old(s)).contains(value@),
        r.1 ==> (iset_elems(*final(s)) == iset_elems(*old(s)).push(value@) && r.0 as nat
            == iset_elems(*old(s)).len()),
        !r.1 ==> (iset_elems(*final(s)) == iset_elems(*old(s)) && r.0 < iset_elems(*old(s)).len()
            && iset_elems(*old(s))[r.0 as int] == value@),
{
    s.insert_full(value)
}

/// Relies on indexmap's `IndexSet::get_index_of`: the index of an equal
/// value, or `None` where the set holds none.
#[verifier::external_body]
pub(crate) fn iset_get_index_of(s: &indexmap::IndexSet<String>, value: &String) -> (r: Option<
    usize,
>)
    ensures
        match r {
            Some(i) => i < iset_elems(*s).len() && iset_elems(*s)[i as int] == value@,
            None => !iset_elems(*s).contains(value@),
        },
{
    s.get_index_of(value)
}

/// Relies on indexmap's `IndexSet::get_index`: the value at a position, in
/// insertion order.
#[verifier::external_body]
pub(crate) fn iset_get_index<'a>(s: &'a indexmap::IndexSet<String>, i: usize) -> (r: Option<
    &'a String,
>)
    ensures
        match r {
            Some(p) => i < iset_elems(*s).len() && p@ == iset_elems(*s)[i as int],
            None => i >= iset_elems(*s).len(),
        },
{
    s.get_index(i)
}

/// Relies on petgraph's `GraphMap::new` for a directed graph: the new graph
/// has no edges.
#[verifier::external_body]
pub(crate) fn graph_new() -> (r: petgraph::graphmap::DiGraphMap<usize, ()>)
    ensures
        graph_edge_set(r) == Set::<(int, int)>::empty(),
{
    petgraph::graphmap::DiGraphMap::new()
}

/// Relies on petgraph's `GraphMap::add_edge` on a directed graph: the ordered
/// pair joins the edge set; adding a pair already present only replaces its
/// weight; a self-loop is accepted.
#[verifier::external_body]
pub(crate) fn graph_add_edge(g: &mut petgraph::graphmap::DiGraphMap<usize, ()>, a: usize, b: usize)
    ensures
        graph_edge_set(*final(g)) == graph_edge_set(*old(g)).insert((a as int, b as int)),
{
    let _ = g.add_edge(a, b, ());
}

/// Relies on petgraph's `GraphMap::contains_edge` on a directed graph.
#[verifier::external_body]
pub(crate) fn graph_contains_edge(
    g: &petgraph::graphmap::DiGraphMap<usize, ()>,
    a: usize,
    b: usize,
) -> (r: bool)
    ensures
        r == graph_edge_set(*g).contains((a as int, b as int)),
{
    g.contains_edge(a, b)
}

/// Relies on petgraph's `GraphMap::all_edges` on a directed graph: every
/// stored edge is yielded exactly once.
#[verifier::external_body]
pub(crate) fn graph_all_edges(g: &petgraph::graphmap::DiGraphMap<usize, ()>) -> (r: Vec<
    (usize, usize),
>)
    ensures
        forall|q: int|
            0 <= q < r@.len() ==> graph_edge_set(*g).contains(
                ((#[trigger] r@[q]).0 as int, r@[q].1 as int),
            ),
        forall|a: int, b: int|
            #[trigger] graph_edge_set(*g).contains((a, b)) ==> exists|q: int|
                0 <= q < r@.len() && r@[q].0 as int == a && r@[q].1 as int == b,
        r@.no_duplicates(),
{
    g.all_edges().map(|(a, b, _w)| (a, b)).collect()
}

/// Relies on petgraph's `GraphMap::edge_count`: the number of distinct edges.
#[verifier::external_body]
pub(crate) fn graph_edge_count(g: &petgraph::graphmap::DiGraphMap<usize, ()>) -> (r: usize)
    ensures
        r as nat == graph_edge_set(*g).len(),
{
    g.edge_count()
}

} // verus!
