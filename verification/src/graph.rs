//! The graph store: the vertex table, the adjacency table and their upkeep.

use vstd::prelude::*;
use std::collections::HashMap;
use std::collections::hash_map::Entry;
use std::hash::Hash;
use vstd::std_specs::hash::obeys_key_model;
use vstd::laws_eq::obeys_concrete_eq;
use crate::error::GraphError;
use crate::model::GraphView;
use crate::model::has_edge_to;
use crate::model::is_first_edge_to;
use crate::model::without_target;

verus! {

/// Whether `VId` can name vertices: its hash is a function of its value, and
/// `==` in compiled code holds exactly of equal values.
pub open spec fn lawful_id<VId: PartialEq>() -> bool {
    obeys_key_model::<VId>() && obeys_concrete_eq::<VId>()
}

/// The position of the first arc of `list` that leads to `to`, if there is one.
fn first_edge_to<VId: Eq, E>(list: &Vec<(VId, E)>, to: &VId) -> (position: Option<usize>)
    requires
        obeys_concrete_eq::<VId>(),
    ensures
        match position {
            Some(i) => is_first_edge_to(list@, *to, i as int),
            None => !has_edge_to(list@, *to),
        },
{
    let mut i: usize = 0;
    while i < list.len()
        invariant
            0 <= i <= list.len(),
            obeys_concrete_eq::<VId>(),
            forall|j: int| 0 <= j < i ==> (#[trigger] list@[j]).0 != *to,
        decreases list.len() - i,
    {
        proof {
            reveal(obeys_concrete_eq);
        }
        if list[i].0 == *to {
            return Some(i);
        }
        i += 1;
    }
    None
}

/// Takes every arc that leads to `id` out of `list`; the others keep their order.
fn prune_target<VId: Eq, E>(list: &mut Vec<(VId, E)>, id: &VId)
    requires
        obeys_concrete_eq::<VId>(),
    ensures
        final(list)@ == without_target(old(list)@, *id),
{
    let ghost given = list@;
    let ghost keep = |arc: (VId, E)| arc.0 != *id;
    let ghost seen: int = 0;
    let mut i: usize = 0;
    proof {
        reveal(Seq::filter);
        assert(given.take(0).filter(keep) =~= Seq::<(VId, E)>::empty());
        assert(list@ =~= given.take(0).filter(keep) + given.skip(0));
    }
    while i < list.len()
        invariant
            obeys_concrete_eq::<VId>(),
            keep == |arc: (VId, E)| arc.0 != *id,
            0 <= seen <= given.len(),
            i == given.take(seen).filter(keep).len(),
            list@ == given.take(seen).filter(keep) + given.skip(seen),
        decreases given.len() - seen,
    {
        proof {
            reveal(obeys_concrete_eq);
            assert(list@[i as int] == given.skip(seen)[0]);
            given.lemma_take_succ_push(seen);
            given.take(seen).lemma_filter_push(given[seen], keep);
        }
        if list[i].0 == *id {
            list.remove(i);
        } else {
            i += 1;
        }
        proof {
            seen = seen + 1;
            assert(list@ =~= given.take(seen).filter(keep) + given.skip(seen));
        }
    }
    proof {
        assert(given.skip(seen).len() == 0);
        assert(given.take(seen) =~= given);
        assert(list@ =~= given.filter(keep));
    }
}

/// The entries of `table`, each once, in the order in which the table hands them out.
///
/// Calls `Vec::from_iter` on the table. Trusted: no two entries of the
/// result have the same key, every entry is a key of the table with its
/// value, and every key of the table has an entry.
#[verifier::external_body]
fn into_entries<K, T>(table: HashMap<K, T>) -> (entries: Vec<(K, T)>)
    ensures
        obeys_key_model::<K>() ==> {
            &&& forall|i: int, j: int|
                0 <= i < j < entries.len() ==> (#[trigger] entries[i]).0 != (#[trigger] entries[j]).0
            &&& forall|i: int|
                0 <= i < entries.len() ==> table@.contains_key((#[trigger] entries[i]).0)
                    && table@[entries[i].0] == entries[i].1
            &&& forall|k: K| #[trigger]
                table@.contains_key(k) ==> exists|i: int|
                    0 <= i < entries.len() && (#[trigger] entries[i]).0 == k
        },
{
    Vec::from_iter(table)
}

/// A directed graph with vertex ids of type `VId`, vertex values of type `V`
/// and edge values of type `E`.
#[derive(Debug)]
pub struct Graph<VId, V, E> {
    vertices: HashMap<VId, V>,
    edges: HashMap<VId, Vec<(VId, E)>>,
}

impl<VId, V, E> View for Graph<VId, V, E> {
    type V = GraphView<VId, V, E>;

    closed spec fn view(&self) -> GraphView<VId, V, E> {
        GraphView {
            vertices: self.vertices@,
            edges: self.edges@.map_values(|list: Vec<(VId, E)>| list@),
        }
    }
}

impl<VId, V, E> Graph<VId, V, E> where VId: Eq + Hash, V: Hash {
    /// Creates an empty graph.
    pub fn new() -> (graph: Graph<VId, V, E>)
        ensures
            graph@ == GraphView::<VId, V, E>::empty(),
    {
        let graph = Graph { vertices: HashMap::new(), edges: HashMap::new() };
        assert(graph@.edges =~= Map::empty());
        graph
    }

    /// Sets the vertex `vid` to `vertex`, replacing the value it had, if any.
    /// The adjacency table stays as it is.
    pub fn add_vertex(self: &mut Self, vid: VId, vertex: V)
        requires
            lawful_id::<VId>(),
        ensures
            final(self)@ == old(self)@.add_vertex(vid, vertex),
    {
        self.vertices.insert(vid, vertex);
    }

    /// The vertex table.
    pub fn get_vertices(self: &Self) -> (table: &HashMap<VId, V>)
        ensures
            table@ == self@.vertices,
    {
        &self.vertices
    }

    /// The adjacency table.
    pub fn get_edges(self: &Self) -> (table: &HashMap<VId, Vec<(VId, E)>>)
        ensures
            table@.map_values(|list: Vec<(VId, E)>| list@) == self@.edges,
    {
        &self.edges
    }

    /// The value of the vertex `vid`, or `NotFound` where the vertex table has no such vertex.
    pub fn get_vertex_value(self: &Self, vid: VId) -> (found: Result<&V, GraphError>)
        requires
            lawful_id::<VId>(),
        ensures
            match found {
                Ok(value) => self@.vertices.contains_key(vid) && *value == self@.vertices[vid],
                Err(e) => e == GraphError::NotFound && !self@.vertices.contains_key(vid),
            },
    {
        match self.vertices.get(&vid) {
            Some(value) => Ok(value),
            None => Err(GraphError::NotFound),
        }
    }

    /// Removes the vertex `vid`, its adjacency list, and every arc that leads
    /// to `vid` from the lists of the other vertices. Where `vid` is no
    /// vertex, only its arcs go.
    pub fn remove_vertex(self: &mut Graph<VId, V, E>, vid: VId)
        requires
            lawful_id::<VId>(),
        ensures
            final(self)@ == old(self)@.remove_vertex(vid),
    {
        self.vertices.remove(&vid);
        let mut lists: HashMap<VId, Vec<(VId, E)>> = HashMap::new();
        std::mem::swap(&mut self.edges, &mut lists);
        let ghost before = lists@;
        let mut entries = into_entries(lists);
        let ghost all = entries@;
        let ghost vertices = self.vertices@;
        while entries.len() > 0
            invariant
                lawful_id::<VId>(),
                self.vertices@ == vertices,
                entries.len() <= all.len(),
                entries@ == all.take(entries.len() as int),
                forall|i: int, j: int|
                    0 <= i < j < all.len() ==> (#[trigger] all[i]).0 != (#[trigger] all[j]).0,
                forall|k: VId| #[trigger]
                    self.edges@.contains_key(k) <==> k != vid && exists|i: int|
                        entries.len() <= i < all.len() && (#[trigger] all[i]).0 == k,
                forall|i: int|
                    entries.len() <= i < all.len() && (#[trigger] all[i]).0 != vid
                        ==> self.edges@[all[i].0]@ == without_target(all[i].1@, vid),
            decreases entries.len(),
        {
            let ghost n = entries.len() - 1;
            let (from, mut list) = entries.pop().unwrap();
            proof {
                reveal(obeys_concrete_eq);
                assert(all[n] == (from, list));
            }
            if from != vid {
                prune_target(&mut list, &vid);
                self.edges.insert(from, list);
            }
        }
        proof {
            let after = old(self)@.remove_vertex(vid);
            assert forall|k: VId| self@.edges.contains_key(k) <==> after.edges.contains_key(k) by {
                if after.edges.contains_key(k) {
                    assert(before.contains_key(k));
                }
            }
            assert forall|k: VId| self@.edges.contains_key(k) implies self@.edges[k] == after.edges[k] by {
                let i = choose|i: int| 0 <= i < all.len() && (#[trigger] all[i]).0 == k;
                assert(all[i].0 == k);
            }
            assert(self@.edges =~= after.edges);
        }
    }

    /// Appends the arc `(to, edge)` to the adjacency list of `from`, which
    /// is created where `from` had none. Neither end has to be a vertex.
    pub fn add_edge(self: &mut Self, from: VId, to: VId, edge: E)
        requires
            lawful_id::<VId>(),
        ensures
            final(self)@ == old(self)@.add_edge(from, to, edge),
    {
        let adjacent_to_from = self.edges.entry(from).or_insert(Vec::new());
        adjacent_to_from.push((to, edge));
        assert(self@.edges =~= old(self)@.add_edge(from, to, edge).edges);
    }

    /// The adjacency list of `vid`: `None` where no arc from `vid` was ever
    /// recorded, a list that may be empty where one was.
    pub fn get_neighbors(self: &Self, vid: VId) -> (found: Option<&Vec<(VId, E)>>)
        requires
            lawful_id::<VId>(),
        ensures
            match found {
                Some(list) => self@.edges.contains_key(vid) && list@ == self@.edges[vid],
                None => !self@.edges.contains_key(vid),
            },
    {
        self.arcs_of(&vid)
    }

    /// The adjacency list of `vid`, for a caller that keeps its id.
    pub(crate) fn arcs_of(self: &Self, vid: &VId) -> (found: Option<&Vec<(VId, E)>>)
        requires
            lawful_id::<VId>(),
        ensures
            match found {
                Some(list) => self@.edges.contains_key(*vid) && list@ == self@.edges[*vid],
                None => !self@.edges.contains_key(*vid),
            },
    {
        self.edges.get(vid)
    }

    /// Both tables have finitely many keys.
    pub proof fn lemma_tables_finite(self: &Self)
        ensures
            self@.vertices.dom().finite(),
            self@.edges.dom().finite(),
    {
        assert(self@.edges.dom() =~= self.edges@.dom());
    }

    /// Takes out the first arc from `from` to `to`. Fails with `NotFound`,
    /// and changes nothing, where `from` has no adjacency list or none of
    /// its arcs leads to `to`.
    pub fn remove_edge(self: &mut Self, from: VId, to: VId) -> (done: Result<(), GraphError>)
        requires
            lawful_id::<VId>(),
        ensures
            done is Ok <==> old(self)@.has_edge(from, to),
            done is Ok ==> old(self)@.first_edge_removed(from, to, final(self)@),
            done is Err ==> done == Err::<(), GraphError>(GraphError::NotFound) && final(self)@ == old(self)@,
    {
        let position = match self.edges.get(&from) {
            Some(list) => first_edge_to(list, &to),
            None => None,
        };
        match position {
            Some(i) => {
                if let Entry::Occupied(mut slot) = self.edges.entry(from) {
                    slot.get_mut().remove(i);
                }
                proof {
                    assert(self@.edges =~= old(self)@.remove_edge_at(from, i as int).edges);
                }
                Ok(())
            },
            None => Err(GraphError::NotFound),
        }
    }
}

} // verus!
