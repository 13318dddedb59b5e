//! The mathematical model of a graph: two maps, and the operations on them.

use vstd::prelude::*;

verus! {

/// What a graph holds: its vertex table and its adjacency table.
///
/// The adjacency table maps a vertex id to the ordered list of its
/// outgoing arcs. Neither end of an arc has to be a key of the vertex table.
#[verifier::reject_recursive_types(VId)]
#[verifier::reject_recursive_types(V)]
#[verifier::reject_recursive_types(E)]
pub ghost struct GraphView<VId, V, E> {
    pub vertices: Map<VId, V>,
    pub edges: Map<VId, Seq<(VId, E)>>,
}

/// Whether some arc of `list` leads to `to`.
pub open spec fn has_edge_to<VId, E>(list: Seq<(VId, E)>, to: VId) -> bool {
    exists|i: int| 0 <= i < list.len() && (#[trigger] list[i]).0 == to
}

/// Whether `i` is the position of the first arc of `list` that leads to `to`.
pub open spec fn is_first_edge_to<VId, E>(list: Seq<(VId, E)>, to: VId, i: int) -> bool {
    &&& 0 <= i < list.len()
    &&& list[i].0 == to
    &&& forall|j: int| 0 <= j < i ==> (#[trigger] list[j]).0 != to
}

/// The arcs of `list` as arcs that leave `from`.
pub open spec fn arcs_with_source<VId, E>(from: VId, list: Seq<(VId, E)>) -> Seq<(VId, VId, E)> {
    list.map_values(|arc: (VId, E)| (from, arc.0, arc.1))
}

/// The arcs of `list` that leave `from`, in their order, each as its target and its value.
pub open spec fn arcs_leaving<VId, E>(list: Seq<(VId, VId, E)>, from: VId) -> Seq<(VId, E)> {
    list.filter(|arc: (VId, VId, E)| arc.0 == from).map_values(|arc: (VId, VId, E)| (arc.1, arc.2))
}

/// The arcs of `list` that do not lead to `to`, in their order.
pub open spec fn without_target<VId, E>(list: Seq<(VId, E)>, to: VId) -> Seq<(VId, E)> {
    list.filter(|arc: (VId, E)| arc.0 != to)
}

impl<VId, V, E> GraphView<VId, V, E> {
    /// The graph without vertices and without arcs.
    pub open spec fn empty() -> Self {
        GraphView { vertices: Map::empty(), edges: Map::empty() }
    }

    /// The arcs that leave `id`, none where `id` has no adjacency list.
    pub open spec fn arcs_from(self, id: VId) -> Seq<(VId, E)> {
        if self.edges.contains_key(id) {
            self.edges[id]
        } else {
            Seq::empty()
        }
    }

    /// This graph with the vertex `id` set to `value`.
    pub open spec fn add_vertex(self, id: VId, value: V) -> Self {
        GraphView { vertices: self.vertices.insert(id, value), edges: self.edges }
    }

    /// This graph with the arc `(to, value)` appended to the list of `from`.
    pub open spec fn add_edge(self, from: VId, to: VId, value: E) -> Self {
        GraphView {
            vertices: self.vertices,
            edges: self.edges.insert(from, self.arcs_from(from).push((to, value))),
        }
    }

    /// This graph without the vertex `id`, its adjacency list, and every arc that leads to it.
    pub open spec fn remove_vertex(self, id: VId) -> Self {
        GraphView {
            vertices: self.vertices.remove(id),
            edges: self.edges.remove(id).map_values(|list: Seq<(VId, E)>| without_target(list, id)),
        }
    }

    /// This graph with the vertices of `list` added, first to last.
    pub open spec fn with_vertices(self, list: Seq<(VId, V)>) -> Self
        decreases list.len(),
    {
        if list.len() == 0 {
            self
        } else {
            self.with_vertices(list.drop_last()).add_vertex(list.last().0, list.last().1)
        }
    }

    /// This graph with the arcs of `list` added, first to last; an arc is its two ends and its value.
    pub open spec fn with_edges(self, list: Seq<(VId, VId, E)>) -> Self
        decreases list.len(),
    {
        if list.len() == 0 {
            self
        } else {
            self.with_edges(list.drop_last()).add_edge(list.last().0, list.last().1, list.last().2)
        }
    }

    /// The arcs of the adjacency lists of `order`, list after list, each
    /// arc with the id that it leaves.
    pub open spec fn arcs_listed(self, order: Seq<VId>) -> Seq<(VId, VId, E)>
        decreases order.len(),
    {
        if order.len() == 0 {
            Seq::empty()
        } else {
            self.arcs_listed(order.drop_last()) + arcs_with_source(
                order.last(),
                self.arcs_from(order.last()),
            )
        }
    }

    /// Whether `order` names every adjacency list once.
    pub open spec fn lists_in_order(self, order: Seq<VId>) -> bool {
        &&& order.no_duplicates()
        &&& order.len() == self.edges.dom().len()
        &&& forall|i: int| 0 <= i < order.len() ==> self.edges.contains_key(#[trigger] order[i])
    }

    /// Whether `list` holds every vertex once, with its value.
    pub open spec fn vertices_in_order(self, list: Seq<(VId, V)>) -> bool {
        &&& forall|i: int, j: int|
            0 <= i < j < list.len() ==> (#[trigger] list[i]).0 != (#[trigger] list[j]).0
        &&& list.len() == self.vertices.dom().len()
        &&& forall|i: int|
            0 <= i < list.len() ==> self.vertices.contains_key((#[trigger] list[i]).0)
                && self.vertices[list[i].0] == list[i].1
    }

    /// Whether an arc from `from` to `to` is recorded.
    pub open spec fn has_edge(self, from: VId, to: VId) -> bool {
        self.edges.contains_key(from) && has_edge_to(self.edges[from], to)
    }

    /// Whether `path` is a walk: a vertex id, then arcs that lead from each id to the next.
    pub open spec fn is_path(self, path: Seq<VId>) -> bool {
        &&& path.len() >= 1
        &&& forall|i: int| 0 <= i < path.len() - 1 ==> self.has_edge(#[trigger] path[i], path[i + 1])
    }

    /// Whether arcs lead from `start` to `finish`; every id reaches itself, by the walk without arcs.
    pub open spec fn reachable(self, start: VId, finish: VId) -> bool {
        exists|path: Seq<VId>| #[trigger]
            self.is_path(path) && path.first() == start && path.last() == finish
    }

    /// This graph with the arc at position `i` of the list of `from` taken out.
    pub open spec fn remove_edge_at(self, from: VId, i: int) -> Self {
        GraphView { vertices: self.vertices, edges: self.edges.insert(from, self.edges[from].remove(i)) }
    }

    /// Whether `after` is this graph without the first arc from `from` to `to`.
    pub open spec fn first_edge_removed(self, from: VId, to: VId, after: Self) -> bool {
        exists|i: int| #[trigger]
            is_first_edge_to(self.edges[from], to, i) && after == self.remove_edge_at(from, i)
    }
}

} // verus!
