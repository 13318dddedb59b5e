//! Reachability along arcs, decided by a search from the start vertex.

use vstd::prelude::*;
use std::hash::Hash;
use vstd::laws_eq::obeys_concrete_eq;
use vstd::set_lib::lemma_len_subset;
use crate::graph::Graph;
use crate::graph::lawful_id;
use crate::model::GraphView;
use crate::model::has_edge_to;

verus! {

/// The ids that `refs` point to.
spec fn ids<VId>(refs: Seq<&VId>) -> Seq<VId> {
    refs.map_values(|r: &VId| *r)
}

/// The ids that some arc of `edges` leads to.
spec fn all_targets<VId, E>(edges: Map<VId, Seq<(VId, E)>>) -> Set<VId> {
    Set::new(|t: VId| exists|v: VId| #[trigger] edges.contains_key(v) && has_edge_to(edges[v], t))
}

/// Whether every arc from `v` leads into `seen`.
spec fn closed_at<VId, V, E>(graph: GraphView<VId, V, E>, seen: Seq<VId>, v: VId) -> bool {
    forall|t: VId| #[trigger] graph.has_edge(v, t) ==> seen.contains(t)
}

/// A table with finitely many adjacency lists has finitely many targets.
proof fn lemma_targets_finite<VId, E>(edges: Map<VId, Seq<(VId, E)>>)
    requires
        edges.dom().finite(),
    ensures
        all_targets(edges).finite(),
    decreases edges.dom().len(),
{
    if edges.dom().len() == 0 {
        assert(all_targets(edges) =~= Set::<VId>::empty()) by {
            assert forall|t: VId| !all_targets(edges).contains(t) by {
                if all_targets(edges).contains(t) {
                    let v = choose|v: VId| #[trigger]
                        edges.contains_key(v) && has_edge_to(edges[v], t);
                    assert(edges.dom().contains(v));
                }
            }
        }
    } else {
        let k = edges.dom().choose();
        let rest = edges.remove(k);
        lemma_targets_finite(rest);
        let here = edges[k].map_values(|arc: (VId, E)| arc.0).to_set();
        vstd::seq_lib::seq_to_set_is_finite(edges[k].map_values(|arc: (VId, E)| arc.0));
        assert(all_targets(edges) =~= all_targets(rest).union(here)) by {
            assert forall|t: VId| all_targets(edges).contains(t) implies all_targets(rest).union(
                here,
            ).contains(t) by {
                let v = choose|v: VId| #[trigger]
                    edges.contains_key(v) && has_edge_to(edges[v], t);
                if v == k {
                    let i = choose|i: int| 0 <= i < edges[k].len() && (#[trigger] edges[k][i]).0 == t;
                    assert(edges[k].map_values(|arc: (VId, E)| arc.0)[i] == t);
                } else {
                    assert(rest.contains_key(v));
                }
            }
            assert forall|t: VId| all_targets(rest).union(here).contains(t) implies all_targets(
                edges,
            ).contains(t) by {
                if all_targets(rest).contains(t) {
                    let v = choose|v: VId| #[trigger]
                        rest.contains_key(v) && has_edge_to(rest[v], t);
                    assert(edges.contains_key(v));
                } else {
                    let names = edges[k].map_values(|arc: (VId, E)| arc.0);
                    let i = choose|i: int| 0 <= i < names.len() && names[i] == t;
                    assert(edges[k][i].0 == t);
                    assert(edges.contains_key(k));
                }
            }
        }
    }
}

/// Every id reaches itself.
pub proof fn lemma_reach_self<VId, V, E>(graph: GraphView<VId, V, E>, id: VId)
    ensures
        graph.reachable(id, id),
{
    assert(graph.is_path(seq![id]));
    assert(seq![id].first() == id && seq![id].last() == id);
}

/// A walk can be continued by an arc that leaves its end.
pub proof fn lemma_reach_step<VId, V, E>(graph: GraphView<VId, V, E>, start: VId, via: VId, to: VId)
    requires
        graph.reachable(start, via),
        graph.has_edge(via, to),
    ensures
        graph.reachable(start, to),
{
    let path = choose|path: Seq<VId>| #[trigger]
        graph.is_path(path) && path.first() == start && path.last() == via;
    let longer = path.push(to);
    assert forall|i: int| 0 <= i < longer.len() - 1 implies graph.has_edge(
        #[trigger] longer[i],
        longer[i + 1],
    ) by {
        if i < path.len() - 1 {
            assert(longer[i] == path[i]);
            assert(longer[i + 1] == path[i + 1]);
        }
    }
    assert(graph.is_path(longer));
    assert(longer.first() == start && longer.last() == to);
}

/// A set of ids that holds the first id of a walk, and the target of every
/// arc that leaves one of its ids, holds every id of the walk.
proof fn lemma_closed_holds_walk<VId, V, E>(
    graph: GraphView<VId, V, E>,
    seen: Seq<VId>,
    path: Seq<VId>,
    i: int,
)
    requires
        graph.is_path(path),
        seen.contains(path[0]),
        forall|v: VId| #[trigger] seen.contains(v) ==> closed_at(graph, seen, v),
        0 <= i < path.len(),
    ensures
        seen.contains(path[i]),
    decreases i,
{
    if i > 0 {
        lemma_closed_holds_walk(graph, seen, path, i - 1);
        assert(graph.has_edge(path[i - 1], path[i - 1 + 1]));
        assert(closed_at(graph, seen, path[i - 1]));
    }
}

/// What holds of a list of seen ids holds of it with one more id, found
/// along an arc from `via`: the ids that wait and the ids whose arcs all
/// lead into the list stay as they are.
proof fn lemma_grows<VId, V, E>(
    graph: GraphView<VId, V, E>,
    seen: Seq<VId>,
    waiting: Seq<VId>,
    via: VId,
    found: VId,
)
    requires
        forall|j: int| 0 <= j < waiting.len() ==> seen.contains(#[trigger] waiting[j]),
        forall|v: VId| #[trigger]
            seen.contains(v) && !waiting.contains(v) && v != via ==> closed_at(graph, seen, v),
    ensures
        forall|j: int|
            0 <= j < waiting.push(found).len() ==> seen.push(found).contains(
                #[trigger] waiting.push(found)[j],
            ),
        forall|v: VId| #[trigger]
            seen.push(found).contains(v) && !waiting.push(found).contains(v) && v != via
                ==> closed_at(graph, seen.push(found), v),
        forall|v: VId| seen.contains(v) ==> #[trigger] seen.push(found).contains(v),
        seen.push(found).contains(found),
{
    let seen2 = seen.push(found);
    let waiting2 = waiting.push(found);
    assert forall|v: VId| seen.contains(v) implies seen2.contains(v) by {
        let j = choose|j: int| 0 <= j < seen.len() && seen[j] == v;
        assert(seen2[j] == v);
    }
    assert(seen2[seen.len() as int] == found);
    assert(waiting2[waiting.len() as int] == found);
    assert forall|j: int| 0 <= j < waiting2.len() implies seen2.contains(#[trigger] waiting2[j]) by {
        if j < waiting.len() {
            assert(waiting2[j] == waiting[j]);
            assert(seen.contains(waiting[j]));
        }
    }
    assert forall|v: VId| #[trigger]
        seen2.contains(v) && !waiting2.contains(v) && v != via implies closed_at(graph, seen2, v) by {
        let j = choose|j: int| 0 <= j < seen2.len() && seen2[j] == v;
        assert(j < seen.len());
        assert(seen[j] == v);
        assert(seen.contains(v));
        if waiting.contains(v) {
            let q = choose|q: int| 0 <= q < waiting.len() && waiting[q] == v;
            assert(waiting2[q] == v);
        }
        assert(closed_at(graph, seen, v));
        assert forall|t: VId| #[trigger] graph.has_edge(v, t) implies seen2.contains(t) by {
            assert(seen.contains(t));
        }
    }
}

/// A list of distinct ids, all of a finite set, is no longer than the set is large.
proof fn lemma_seen_fits<VId>(seen: Seq<VId>, universe: Set<VId>)
    requires
        universe.finite(),
        seen.no_duplicates(),
        forall|j: int| 0 <= j < seen.len() ==> universe.contains(#[trigger] seen[j]),
    ensures
        seen.len() <= universe.len(),
{
    seen.unique_seq_to_set();
    assert(seen.to_set().subset_of(universe)) by {
        assert forall|v: VId| seen.to_set().contains(v) implies universe.contains(v) by {
            let j = choose|j: int| 0 <= j < seen.len() && seen[j] == v;
            assert(universe.contains(seen[j]));
        }
    }
    lemma_len_subset(seen.to_set(), universe);
}

/// Whether one of `list` points to an id equal to `id`.
fn contains_id<VId: Eq>(list: &Vec<&VId>, id: &VId) -> (found: bool)
    requires
        obeys_concrete_eq::<VId>(),
    ensures
        found == ids(list@).contains(*id),
{
    let mut i: usize = 0;
    while i < list.len()
        invariant
            obeys_concrete_eq::<VId>(),
            0 <= i <= list.len(),
            forall|j: int| 0 <= j < i ==> #[trigger] ids(list@)[j] != *id,
        decreases list.len() - i,
    {
        proof {
            reveal(obeys_concrete_eq);
        }
        if *list[i] == *id {
            assert(ids(list@)[i as int] == *id);
            return true;
        }
        i += 1;
    }
    false
}

impl<VId, V, E> Graph<VId, V, E> where VId: Eq + Hash, V: Hash {
    /// Whether arcs lead from `start` to another vertex `finish`.
    ///
    /// The search marks `start` as seen before it follows any arc, so it
    /// answers `false` where `finish` is `start`, also where arcs lead from
    /// `start` back to it. Ids without an adjacency list have no arcs. The
    /// frontier is a stack: the id found last is followed first. The ids
    /// seen are kept in a list, which is searched from its start for each arc.
    pub fn bfs(self: &Self, start: VId, finish: VId) -> (found: bool)
        requires
            lawful_id::<VId>(),
        ensures
            found == (start != finish && self@.reachable(start, finish)),
    {
        let ghost graph = self@;
        let ghost universe = all_targets(graph.edges).insert(start);
        let mut queue: Vec<&VId> = Vec::new();
        let mut visited: Vec<&VId> = Vec::new();
        queue.push(&start);
        visited.push(&start);
        proof {
            self.lemma_tables_finite();
            lemma_targets_finite(graph.edges);
            lemma_reach_self(graph, start);
            assert(ids(visited@)[0] == start);
            assert(ids(queue@)[0] == start);
            lemma_seen_fits(ids(visited@), universe);
        }
        while queue.len() > 0
            invariant
                lawful_id::<VId>(),
                graph == self@,
                universe == all_targets(graph.edges).insert(start),
                universe.finite(),
                visited.len() >= 1,
                ids(visited@)[0] == start,
                ids(visited@).no_duplicates(),
                forall|j: int| 1 <= j < visited.len() ==> #[trigger] ids(visited@)[j] != finish,
                forall|j: int|
                    0 <= j < visited.len() ==> graph.reachable(start, #[trigger] ids(visited@)[j]),
                forall|j: int|
                    0 <= j < visited.len() ==> universe.contains(#[trigger] ids(visited@)[j]),
                forall|j: int|
                    0 <= j < queue.len() ==> ids(visited@).contains(#[trigger] ids(queue@)[j]),
                forall|v: VId| #[trigger]
                    ids(visited@).contains(v) && !ids(queue@).contains(v) ==> closed_at(
                        graph,
                        ids(visited@),
                        v,
                    ),
                visited.len() <= universe.len(),
            decreases universe.len() - visited.len(), queue.len(),
        {
            let ghost queue_before = ids(queue@);
            let ghost seen_before = visited.len();
            let vertex = queue.pop().unwrap();
            proof {
                assert(ids(queue@) =~= queue_before.drop_last());
                assert(queue_before.last() == *vertex);
                assert(ids(visited@).contains(*vertex));
                assert forall|v: VId|
                    ids(visited@).contains(v) && !ids(queue@).contains(v) && v
                        != *vertex implies closed_at(graph, ids(visited@), v) by {
                    if queue_before.contains(v) {
                        let j = choose|j: int| 0 <= j < queue_before.len() && queue_before[j] == v;
                        assert(ids(queue@)[j] == v);
                    }
                }
            }
            match self.arcs_of(vertex) {
                Some(neighbors) => {
                    let mut i: usize = 0;
                    while i < neighbors.len()
                        invariant
                            lawful_id::<VId>(),
                            graph == self@,
                            graph.edges.contains_key(*vertex),
                            neighbors@ == graph.edges[*vertex],
                            0 <= i <= neighbors.len(),
                            universe == all_targets(graph.edges).insert(start),
                            universe.finite(),
                            visited.len() >= 1,
                            ids(visited@)[0] == start,
                            ids(visited@).no_duplicates(),
                            ids(visited@).contains(*vertex),
                            forall|j: int|
                                1 <= j < visited.len() ==> #[trigger] ids(visited@)[j] != finish,
                            forall|j: int|
                                0 <= j < visited.len() ==> graph.reachable(
                                    start,
                                    #[trigger] ids(visited@)[j],
                                ),
                            forall|j: int|
                                0 <= j < visited.len() ==> universe.contains(
                                    #[trigger] ids(visited@)[j],
                                ),
                            forall|j: int|
                                0 <= j < queue.len() ==> ids(visited@).contains(
                                    #[trigger] ids(queue@)[j],
                                ),
                            forall|v: VId| #[trigger]
                                ids(visited@).contains(v) && !ids(queue@).contains(v) && v
                                    != *vertex ==> closed_at(graph, ids(visited@), v),
                            forall|k: int|
                                0 <= k < i ==> ids(visited@).contains((#[trigger] neighbors@[k]).0),
                            visited.len() <= universe.len(),
                            visited.len() >= seen_before,
                            visited.len() == seen_before ==> queue.len() + 1 == queue_before.len(),
                        decreases neighbors.len() - i,
                    {
                        let vid = &neighbors[i].0;
                        if !contains_id(&visited, vid) {
                            let ghost seen = ids(visited@);
                            let ghost waiting = ids(queue@);
                            queue.push(vid);
                            visited.push(vid);
                            proof {
                                reveal(obeys_concrete_eq);
                                assert(ids(visited@) =~= seen.push(*vid));
                                assert(ids(queue@) =~= waiting.push(*vid));
                                assert(has_edge_to(neighbors@, *vid));
                                assert(graph.has_edge(*vertex, *vid));
                                let at = choose|j: int| 0 <= j < seen.len() && seen[j] == *vertex;
                                assert(graph.reachable(start, seen[at]));
                                lemma_reach_step(graph, start, *vertex, *vid);
                                assert(all_targets(graph.edges).contains(*vid));
                                lemma_grows(graph, seen, waiting, *vertex, *vid);
                                lemma_seen_fits(ids(visited@), universe);
                            }
                            if *vid == finish {
                                proof {
                                    assert(seen[0] == start);
                                    assert(seen.contains(start));
                                }
                                return true;
                            }
                        }
                        proof {
                            assert forall|k: int| 0 <= k <= i implies ids(visited@).contains(
                                (#[trigger] neighbors@[k]).0,
                            ) by {}
                        }
                        i += 1;
                    }
                    proof {
                        assert forall|t: VId| #[trigger]
                            graph.has_edge(*vertex, t) implies ids(visited@).contains(t) by {
                            let k = choose|k: int|
                                0 <= k < neighbors@.len() && (#[trigger] neighbors@[k]).0 == t;
                            assert(ids(visited@).contains(neighbors@[k].0));
                        }
                        assert(closed_at(graph, ids(visited@), *vertex));
                    }
                },
                None => {
                    assert(closed_at(graph, ids(visited@), *vertex));
                },
            }
        }
        proof {
            let seen = ids(visited@);
            assert(ids(queue@).len() == 0);
            if start != finish && graph.reachable(start, finish) {
                let path = choose|path: Seq<VId>| #[trigger]
                    graph.is_path(path) && path.first() == start && path.last() == finish;
                assert(seen[0] == start);
                assert forall|v: VId| #[trigger] seen.contains(v) implies closed_at(graph, seen, v) by {
                    assert(!ids(queue@).contains(v));
                }
                lemma_closed_holds_walk(graph, seen, path, path.len() - 1);
                let j = choose|j: int| 0 <= j < seen.len() && seen[j] == finish;
                assert(seen[j] == finish);
            }
        }
        false
    }
}

} // verus!
