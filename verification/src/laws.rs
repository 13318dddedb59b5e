//! What holds of the graph operations taken together.

use vstd::prelude::*;
use crate::model::GraphView;
use crate::model::is_first_edge_to;
use crate::model::without_target;
use crate::model::arcs_with_source;
use crate::model::arcs_leaving;
use vstd::set_lib::lemma_subset_equality;

verus! {

/// A vertex that was added is found, with the value it was added with;
/// the other vertices and the adjacency table are as before.
pub proof fn lemma_added_vertex_is_found<VId, V, E>(graph: GraphView<VId, V, E>, id: VId, value: V)
    ensures
        graph.add_vertex(id, value).vertices.contains_key(id),
        graph.add_vertex(id, value).vertices[id] == value,
        forall|other: VId|
            other != id ==> (graph.add_vertex(id, value).vertices.contains_key(other)
                <==> graph.vertices.contains_key(other)),
        graph.add_vertex(id, value).edges == graph.edges,
{
}

/// After a vertex is removed it is no vertex, it has no adjacency list, and
/// no arc of any list leads to it.
pub proof fn lemma_removed_vertex_is_gone<VId, V, E>(graph: GraphView<VId, V, E>, id: VId)
    ensures
        !graph.remove_vertex(id).vertices.contains_key(id),
        !graph.remove_vertex(id).edges.contains_key(id),
        forall|from: VId| !graph.remove_vertex(id).has_edge(from, id),
{
    let after = graph.remove_vertex(id);
    assert forall|from: VId| !after.has_edge(from, id) by {
        if after.has_edge(from, id) {
            let list = graph.edges[from];
            let keep = |arc: (VId, E)| arc.0 != id;
            assert(after.edges[from] == without_target(list, id));
            let i = choose|i: int|
                0 <= i < after.edges[from].len() && (#[trigger] after.edges[from][i]).0 == id;
            list.lemma_filter_pred(keep, i);
        }
    }
}

/// Removing a vertex leaves the arcs between other vertices in place, in their order.
pub proof fn lemma_removed_vertex_keeps_others<VId, V, E>(
    graph: GraphView<VId, V, E>,
    id: VId,
    from: VId,
)
    requires
        from != id,
        graph.edges.contains_key(from),
        !graph.has_edge(from, id),
    ensures
        graph.remove_vertex(id).edges.contains_key(from),
        graph.remove_vertex(id).edges[from] == graph.edges[from],
{
    let list = graph.edges[from];
    let keep = |arc: (VId, E)| arc.0 != id;
    lemma_filter_keeps_all(list, keep);
}

/// A filter that every item passes changes nothing.
proof fn lemma_filter_keeps_all<A>(list: Seq<A>, keep: spec_fn(A) -> bool)
    requires
        forall|i: int| 0 <= i < list.len() ==> keep(#[trigger] list[i]),
    ensures
        list.filter(keep) == list,
    decreases list.len(),
{
    reveal(Seq::filter);
    if list.len() > 0 {
        lemma_filter_keeps_all(list.drop_last(), keep);
        assert(list.drop_last().push(list.last()) =~= list);
    }
}

/// An arc that was added can be removed. Where no arc led from `from` to
/// `to` before, removing it gives the adjacency list back as it was (empty,
/// where `from` had none). Where one did, the first such arc goes and the
/// arc that was added stays, last in the list.
pub proof fn lemma_add_then_remove_edge<VId, V, E>(
    graph: GraphView<VId, V, E>,
    from: VId,
    to: VId,
    value: E,
    after: GraphView<VId, V, E>,
)
    requires
        graph.add_edge(from, to, value).first_edge_removed(from, to, after),
    ensures
        graph.add_edge(from, to, value).has_edge(from, to),
        after.vertices == graph.vertices,
        after.edges.dom() == graph.edges.dom().insert(from),
        forall|other: VId|
            other != from && graph.edges.contains_key(other) ==> after.edges[other]
                == graph.edges[other],
        !graph.has_edge(from, to) ==> after.edges[from] == graph.arcs_from(from),
        forall|i: int|
            is_first_edge_to(graph.arcs_from(from), to, i) ==> after.edges[from]
                == graph.arcs_from(from).remove(i).push((to, value)),
{
    let before = graph.arcs_from(from);
    let added = graph.add_edge(from, to, value);
    let list = added.edges[from];
    assert(list == before.push((to, value)));
    assert(list[before.len() as int].0 == to);
    let at = choose|at: int| #[trigger]
        is_first_edge_to(list, to, at) && after == added.remove_edge_at(from, at);
    assert(after.edges.dom() =~= graph.edges.dom().insert(from));
    if !graph.has_edge(from, to) {
        if at < before.len() {
            assert(before[at].0 == to);
            assert(list[at] == before[at]);
        }
        assert(at == before.len());
        assert(list.remove(at) =~= before);
    }
    assert forall|i: int| is_first_edge_to(before, to, i) implies after.edges[from]
        == before.remove(i).push((to, value)) by {
        assert(list[i] == before[i]);
        if at < i {
            assert(list[at] == before[at]);
        }
        assert(at == i);
        assert(list.remove(at) =~= before.remove(i).push((to, value)));
    }
}

/// Adding vertices from a list leaves the adjacency table alone. Afterwards
/// the vertices are those from before and those of the list; an id of the
/// list has the value of its last entry, every other vertex its value from before.
pub proof fn lemma_with_vertices_table<VId, V, E>(graph: GraphView<VId, V, E>, list: Seq<(VId, V)>)
    ensures
        graph.with_vertices(list).edges == graph.edges,
        forall|id: VId|
            #[trigger] graph.with_vertices(list).vertices.contains_key(id)
                <==> graph.vertices.contains_key(id) || exists|i: int|
                0 <= i < list.len() && (#[trigger] list[i]).0 == id,
        forall|i: int|
            0 <= i < list.len() && (forall|j: int|
                i < j < list.len() ==> (#[trigger] list[j]).0 != list[i].0)
                ==> graph.with_vertices(list).vertices[(#[trigger] list[i]).0] == list[i].1,
        forall|id: VId|
            (forall|i: int| 0 <= i < list.len() ==> (#[trigger] list[i]).0 != id)
                ==> #[trigger] graph.with_vertices(list).vertices[id] == graph.vertices[id],
    decreases list.len(),
{
    if list.len() > 0 {
        let before = list.drop_last();
        let last = list.last();
        lemma_with_vertices_table(graph, before);
        let built = graph.with_vertices(list);
        let partly = graph.with_vertices(before);
        assert(built == partly.add_vertex(last.0, last.1));
        assert forall|id: VId| #[trigger]
            built.vertices.contains_key(id) <==> graph.vertices.contains_key(id) || exists|i: int|
                0 <= i < list.len() && (#[trigger] list[i]).0 == id by {
            if built.vertices.contains_key(id) && !graph.vertices.contains_key(id) {
                if id == last.0 {
                    assert(list[list.len() - 1].0 == id);
                } else {
                    assert(partly.vertices.contains_key(id));
                    let i = choose|i: int| 0 <= i < before.len() && (#[trigger] before[i]).0 == id;
                    assert(list[i].0 == id);
                }
            }
            if exists|i: int| 0 <= i < list.len() && (#[trigger] list[i]).0 == id {
                let i = choose|i: int| 0 <= i < list.len() && (#[trigger] list[i]).0 == id;
                if i < before.len() {
                    assert(before[i].0 == id);
                }
            }
        }
        assert forall|i: int|
            0 <= i < list.len() && (forall|j: int|
                i < j < list.len() ==> (#[trigger] list[j]).0 != list[i].0) implies built.vertices[(
        #[trigger] list[i]).0] == list[i].1 by {
            if i < before.len() {
                assert(list[list.len() - 1].0 != list[i].0);
                assert(before[i] == list[i]);
                assert forall|j: int| i < j < before.len() implies (#[trigger] before[j]).0
                    != before[i].0 by {
                    assert(list[j].0 != list[i].0);
                }
            }
        }
        assert forall|id: VId|
            (forall|i: int|
                0 <= i < list.len() ==> (#[trigger] list[i]).0 != id) implies #[trigger] built.vertices[id]
            == graph.vertices[id] by {
            assert(list[list.len() - 1].0 != id);
            assert forall|i: int| 0 <= i < before.len() implies (#[trigger] before[i]).0 != id by {
                assert(list[i].0 != id);
            }
        }
    }
}

/// Adding arcs from a list leaves the vertex table alone. Afterwards the
/// adjacency list of an id is its list from before, then the arcs of the
/// list that leave the id, in their order; the arcs of other ids between
/// them do not matter. An id has an adjacency list where it had one before
/// or an arc of the list leaves it.
pub proof fn lemma_with_edges_table<VId, V, E>(
    graph: GraphView<VId, V, E>,
    list: Seq<(VId, VId, E)>,
    from: VId,
)
    ensures
        graph.with_edges(list).vertices == graph.vertices,
        graph.with_edges(list).arcs_from(from) == graph.arcs_from(from) + arcs_leaving(list, from),
        graph.with_edges(list).edges.contains_key(from) <==> graph.edges.contains_key(from)
            || arcs_leaving(list, from).len() > 0,
    decreases list.len(),
{
    let leaves = |arc: (VId, VId, E)| arc.0 == from;
    let bare = |arc: (VId, VId, E)| (arc.1, arc.2);
    if list.len() == 0 {
        reveal(Seq::filter);
        assert(list.filter(leaves) =~= Seq::<(VId, VId, E)>::empty());
        assert(graph.arcs_from(from) + arcs_leaving(list, from) =~= graph.arcs_from(from));
    } else {
        let before = list.drop_last();
        let last = list.last();
        lemma_with_edges_table(graph, before, from);
        let partly = graph.with_edges(before);
        assert(graph.with_edges(list) == partly.add_edge(last.0, last.1, last.2));
        before.lemma_filter_push(last, leaves);
        assert(before.push(last) =~= list);
        if last.0 == from {
            assert(list.filter(leaves).map_values(bare) =~= before.filter(leaves).map_values(
                bare,
            ).push((last.1, last.2)));
            assert(graph.with_edges(list).arcs_from(from) =~= graph.arcs_from(from) + arcs_leaving(
                list,
                from,
            ));
        }
    }
}

/// Among the arcs listed along an order without repeats, those that leave
/// an id of the order are its adjacency list; no arc leaves another id.
pub proof fn lemma_listed_arcs_leaving<VId, V, E>(
    graph: GraphView<VId, V, E>,
    order: Seq<VId>,
    from: VId,
)
    requires
        order.no_duplicates(),
    ensures
        arcs_leaving(graph.arcs_listed(order), from) == if order.contains(from) {
            graph.arcs_from(from)
        } else {
            Seq::empty()
        },
    decreases order.len(),
{
    let leaves = |arc: (VId, VId, E)| arc.0 == from;
    let bare = |arc: (VId, VId, E)| (arc.1, arc.2);
    if order.len() == 0 {
        reveal(Seq::filter);
        assert(graph.arcs_listed(order).filter(leaves) =~= Seq::<(VId, VId, E)>::empty());
        assert(arcs_leaving(graph.arcs_listed(order), from) =~= Seq::<(VId, E)>::empty());
    } else {
        let before = order.drop_last();
        let id = order.last();
        lemma_listed_arcs_leaving(graph, before, from);
        let head = graph.arcs_listed(before);
        let tail = arcs_with_source(id, graph.arcs_from(id));
        Seq::filter_distributes_over_add(head, tail, leaves);
        assert((head.filter(leaves) + tail.filter(leaves)).map_values(bare) =~= head.filter(
            leaves,
        ).map_values(bare) + tail.filter(leaves).map_values(bare));
        if id == from {
            lemma_filter_keeps_all(tail, leaves);
            assert(tail.map_values(bare) =~= graph.arcs_from(id));
            assert(!before.contains(from)) by {
                if before.contains(from) {
                    let i = choose|i: int| 0 <= i < before.len() && before[i] == from;
                    assert(order[i] == order[order.len() - 1]);
                }
            }
            assert(order[order.len() - 1] == from);
            assert(Seq::<(VId, E)>::empty() + graph.arcs_from(id) =~= graph.arcs_from(id));
        } else {
            lemma_filter_drops_all(tail, leaves);
            assert(tail.filter(leaves).map_values(bare) =~= Seq::<(VId, E)>::empty());
            assert(before.contains(from) <==> order.contains(from)) by {
                if before.contains(from) {
                    let i = choose|i: int| 0 <= i < before.len() && before[i] == from;
                    assert(order[i] == from);
                }
                if order.contains(from) {
                    let i = choose|i: int| 0 <= i < order.len() && order[i] == from;
                    assert(before[i] == from);
                }
            }
            assert(arcs_leaving(head, from) + Seq::<(VId, E)>::empty() =~= arcs_leaving(head, from));
        }
    }
}

/// A filter that no item passes leaves nothing.
proof fn lemma_filter_drops_all<A>(list: Seq<A>, keep: spec_fn(A) -> bool)
    requires
        forall|i: int| 0 <= i < list.len() ==> !keep(#[trigger] list[i]),
    ensures
        list.filter(keep) == Seq::<A>::empty(),
    decreases list.len(),
{
    reveal(Seq::filter);
    if list.len() > 0 {
        lemma_filter_drops_all(list.drop_last(), keep);
    }
}

/// A list of distinct items of a finite set that is as long as the set is large holds every item of the set.
proof fn lemma_full_list_holds_all<A>(list: Seq<A>, set: Set<A>)
    requires
        set.finite(),
        list.no_duplicates(),
        list.len() == set.len(),
        forall|i: int| 0 <= i < list.len() ==> set.contains(#[trigger] list[i]),
    ensures
        forall|item: A| set.contains(item) ==> list.contains(item),
{
    list.unique_seq_to_set();
    assert(list.to_set().subset_of(set)) by {
        assert forall|item: A| list.to_set().contains(item) implies set.contains(item) by {
            let i = choose|i: int| 0 <= i < list.len() && list[i] == item;
            assert(set.contains(list[i]));
        }
    }
    vstd::seq_lib::seq_to_set_is_finite(list);
    lemma_subset_equality(list.to_set(), set);
    assert forall|item: A| set.contains(item) implies list.contains(item) by {
        assert(list.to_set().contains(item));
    }
}

/// A graph is rebuilt from a listing of it. Take the vertices of a graph,
/// each once, in any order, and its arcs, list by list in any order of the
/// lists: the empty graph with those vertices and arcs added is the graph
/// again, where none of its adjacency lists is empty. An empty adjacency
/// list has no arc to show for it.
pub proof fn lemma_listing_rebuilds<VId, V, E>(
    graph: GraphView<VId, V, E>,
    vertices: Seq<(VId, V)>,
    order: Seq<VId>,
)
    requires
        graph.vertices.dom().finite(),
        graph.edges.dom().finite(),
        graph.vertices_in_order(vertices),
        graph.lists_in_order(order),
        forall|id: VId| #[trigger] graph.edges.contains_key(id) ==> graph.edges[id].len() > 0,
    ensures
        GraphView::<VId, V, E>::empty().with_vertices(vertices).with_edges(graph.arcs_listed(order))
            == graph,
{
    let start = GraphView::<VId, V, E>::empty();
    let half = start.with_vertices(vertices);
    let arcs = graph.arcs_listed(order);
    let built = half.with_edges(arcs);
    lemma_with_vertices_table(start, vertices);
    let ids = vertices.map_values(|vertex: (VId, V)| vertex.0);
    assert(ids.no_duplicates());
    assert forall|i: int| 0 <= i < ids.len() implies graph.vertices.dom().contains(
        #[trigger] ids[i],
    ) by {
        assert(graph.vertices.contains_key(vertices[i].0));
    }
    lemma_full_list_holds_all(ids, graph.vertices.dom());
    lemma_full_list_holds_all(order, graph.edges.dom());
    assert(built.vertices == half.vertices) by {
        lemma_with_edges_table(half, arcs, vstd::pervasive::arbitrary());
    }
    assert(built.vertices =~= graph.vertices) by {
        assert forall|id: VId| half.vertices.contains_key(id) <==> graph.vertices.contains_key(
            id,
        ) by {
            if half.vertices.contains_key(id) {
                let i = choose|i: int| 0 <= i < vertices.len() && (#[trigger] vertices[i]).0 == id;
                assert(graph.vertices.contains_key(vertices[i].0));
            }
            if graph.vertices.contains_key(id) {
                assert(ids.contains(id));
                let i = choose|i: int| 0 <= i < ids.len() && ids[i] == id;
                assert(vertices[i].0 == id);
            }
        }
        assert forall|id: VId| half.vertices.contains_key(id) implies half.vertices[id]
            == graph.vertices[id] by {
            let i = choose|i: int| 0 <= i < vertices.len() && (#[trigger] vertices[i]).0 == id;
            assert(half.vertices[vertices[i].0] == vertices[i].1);
        }
    }
    assert forall|from: VId|
        #![trigger built.edges.dom().contains(from)]
        #![trigger graph.edges.dom().contains(from)]
        built.edges.dom().contains(from) == graph.edges.dom().contains(from) && (
        built.edges.dom().contains(from) ==> built.edges[from] == graph.edges[from]) by {
        lemma_with_edges_table(half, arcs, from);
        lemma_listed_arcs_leaving(graph, order, from);
        assert(half.arcs_from(from) =~= Seq::<(VId, E)>::empty());
        assert(Seq::<(VId, E)>::empty() + arcs_leaving(arcs, from) =~= arcs_leaving(arcs, from));
        if graph.edges.contains_key(from) {
            assert(order.contains(from));
            assert(graph.edges[from].len() > 0);
        }
        if order.contains(from) {
            let i = choose|i: int| 0 <= i < order.len() && order[i] == from;
            assert(graph.edges.contains_key(order[i]));
        }
    }
    assert(built.edges =~= graph.edges);
}

} // verus!
