use vstd::prelude::*;
use crate::graph::{detached, link_cycle, link_row, link_rows, linked, total_len, unlinked, upper_pairs, Graph};
use crate::index::NodeIndex;
use crate::traverse::{edge, is_traversal, reached_from_earlier};
use crate::seq_util::{
    count_of, index_in, lemma_count_contains, lemma_count_push, lemma_swap_out, lemma_without_contains,
    lemma_without_count, swap_out, without,
};
use crate::wugraph::{arc_added, arc_row, arc_rows, arcs_removed, both_ways, detached_arcs, pairs_from, WUGraph};
use vstd::std_specs::cmp::PartialEqSpec;

verus! {

/// Edges of a graph are undirected: `a` is a neighbour of `b` exactly when
/// `b` is a neighbour of `a`.
pub proof fn lemma_edges_symmetric<T>(g: Graph<T>, a: NodeIndex, b: NodeIndex)
    requires
        g.wf(),
        g.valid_node(a),
        g.valid_node(b),
    ensures
        g.has_edge(a, b) == g.has_edge(b, a),
{
    if g.has_edge(a, b) {
        let k = choose|k: int| 0 <= k < g.adj()[a.index as int].len() && g.adj()[a.index as int][k] == b;
        assert(g.adj()[a.index as int][k] == b);
    }
    if g.has_edge(b, a) {
        let k = choose|k: int| 0 <= k < g.adj()[b.index as int].len() && g.adj()[b.index as int][k] == a;
        assert(g.adj()[b.index as int][k] == a);
    }
}

/// Connecting two distinct nodes joins them, at both ends.
pub proof fn lemma_connect_joins<T>(g: Graph<T>, a: NodeIndex, b: NodeIndex)
    requires
        g.wf(),
        g.valid_node(a),
        g.valid_node(b),
        a != b,
    ensures
        linked(g.adj(), a, b)[a.index as int].contains(b),
        linked(g.adj(), a, b)[b.index as int].contains(a),
{
    lemma_edges_symmetric(g, a, b);
    let adj = g.adj();
    if !adj[a.index as int].contains(b) {
        let na = adj[a.index as int].push(b);
        let nb = adj[b.index as int].push(a);
        assert(linked(adj, a, b)[a.index as int] == na);
        assert(na[na.len() - 1] == b);
        assert(linked(adj, a, b)[b.index as int] == nb);
        assert(nb[nb.len() - 1] == a);
    }
}

/// Connecting nodes that are already joined changes nothing; so connecting
/// twice is connecting once.
pub proof fn lemma_connect_idempotent<T>(g: Graph<T>, a: NodeIndex, b: NodeIndex)
    requires
        g.wf(),
        g.valid_node(a),
        g.valid_node(b),
        a != b,
    ensures
        linked(linked(g.adj(), a, b), a, b) == linked(g.adj(), a, b),
{
    lemma_connect_joins(g, a, b);
}

/// Disconnecting two nodes that were just connected, where they were not
/// joined before, gives back the neighbour lists as they were.
pub proof fn lemma_disconnect_undoes_connect<T>(g: Graph<T>, a: NodeIndex, b: NodeIndex)
    requires
        g.wf(),
        g.valid_node(a),
        g.valid_node(b),
        a != b,
        !g.has_edge(a, b),
    ensures
        unlinked(linked(g.adj(), a, b), a, b) == g.adj(),
{
    lemma_edges_symmetric(g, a, b);
    let adj = g.adj();
    let sa = adj[a.index as int];
    let sb = adj[b.index as int];
    let na = sa.push(b);
    let nb = sb.push(a);
    let l = linked(adj, a, b);
    assert(l[a.index as int] == na);
    assert(l[b.index as int] == nb);
    assert(na[na.len() - 1] == b);
    assert(nb[nb.len() - 1] == a);
    assert(index_in(na, b) == sa.len()) by {
        let p = index_in(na, b);
        if p < sa.len() {
            assert(sa[p] == b);
        }
    }
    assert(index_in(nb, a) == sb.len()) by {
        let p = index_in(nb, a);
        if p < sb.len() {
            assert(sb[p] == a);
        }
    }
    assert(swap_out(na, b) =~= sa);
    assert(swap_out(nb, a) =~= sb);
    assert(unlinked(l, a, b) =~= adj);
}

/// Disconnecting two joined nodes leaves them unjoined, at both ends.
pub proof fn lemma_disconnect_separates<T>(g: Graph<T>, a: NodeIndex, b: NodeIndex)
    requires
        g.wf(),
        g.valid_node(a),
        g.valid_node(b),
        g.has_edge(a, b),
    ensures
        !unlinked(g.adj(), a, b)[a.index as int].contains(b),
        !unlinked(g.adj(), a, b)[b.index as int].contains(a),
{
    let adj = g.adj();
    lemma_edges_symmetric(g, a, b);
    lemma_swap_out(adj[a.index as int], b);
    lemma_swap_out(adj[b.index as int], a);
    let k = choose|k: int| 0 <= k < adj[a.index as int].len() && adj[a.index as int][k] == b;
    assert(adj[a.index as int][k] == b);
}

/// Once a node is deleted, no node has it as a neighbour and it has none.
pub proof fn lemma_delete_isolates<T>(g: Graph<T>, x: NodeIndex)
    requires
        g.wf(),
        g.valid_node(x),
    ensures
        detached(g.adj(), x)[x.index as int].len() == 0,
        forall|i: int| 0 <= i < g.adj().len() ==> !(#[trigger] detached(g.adj(), x)[i]).contains(x),
{
    let adj = g.adj();
    assert forall|i: int| 0 <= i < adj.len() implies !(#[trigger] detached(adj, x)[i]).contains(x) by {
        if i != x.index as int {
            let xi = NodeIndex { index: i as usize };
            if adj[x.index as int].contains(xi) {
                lemma_swap_out(adj[i], x);
            } else if adj[i].contains(x) {
                assert(g.live(i)) by {
                    if !g.live(i) {
                        assert(adj[i].len() == 0);
                    }
                }
                let k = choose|k: int| 0 <= k < adj[i].len() && adj[i][k] == x;
                assert(adj[i][k] == x);
            }
        }
    }
}

/// Connecting only ever adds edges.
proof fn lemma_linked_keeps(adj: Seq<Seq<NodeIndex>>, a: NodeIndex, b: NodeIndex, x: int, y: NodeIndex)
    requires
        0 <= a.index < adj.len(),
        0 <= b.index < adj.len(),
        0 <= x < adj.len(),
        adj[x].contains(y),
    ensures
        linked(adj, a, b)[x].contains(y),
{
    if !adj[a.index as int].contains(b) {
        let k = choose|k: int| 0 <= k < adj[x].len() && adj[x][k] == y;
        assert(linked(adj, a, b)[x][k] == y);
    }
}

/// After connecting, `b` is a neighbour of `a`.
proof fn lemma_linked_has(adj: Seq<Seq<NodeIndex>>, a: NodeIndex, b: NodeIndex)
    requires
        0 <= a.index < adj.len(),
        0 <= b.index < adj.len(),
        a != b,
    ensures
        linked(adj, a, b)[a.index as int].contains(b),
{
    if !adj[a.index as int].contains(b) {
        let na = adj[a.index as int].push(b);
        assert(linked(adj, a, b)[a.index as int] == na);
        assert(na[na.len() - 1] == b);
    }
}

/// The lists of `link_row` and `link_rows` keep their number of slots, and
/// every neighbour once recorded stays recorded.
proof fn lemma_link_row_keeps(adj: Seq<Seq<NodeIndex>>, nodes: Seq<NodeIndex>, i: int, j: int, x: int, y: NodeIndex)
    requires
        0 <= i < j <= nodes.len(),
        forall|k: int| 0 <= k < nodes.len() ==> 0 <= (#[trigger] nodes[k]).index < adj.len(),
        nodes.no_duplicates(),
        0 <= x < adj.len(),
        adj[x].contains(y),
    ensures
        link_row(adj, nodes, i, j).len() == adj.len(),
        link_row(adj, nodes, i, j)[x].contains(y),
    decreases j - i,
{
    if j > i + 1 {
        lemma_link_row_keeps(adj, nodes, i, j - 1, x, y);
        lemma_link_row_len(adj, nodes, i, j - 1);
        lemma_linked_keeps(link_row(adj, nodes, i, j - 1), nodes[i], nodes[j - 1], x, y);
    }
}

proof fn lemma_link_row_len(adj: Seq<Seq<NodeIndex>>, nodes: Seq<NodeIndex>, i: int, j: int)
    requires
        0 <= i < j <= nodes.len(),
        forall|k: int| 0 <= k < nodes.len() ==> 0 <= (#[trigger] nodes[k]).index < adj.len(),
    ensures
        link_row(adj, nodes, i, j).len() == adj.len(),
    decreases j - i,
{
    if j > i + 1 {
        lemma_link_row_len(adj, nodes, i, j - 1);
    }
}

proof fn lemma_link_rows_len(adj: Seq<Seq<NodeIndex>>, nodes: Seq<NodeIndex>, rows: int)
    requires
        0 <= rows <= nodes.len(),
        forall|k: int| 0 <= k < nodes.len() ==> 0 <= (#[trigger] nodes[k]).index < adj.len(),
    ensures
        link_rows(adj, nodes, rows).len() == adj.len(),
    decreases rows,
{
    if rows > 0 {
        lemma_link_rows_len(adj, nodes, rows - 1);
        lemma_link_row_len(link_rows(adj, nodes, rows - 1), nodes, rows - 1, nodes.len() as int);
    }
}

/// Row `i` of `connect_all` joins `nodes[i]` to each later entry it reached.
proof fn lemma_link_row_has(adj: Seq<Seq<NodeIndex>>, nodes: Seq<NodeIndex>, i: int, j: int, j2: int)
    requires
        0 <= i < j2 < j <= nodes.len(),
        forall|k: int| 0 <= k < nodes.len() ==> 0 <= (#[trigger] nodes[k]).index < adj.len(),
        nodes.no_duplicates(),
    ensures
        link_row(adj, nodes, i, j)[nodes[i].index as int].contains(nodes[j2]),
    decreases j - i,
{
    lemma_link_row_len(adj, nodes, i, j - 1);
    if j2 == j - 1 {
        lemma_linked_has(link_row(adj, nodes, i, j - 1), nodes[i], nodes[j - 1]);
    } else {
        lemma_link_row_has(adj, nodes, i, j - 1, j2);
        lemma_linked_keeps(link_row(adj, nodes, i, j - 1), nodes[i], nodes[j - 1], nodes[i].index as int, nodes[j2]);
    }
}

/// After the first `rows` rows of `connect_all`, every entry before `rows`
/// has each later entry as a neighbour.
proof fn lemma_link_rows_has(adj: Seq<Seq<NodeIndex>>, nodes: Seq<NodeIndex>, rows: int, i: int, j: int)
    requires
        0 <= i < rows <= nodes.len(),
        i < j < nodes.len(),
        forall|k: int| 0 <= k < nodes.len() ==> 0 <= (#[trigger] nodes[k]).index < adj.len(),
        nodes.no_duplicates(),
    ensures
        link_rows(adj, nodes, rows)[nodes[i].index as int].contains(nodes[j]),
    decreases rows,
{
    let n = nodes.len() as int;
    let prev = link_rows(adj, nodes, rows - 1);
    lemma_link_rows_len(adj, nodes, rows - 1);
    if i == rows - 1 {
        lemma_link_row_has(prev, nodes, i, n, j);
    } else {
        lemma_link_rows_has(adj, nodes, rows - 1, i, j);
        lemma_link_row_keeps(prev, nodes, rows - 1, n, nodes[i].index as int, nodes[j]);
    }
}

/// Connecting all of a list of distinct nodes joins every two of them.
pub proof fn lemma_connect_all_joins_all<T>(g0: Graph<T>, g1: Graph<T>, nodes: Seq<NodeIndex>)
    requires
        g0.wf(),
        g1.wf(),
        forall|k: int| 0 <= k < nodes.len() ==> g0.valid_node(#[trigger] nodes[k]),
        nodes.no_duplicates(),
        g1.same_nodes(&g0),
        g1.adj() == link_rows(g0.adj(), nodes, nodes.len() as int),
    ensures
        forall|i: int, j: int| 0 <= i < nodes.len() && 0 <= j < nodes.len() && i != j
            ==> #[trigger] g1.has_edge(nodes[i], nodes[j]),
{
    assert forall|i: int, j: int| 0 <= i < nodes.len() && 0 <= j < nodes.len() && i != j
        implies #[trigger] g1.has_edge(nodes[i], nodes[j]) by {
        assert forall|k: int| 0 <= k < nodes.len() implies 0 <= (#[trigger] nodes[k]).index < g0.adj().len() by {
            assert(g0.valid_node(nodes[k]));
        }
        if i < j {
            lemma_link_rows_has(g0.adj(), nodes, nodes.len() as int, i, j);
        } else {
            lemma_link_rows_has(g0.adj(), nodes, nodes.len() as int, j, i);
            assert(g1.live(nodes[i].index as int));
            assert(g1.live(nodes[j].index as int));
            lemma_edges_symmetric(g1, nodes[j], nodes[i]);
        }
    }
}

/// Replacing one list changes the total length by the difference in length.
pub proof fn lemma_total_len_update(adj: Seq<Seq<NodeIndex>>, i: int, s: Seq<NodeIndex>)
    requires
        0 <= i < adj.len(),
    ensures
        total_len(adj.update(i, s)) == total_len(adj) - adj[i].len() + s.len(),
    decreases adj.len(),
{
    let u = adj.update(i, s);
    if i == adj.len() - 1 {
        assert(u.drop_last() =~= adj.drop_last());
    } else {
        assert(u.drop_last() =~= adj.drop_last().update(i, s));
        lemma_total_len_update(adj.drop_last(), i, s);
    }
}

/// Connecting two nodes that were not joined adds one edge to the count of
/// edges; disconnecting them again takes one away.
pub proof fn lemma_connect_counts_one_edge<T>(g: Graph<T>, a: NodeIndex, b: NodeIndex)
    requires
        g.wf(),
        g.valid_node(a),
        g.valid_node(b),
        a != b,
        !g.has_edge(a, b),
    ensures
        total_len(linked(g.adj(), a, b)) / 2 == total_len(g.adj()) / 2 + 1,
        total_len(unlinked(linked(g.adj(), a, b), a, b)) / 2 == total_len(g.adj()) / 2,
{
    let adj = g.adj();
    let s1 = adj.update(a.index as int, adj[a.index as int].push(b));
    lemma_total_len_update(adj, a.index as int, adj[a.index as int].push(b));
    lemma_total_len_update(s1, b.index as int, adj[b.index as int].push(a));
    assert(s1[b.index as int] == adj[b.index as int]);
    lemma_disconnect_undoes_connect(g, a, b);
}

/// Disconnecting two joined nodes takes one edge away from the count of edges.
pub proof fn lemma_disconnect_counts_one_edge<T>(g: Graph<T>, a: NodeIndex, b: NodeIndex)
    requires
        g.wf(),
        g.valid_node(a),
        g.valid_node(b),
        g.has_edge(a, b),
    ensures
        total_len(unlinked(g.adj(), a, b)) / 2 == total_len(g.adj()) / 2 - 1,
{
    let adj = g.adj();
    lemma_edges_symmetric(g, a, b);
    let k = choose|k: int| 0 <= k < adj[a.index as int].len() && adj[a.index as int][k] == b;
    assert(adj[a.index as int][k] == b);
    assert(a != b);
    lemma_swap_out(adj[a.index as int], b);
    lemma_swap_out(adj[b.index as int], a);
    let s1 = adj.update(b.index as int, swap_out(adj[b.index as int], a));
    lemma_total_len_update(adj, b.index as int, swap_out(adj[b.index as int], a));
    lemma_total_len_update(s1, a.index as int, swap_out(adj[a.index as int], b));
    assert(s1[a.index as int] == adj[a.index as int]);
}

proof fn lemma_link_cycle_len(adj: Seq<Seq<NodeIndex>>, nodes: Seq<NodeIndex>, steps: int)
    requires
        0 <= steps <= nodes.len(),
        forall|k: int| 0 <= k < nodes.len() ==> 0 <= (#[trigger] nodes[k]).index < adj.len(),
    ensures
        link_cycle(adj, nodes, steps).len() == adj.len(),
    decreases steps,
{
    if steps > 0 {
        lemma_link_cycle_len(adj, nodes, steps - 1);
        let n = nodes.len() as int;
        assert(0 <= steps % n < n);
    }
}

/// Looping a list of nodes, each equal to none of its neighbours in the
/// list, joins each entry to the next and the last to the first.
pub proof fn lemma_loop_node_joins_cycle<T>(g0: Graph<T>, g1: Graph<T>, nodes: Seq<NodeIndex>)
    requires
        g0.wf(),
        g1.wf(),
        forall|k: int| 0 <= k < nodes.len() ==> g0.valid_node(#[trigger] nodes[k]),
        forall|k: int| 0 <= k < nodes.len() ==> #[trigger] nodes[k] != nodes[(k + 1) % (nodes.len() as int)],
        g1.same_nodes(&g0),
        g1.adj() == link_cycle(g0.adj(), nodes, nodes.len() as int),
    ensures
        forall|k: int| 0 <= k < nodes.len() ==> #[trigger] g1.has_edge(nodes[k], nodes[(k + 1) % (nodes.len() as int)])
            && g1.has_edge(nodes[(k + 1) % (nodes.len() as int)], nodes[k]),
{
    let n = nodes.len() as int;
    let adj = g0.adj();
    assert forall|k: int| 0 <= k < nodes.len() implies 0 <= (#[trigger] nodes[k]).index < adj.len() by {
        assert(g0.valid_node(nodes[k]));
    }
    assert forall|k: int| 0 <= k < n implies #[trigger] g1.has_edge(nodes[k], nodes[(k + 1) % n])
        && g1.has_edge(nodes[(k + 1) % n], nodes[k]) by {
        let m = (k + 1) % n;
        assert(0 <= m < n);
        lemma_link_cycle_len(adj, nodes, k);
        lemma_linked_has(link_cycle(adj, nodes, k), nodes[k], nodes[m]);
        assert(link_cycle(adj, nodes, k + 1) == linked(link_cycle(adj, nodes, k), nodes[k], nodes[m]));
        lemma_link_cycle_tail(adj, nodes, k + 1, nodes[k].index as int, nodes[m]);
        assert(g1.live(nodes[k].index as int));
        assert(g1.live(nodes[m].index as int));
        lemma_edges_symmetric(g1, nodes[k], nodes[m]);
    }
}

/// What `link_cycle` has recorded after `steps` steps stays recorded after all steps.
proof fn lemma_link_cycle_tail(adj: Seq<Seq<NodeIndex>>, nodes: Seq<NodeIndex>, steps: int, x: int, y: NodeIndex)
    requires
        0 <= steps <= nodes.len(),
        forall|k: int| 0 <= k < nodes.len() ==> 0 <= (#[trigger] nodes[k]).index < adj.len(),
        0 <= x < adj.len(),
        link_cycle(adj, nodes, steps)[x].contains(y),
    ensures
        link_cycle(adj, nodes, nodes.len() as int)[x].contains(y),
    decreases nodes.len() - steps,
{
    if steps < nodes.len() {
        let n = nodes.len() as int;
        lemma_link_cycle_len(adj, nodes, steps);
        assert(0 <= (steps + 1) % n < n);
        lemma_linked_keeps(link_cycle(adj, nodes, steps), nodes[steps], nodes[(steps + 1) % n], x, y);
        lemma_link_cycle_tail(adj, nodes, steps + 1, x, y);
    }
}

/// In a directed graph, each edge is listed once at each end: the edges
/// from `x` to `y` in the outgoing list of `x` are as many as the entries
/// for `x` in the incoming list of `y`.
pub proof fn lemma_wu_ends_agree<T>(g: WUGraph<T>, x: NodeIndex, y: NodeIndex)
    requires
        g.wf(),
        g.valid_node(x),
        g.valid_node(y),
    ensures
        g.arcs(x, y) == count_of(g.in_adj()[y.index as int], x),
{
}

/// Where parallel edges are not allowed, two nodes are joined by at most
/// one edge.
pub proof fn lemma_wu_no_parallel_edges<T>(g: WUGraph<T>, x: NodeIndex, y: NodeIndex)
    requires
        g.wf(),
        !g.allow_pseudo_graph,
        g.valid_node(x),
        g.valid_node(y),
    ensures
        g.arcs(x, y) <= 1,
{
    assert(g.out_adj()[x.index as int].no_duplicates());
    lemma_count_contains(g.out_adj()[x.index as int], y);
}

/// Where self-loops are not allowed, no edge leads from a node to itself.
pub proof fn lemma_wu_no_self_loops<T>(g: WUGraph<T>, x: NodeIndex)
    requires
        g.wf(),
        !g.allow_self_loop,
        g.valid_node(x),
    ensures
        g.arcs(x, x) == 0,
{
    lemma_count_contains(g.out_adj()[x.index as int], x);
}

/// Connecting `f` to `t` leaves them joined. It adds one edge, and one to
/// the count of edges, unless the edge exists and parallel edges are not
/// allowed, in which case nothing changes.
pub proof fn lemma_wu_connect_adds<T>(g: WUGraph<T>, f: NodeIndex, t: NodeIndex)
    requires
        g.wf(),
        g.valid_node(f),
        g.valid_node(t),
    ensures
        ({
            let st = arc_added(g.out_adj(), g.in_adj(), f, t, g.allow_pseudo_graph);
            let added = !g.out_adj()[f.index as int].contains(t) || g.allow_pseudo_graph;
            &&& st.0[f.index as int].contains(t)
            &&& count_of(st.0[f.index as int], t) == g.arcs(f, t) + if added { 1nat } else { 0nat }
            &&& total_len(st.0) == total_len(g.out_adj()) + if added { 1nat } else { 0nat }
        }),
{
    let out = g.out_adj();
    let s = out[f.index as int];
    if !s.contains(t) || g.allow_pseudo_graph {
        let u = s.push(t);
        assert(u[u.len() - 1] == t);
        lemma_count_push(s, t, t);
        lemma_total_len_update(out, f.index as int, u);
    }
}

/// Disconnecting `f` from `t` takes out every edge from `f` to `t`, and that
/// many from the count of edges; edges between other nodes stay.
pub proof fn lemma_wu_disconnect_removes_all<T>(g: WUGraph<T>, f: NodeIndex, t: NodeIndex)
    requires
        g.wf(),
        g.valid_node(f),
        g.valid_node(t),
    ensures
        ({
            let st = arcs_removed(g.out_adj(), g.in_adj(), f, t);
            &&& !st.0[f.index as int].contains(t)
            &&& count_of(st.0[f.index as int], t) == 0
            &&& count_of(st.1[t.index as int], f) == 0
            &&& total_len(st.0) == total_len(g.out_adj()) - g.arcs(f, t)
            &&& forall|x: NodeIndex, y: NodeIndex| !(x == f && y == t) && 0 <= x.index < g.nodes.len()
                ==> #[trigger] count_of(st.0[x.index as int], y) == count_of(g.out_adj()[x.index as int], y)
        }),
{
    let out = g.out_adj();
    let s = out[f.index as int];
    lemma_without_contains(s, t);
    lemma_without_count(s, t, t);
    lemma_without_count(g.in_adj()[t.index as int], f, f);
    lemma_without_len(s, t);
    lemma_total_len_update(out, f.index as int, without(s, t));
    let st = arcs_removed(g.out_adj(), g.in_adj(), f, t);
    assert forall|x: NodeIndex, y: NodeIndex| !(x == f && y == t) && 0 <= x.index < g.nodes.len()
        implies #[trigger] count_of(st.0[x.index as int], y) == count_of(g.out_adj()[x.index as int], y) by {
        if x.index == f.index {
            lemma_without_count(s, t, y);
        }
    }
}

/// Taking out every `x` shortens a list by the number of `x` it held.
proof fn lemma_without_len(s: Seq<NodeIndex>, x: NodeIndex)
    ensures
        without(s, x).len() == s.len() - count_of(s, x),
    decreases s.len(),
{
    if s.len() > 0 {
        lemma_without_len(s.drop_last(), x);
        lemma_count_contains(s, x);
    }
}

/// Removing all edges between `f` and `t` leaves no edge between them in
/// either direction.
pub proof fn lemma_wu_remove_all_edges_both_ways<T>(g: WUGraph<T>, f: NodeIndex, t: NodeIndex)
    requires
        g.wf(),
        g.valid_node(f),
        g.valid_node(t),
    ensures
        ({
            let once = arcs_removed(g.out_adj(), g.in_adj(), f, t);
            let both = arcs_removed(once.0, once.1, t, f);
            let st = if f != t { both } else { once };
            &&& count_of(st.0[f.index as int], t) == 0
            &&& count_of(st.0[t.index as int], f) == 0
        }),
{
    let out = g.out_adj();
    lemma_without_count(out[f.index as int], t, t);
    let once = arcs_removed(g.out_adj(), g.in_adj(), f, t);
    if f != t {
        lemma_without_count(once.0[t.index as int], f, f);
        let both = arcs_removed(once.0, once.1, t, f);
        assert(both.0[f.index as int] == once.0[f.index as int]);
    }
}

/// Connecting `f` to `t` and then disconnecting them, where there was no
/// edge from `f` to `t`, gives back the edges as they were.
pub proof fn lemma_wu_disconnect_undoes_connect<T>(g: WUGraph<T>, f: NodeIndex, t: NodeIndex)
    requires
        g.wf(),
        g.valid_node(f),
        g.valid_node(t),
        g.arcs(f, t) == 0,
    ensures
        ({
            let st = arc_added(g.out_adj(), g.in_adj(), f, t, g.allow_pseudo_graph);
            arcs_removed(st.0, st.1, f, t) == (g.out_adj(), g.in_adj())
        }),
{
    let out = g.out_adj();
    let inn = g.in_adj();
    let so = out[f.index as int];
    let si = inn[t.index as int];
    lemma_count_contains(so, t);
    assert(count_of(si, f) == 0);
    lemma_count_contains(si, f);
    lemma_without_absent(so, t);
    lemma_without_absent(si, f);
    assert(so.push(t).drop_last() =~= so);
    assert(si.push(f).drop_last() =~= si);
    let st = arc_added(out, inn, f, t, g.allow_pseudo_graph);
    assert(st.0[f.index as int] == so.push(t));
    assert(without(so.push(t), t) == without(so, t));
    assert(without(si.push(f), f) == without(si, f));
    if f.index == t.index {
        assert(st.0 =~= out.update(f.index as int, so.push(t)));
    }
    assert(arcs_removed(st.0, st.1, f, t).0 =~= out);
    assert(arcs_removed(st.0, st.1, f, t).1 =~= inn);
}

/// Taking out an entry that does not occur changes nothing.
proof fn lemma_without_absent(s: Seq<NodeIndex>, x: NodeIndex)
    requires
        !s.contains(x),
    ensures
        without(s, x) == s,
    decreases s.len(),
{
    if s.len() > 0 {
        let p = s.drop_last();
        assert(!p.contains(x)) by {
            if p.contains(x) {
                let k = choose|k: int| 0 <= k < p.len() && p[k] == x;
                assert(s[k] == x);
            }
        }
        lemma_without_absent(p, x);
        assert(s.last() != x) by {
            assert(s[s.len() - 1] == s.last());
        }
        assert(p.push(s.last()) =~= s);
    }
}

/// Once a node is deleted, no list of a directed graph holds it.
pub proof fn lemma_wu_delete_isolates<T>(g: WUGraph<T>, x: NodeIndex)
    requires
        g.wf(),
        g.valid_node(x),
    ensures
        forall|i: int| 0 <= i < g.nodes.len() ==> !(#[trigger] detached_arcs(g.out_adj(), x)[i]).contains(x),
        forall|i: int| 0 <= i < g.nodes.len() ==> !(#[trigger] detached_arcs(g.in_adj(), x)[i]).contains(x),
{
    assert forall|i: int| 0 <= i < g.nodes.len() implies !(#[trigger] detached_arcs(g.out_adj(), x)[i]).contains(x) by {
        lemma_without_contains(g.out_adj()[i], x);
    }
    assert forall|i: int| 0 <= i < g.nodes.len() implies !(#[trigger] detached_arcs(g.in_adj(), x)[i]).contains(x) by {
        lemma_without_contains(g.in_adj()[i], x);
    }
}

/// Adding an edge only ever adds edges.
proof fn lemma_arc_added_keeps(st: (Seq<Seq<NodeIndex>>, Seq<Seq<NodeIndex>>), a: NodeIndex, b: NodeIndex, p: bool, x: int, y: NodeIndex)
    requires
        0 <= a.index < st.0.len(),
        0 <= b.index < st.1.len(),
        0 <= x < st.0.len(),
        st.0[x].contains(y),
    ensures
        arc_added(st.0, st.1, a, b, p).0[x].contains(y),
        arc_added(st.0, st.1, a, b, p).0.len() == st.0.len(),
        arc_added(st.0, st.1, a, b, p).1.len() == st.1.len(),
{
    if !(st.0[a.index as int].contains(b) && !p) {
        let k = choose|k: int| 0 <= k < st.0[x].len() && st.0[x][k] == y;
        assert(arc_added(st.0, st.1, a, b, p).0[x][k] == y);
    }
}

/// After adding an edge from `a` to `b`, `b` is in the outgoing list of `a`.
proof fn lemma_arc_added_has(st: (Seq<Seq<NodeIndex>>, Seq<Seq<NodeIndex>>), a: NodeIndex, b: NodeIndex, p: bool)
    requires
        0 <= a.index < st.0.len(),
        0 <= b.index < st.1.len(),
    ensures
        arc_added(st.0, st.1, a, b, p).0[a.index as int].contains(b),
{
    if !(st.0[a.index as int].contains(b) && !p) {
        let u = st.0[a.index as int].push(b);
        assert(u[u.len() - 1] == b);
    }
}

/// Joining both ways keeps what was there and joins `a` to `b` and `b` to `a`.
proof fn lemma_both_ways(st: (Seq<Seq<NodeIndex>>, Seq<Seq<NodeIndex>>), a: NodeIndex, b: NodeIndex, p: bool, x: int, y: NodeIndex)
    requires
        0 <= a.index < st.0.len(),
        0 <= b.index < st.0.len(),
        st.0.len() == st.1.len(),
        0 <= x < st.0.len(),
    ensures
        both_ways(st, a, b, p).0.len() == st.0.len(),
        both_ways(st, a, b, p).1.len() == st.1.len(),
        st.0[x].contains(y) ==> both_ways(st, a, b, p).0[x].contains(y),
        both_ways(st, a, b, p).0[a.index as int].contains(b),
        both_ways(st, a, b, p).0[b.index as int].contains(a),
{
    let s1 = arc_added(st.0, st.1, a, b, p);
    lemma_arc_added_has(st, a, b, p);
    lemma_arc_added_keeps_len(st, a, b, p);
    lemma_arc_added_has(s1, b, a, p);
    lemma_arc_added_keeps(s1, b, a, p, a.index as int, b);
    if st.0[x].contains(y) {
        lemma_arc_added_keeps(st, a, b, p, x, y);
        lemma_arc_added_keeps(s1, b, a, p, x, y);
    }
    lemma_arc_added_keeps_len(s1, b, a, p);
}

proof fn lemma_arc_added_keeps_len(st: (Seq<Seq<NodeIndex>>, Seq<Seq<NodeIndex>>), a: NodeIndex, b: NodeIndex, p: bool)
    requires
        0 <= a.index < st.0.len(),
        0 <= b.index < st.1.len(),
    ensures
        arc_added(st.0, st.1, a, b, p).0.len() == st.0.len(),
        arc_added(st.0, st.1, a, b, p).1.len() == st.1.len(),
{
}

proof fn lemma_arc_row_props(
    st: (Seq<Seq<NodeIndex>>, Seq<Seq<NodeIndex>>),
    nodes: Seq<NodeIndex>,
    i: int,
    j: int,
    p: bool,
    x: int,
    y: NodeIndex,
)
    requires
        0 <= i < j <= nodes.len(),
        st.0.len() == st.1.len(),
        forall|k: int| 0 <= k < nodes.len() ==> 0 <= (#[trigger] nodes[k]).index < st.0.len(),
        0 <= x < st.0.len(),
    ensures
        arc_row(st, nodes, i, j, p).0.len() == st.0.len(),
        arc_row(st, nodes, i, j, p).1.len() == st.1.len(),
        st.0[x].contains(y) ==> arc_row(st, nodes, i, j, p).0[x].contains(y),
        forall|j2: int| i < j2 < j ==> (#[trigger] arc_row(st, nodes, i, j, p).0[nodes[i].index as int]).contains(nodes[j2])
            && arc_row(st, nodes, i, j, p).0[nodes[j2].index as int].contains(nodes[i]),
    decreases j - i,
{
    if j > i + 1 {
        let prev = arc_row(st, nodes, i, j - 1, p);
        lemma_arc_row_props(st, nodes, i, j - 1, p, x, y);
        lemma_both_ways(prev, nodes[i], nodes[j - 1], p, x, y);
        assert forall|j2: int| i < j2 < j implies (#[trigger] arc_row(st, nodes, i, j, p).0[nodes[i].index as int]).contains(nodes[j2])
            && arc_row(st, nodes, i, j, p).0[nodes[j2].index as int].contains(nodes[i]) by {
            if j2 < j - 1 {
                lemma_arc_row_props(st, nodes, i, j - 1, p, nodes[i].index as int, nodes[j2]);
                lemma_arc_row_props(st, nodes, i, j - 1, p, nodes[j2].index as int, nodes[i]);
                assert(prev.0[nodes[i].index as int].contains(nodes[j2]));
                lemma_both_ways(prev, nodes[i], nodes[j - 1], p, nodes[i].index as int, nodes[j2]);
                lemma_both_ways(prev, nodes[i], nodes[j - 1], p, nodes[j2].index as int, nodes[i]);
            } else {
                lemma_both_ways(prev, nodes[i], nodes[j - 1], p, x, y);
            }
        }
    }
}

proof fn lemma_arc_rows_props(
    st: (Seq<Seq<NodeIndex>>, Seq<Seq<NodeIndex>>),
    nodes: Seq<NodeIndex>,
    rows: int,
    p: bool,
    x: int,
    y: NodeIndex,
)
    requires
        0 <= rows <= nodes.len(),
        st.0.len() == st.1.len(),
        forall|k: int| 0 <= k < nodes.len() ==> 0 <= (#[trigger] nodes[k]).index < st.0.len(),
        0 <= x < st.0.len(),
    ensures
        arc_rows(st, nodes, rows, p).0.len() == st.0.len(),
        arc_rows(st, nodes, rows, p).1.len() == st.1.len(),
        st.0[x].contains(y) ==> arc_rows(st, nodes, rows, p).0[x].contains(y),
    decreases rows,
{
    if rows > 0 {
        lemma_arc_rows_props(st, nodes, rows - 1, p, x, y);
        let prev = arc_rows(st, nodes, rows - 1, p);
        if rows - 1 < nodes.len() - 1 {
            lemma_arc_row_props(prev, nodes, rows - 1, nodes.len() as int, p, x, y);
        }
    }
}

/// After the first `rows` rows of `connect_all`, every two entries of which
/// the first is before `rows` are joined both ways.
proof fn lemma_arc_rows_has(st: (Seq<Seq<NodeIndex>>, Seq<Seq<NodeIndex>>), nodes: Seq<NodeIndex>, rows: int, p: bool, i: int, j: int)
    requires
        0 <= i < rows <= nodes.len(),
        i < j < nodes.len(),
        st.0.len() == st.1.len(),
        forall|k: int| 0 <= k < nodes.len() ==> 0 <= (#[trigger] nodes[k]).index < st.0.len(),
    ensures
        arc_rows(st, nodes, rows, p).0[nodes[i].index as int].contains(nodes[j]),
        arc_rows(st, nodes, rows, p).0[nodes[j].index as int].contains(nodes[i]),
    decreases rows,
{
    let n = nodes.len() as int;
    let prev = arc_rows(st, nodes, rows - 1, p);
    lemma_arc_rows_props(st, nodes, rows - 1, p, 0, nodes[0]);
    if i == rows - 1 {
        lemma_arc_row_props(prev, nodes, i, n, p, 0, nodes[0]);
    } else {
        lemma_arc_rows_has(st, nodes, rows - 1, p, i, j);
        lemma_arc_row_props(prev, nodes, rows - 1, n, p, nodes[i].index as int, nodes[j]);
        lemma_arc_row_props(prev, nodes, rows - 1, n, p, nodes[j].index as int, nodes[i]);
    }
}

/// Connecting all of a list of nodes in a directed graph leaves an edge from
/// each entry to every other entry.
pub proof fn lemma_wu_connect_all_joins_all<T>(g: WUGraph<T>, nodes: Seq<NodeIndex>)
    requires
        g.wf(),
        forall|k: int| 0 <= k < nodes.len() ==> g.valid_node(#[trigger] nodes[k]),
    ensures
        forall|i: int, j: int|
            #![trigger nodes[i], nodes[j]]
            0 <= i < nodes.len() && 0 <= j < nodes.len() && i != j
            ==> arc_rows(g.arc_state(), nodes, nodes.len() as int, g.allow_pseudo_graph).0[nodes[i].index as int].contains(nodes[j]),
{
    let st = g.arc_state();
    assert forall|k: int| 0 <= k < nodes.len() implies 0 <= (#[trigger] nodes[k]).index < st.0.len() by {
        assert(g.valid_node(nodes[k]));
    }
    assert forall|i: int, j: int|
        #![trigger nodes[i], nodes[j]]
        0 <= i < nodes.len() && 0 <= j < nodes.len() && i != j
        implies arc_rows(st, nodes, nodes.len() as int, g.allow_pseudo_graph).0[nodes[i].index as int].contains(nodes[j]) by {
        if i < j {
            lemma_arc_rows_has(st, nodes, nodes.len() as int, g.allow_pseudo_graph, i, j);
        } else {
            lemma_arc_rows_has(st, nodes, nodes.len() as int, g.allow_pseudo_graph, j, i);
        }
    }
}

/// A traversal of a graph from one of its nodes meets only nodes of the
/// graph.
pub proof fn lemma_traversal_stays_in_graph<T>(g: Graph<T>, s: NodeIndex, r: Seq<NodeIndex>)
    requires
        g.wf(),
        g.valid_node(s),
        is_traversal(g.adj(), s, r),
    ensures
        forall|k: int| 0 <= k < r.len() ==> g.valid_node(#[trigger] r[k]),
{
    assert forall|k: int| 0 <= k < r.len() implies g.valid_node(#[trigger] r[k]) by {
        lemma_traversal_prefix_valid(g, s, r, k);
    }
}

proof fn lemma_traversal_prefix_valid<T>(g: Graph<T>, s: NodeIndex, r: Seq<NodeIndex>, k: int)
    requires
        g.wf(),
        g.valid_node(s),
        is_traversal(g.adj(), s, r),
        0 <= k < r.len(),
    ensures
        g.valid_node(r[k]),
    decreases k,
{
    if k > 0 {
        assert(reached_from_earlier(g.adj(), r, k));
        let j = choose|j: int| 0 <= j < k && #[trigger] edge(g.adj(), r[j], r[k]);
        lemma_traversal_prefix_valid(g, s, r, j);
        let i = r[j].index as int;
        let q = choose|q: int| 0 <= q < g.adj()[i].len() && g.adj()[i][q] == r[k];
        assert(g.adj()[i][q] == r[k]);
    }
}

/// A traversal of a directed graph from one of its nodes meets only nodes of
/// the graph.
pub proof fn lemma_wu_traversal_stays_in_graph<T>(g: WUGraph<T>, s: NodeIndex, r: Seq<NodeIndex>)
    requires
        g.wf(),
        g.valid_node(s),
        is_traversal(g.out_adj(), s, r),
    ensures
        forall|k: int| 0 <= k < r.len() ==> g.valid_node(#[trigger] r[k]),
{
    assert forall|k: int| 0 <= k < r.len() implies g.valid_node(#[trigger] r[k]) by {
        lemma_wu_traversal_prefix_valid(g, s, r, k);
    }
}

proof fn lemma_wu_traversal_prefix_valid<T>(g: WUGraph<T>, s: NodeIndex, r: Seq<NodeIndex>, k: int)
    requires
        g.wf(),
        g.valid_node(s),
        is_traversal(g.out_adj(), s, r),
        0 <= k < r.len(),
    ensures
        g.valid_node(r[k]),
    decreases k,
{
    if k > 0 {
        assert(reached_from_earlier(g.out_adj(), r, k));
        let j = choose|j: int| 0 <= j < k && #[trigger] edge(g.out_adj(), r[j], r[k]);
        lemma_wu_traversal_prefix_valid(g, s, r, j);
        let i = r[j].index as int;
        let q = choose|q: int| 0 <= q < g.out_adj()[i].len() && g.out_adj()[i][q] == r[k];
        assert(g.out_adj()[i][q] == r[k]);
    }
}

/// Neighbour lists that record undirected simple edges: entries name
/// slots, no list names its own slot or lists a node twice, and every edge
/// is recorded at both ends.
pub open spec fn symmetric_lists(adj: Seq<Seq<NodeIndex>>) -> bool {
    &&& adj.len() <= usize::MAX
    &&& forall|i: int| 0 <= i < adj.len() ==> (#[trigger] adj[i]).no_duplicates()
    &&& forall|i: int, k: int| 0 <= i < adj.len() && 0 <= k < adj[i].len() ==> {
        let j = (#[trigger] adj[i][k]).index as int;
        &&& 0 <= j < adj.len()
        &&& j != i
        &&& adj[j].contains(NodeIndex { index: i as usize })
    }
}

/// Some list is non-empty when the total length is positive.
proof fn lemma_some_list_nonempty(adj: Seq<Seq<NodeIndex>>) -> (i: int)
    requires
        total_len(adj) > 0,
    ensures
        0 <= i < adj.len(),
        adj[i].len() > 0,
    decreases adj.len(),
{
    if adj.last().len() > 0 {
        adj.len() - 1
    } else {
        let i = lemma_some_list_nonempty(adj.drop_last());
        assert(adj.drop_last()[i] == adj[i]);
        i
    }
}

/// Taking out one recorded edge keeps the lists symmetric and shortens them
/// by two entries in all.
proof fn lemma_unlinked_symmetric(adj: Seq<Seq<NodeIndex>>, a: NodeIndex, b: NodeIndex)
    requires
        symmetric_lists(adj),
        0 <= a.index < adj.len(),
        adj[a.index as int].contains(b),
    ensures
        symmetric_lists(unlinked(adj, a, b)),
        total_len(unlinked(adj, a, b)) == total_len(adj) - 2,
{
    let ai = a.index as int;
    let k0 = choose|k0: int| 0 <= k0 < adj[ai].len() && adj[ai][k0] == b;
    assert(adj[ai][k0] == b);
    let bi = b.index as int;
    assert(0 <= bi < adj.len() && bi != ai);
    assert(adj[bi].contains(NodeIndex { index: ai as usize }));
    assert(NodeIndex { index: ai as usize } == a);
    let sa = adj[ai];
    let sb = adj[bi];
    lemma_swap_out(sa, b);
    lemma_swap_out(sb, a);
    let na = swap_out(sa, b);
    let nb = swap_out(sb, a);
    let u = unlinked(adj, a, b);
    let s1 = adj.update(bi, nb);
    lemma_total_len_update(adj, bi, nb);
    lemma_total_len_update(s1, ai, na);
    assert(s1[ai] == sa);
    assert forall|i: int| 0 <= i < u.len() implies (#[trigger] u[i]).no_duplicates() by {
        assert(adj[i].no_duplicates());
    }
    assert forall|i: int, k: int| 0 <= i < u.len() && 0 <= k < u[i].len() implies {
        let j = (#[trigger] u[i][k]).index as int;
        &&& 0 <= j < u.len()
        &&& j != i
        &&& u[j].contains(NodeIndex { index: i as usize })
    } by {
        let y = u[i][k];
        let j = y.index as int;
        let xi = NodeIndex { index: i as usize };
        assert(u[i].contains(y));
        if i == ai {
            assert(sa.contains(y) && y != b);
            let k1 = choose|k1: int| 0 <= k1 < sa.len() && sa[k1] == y;
            assert(adj[i][k1] == y);
            assert(adj[j].contains(xi));
            if j == bi {
                assert(y == b);
            }
        } else if i == bi {
            assert(sb.contains(y) && y != a);
            let k1 = choose|k1: int| 0 <= k1 < sb.len() && sb[k1] == y;
            assert(adj[i][k1] == y);
            assert(adj[j].contains(xi));
            if j == ai {
                assert(y == a);
            }
        } else {
            assert(adj[i][k] == y);
            assert(adj[j].contains(xi));
            if j == ai {
                assert(xi != b);
                assert(na.contains(xi));
            } else if j == bi {
                assert(xi != a);
                assert(nb.contains(xi));
            }
        }
    }
}

/// Symmetric lists have an even total length: each edge is recorded twice.
pub proof fn lemma_symmetric_lists_even(adj: Seq<Seq<NodeIndex>>)
    requires
        symmetric_lists(adj),
    ensures
        total_len(adj) % 2 == 0,
    decreases total_len(adj),
{
    if total_len(adj) > 0 {
        let i = lemma_some_list_nonempty(adj);
        let a = NodeIndex { index: i as usize };
        let b = adj[i][0];
        assert(adj[a.index as int].contains(b));
        lemma_unlinked_symmetric(adj, a, b);
        lemma_symmetric_lists_even(unlinked(adj, a, b));
    }
}

/// The count of edges of a graph is exact: the neighbour lists hold two
/// entries for each edge, so half their total length counts every edge once.
pub proof fn lemma_edge_count_exact<T>(g: Graph<T>)
    requires
        g.wf(),
    ensures
        total_len(g.adj()) % 2 == 0,
        2 * (total_len(g.adj()) / 2) == total_len(g.adj()),
{
    let adj = g.adj();
    assert forall|i: int| 0 <= i < adj.len() implies (#[trigger] adj[i]).no_duplicates() by {
        if !g.live(i) {
            assert(adj[i].len() == 0);
        }
    }
    assert forall|i: int, k: int| 0 <= i < adj.len() && 0 <= k < adj[i].len() implies {
        let j = (#[trigger] adj[i][k]).index as int;
        &&& 0 <= j < adj.len()
        &&& j != i
        &&& adj[j].contains(NodeIndex { index: i as usize })
    } by {
        if !g.live(i) {
            assert(adj[i].len() == 0);
        }
    }
    lemma_symmetric_lists_even(adj);
}

/// Counting after one entry is replaced.
proof fn lemma_count_update(s: Seq<NodeIndex>, p: int, v: NodeIndex, y: NodeIndex)
    requires
        0 <= p < s.len(),
    ensures
        count_of(s.update(p, v), y) + (if s[p] == y { 1int } else { 0int })
            == count_of(s, y) + (if v == y { 1int } else { 0int }),
    decreases s.len(),
{
    let u = s.update(p, v);
    if p == s.len() - 1 {
        assert(u.drop_last() =~= s.drop_last());
    } else {
        assert(u.drop_last() =~= s.drop_last().update(p, v));
        lemma_count_update(s.drop_last(), p, v, y);
    }
}

/// Taking out one occurrence of `x` lowers the count of `x` by one and
/// leaves the other counts.
proof fn lemma_swap_out_count(s: Seq<NodeIndex>, x: NodeIndex, y: NodeIndex)
    requires
        s.contains(x),
    ensures
        count_of(swap_out(s, x), y) == count_of(s, y) - if x == y { 1int } else { 0int },
        swap_out(s, x).len() == s.len() - 1,
        forall|z: NodeIndex| swap_out(s, x).contains(z) ==> s.contains(z),
{
    let p = index_in(s, x);
    let u = s.update(p, s.last());
    lemma_count_update(s, p, s.last(), y);
    assert(u.last() == s.last()) by {
        if p != s.len() - 1 {
            assert(u[u.len() - 1] == s[s.len() - 1]);
        }
    }
    assert forall|z: NodeIndex| swap_out(s, x).contains(z) implies s.contains(z) by {
        let k = choose|k: int| 0 <= k < swap_out(s, x).len() && swap_out(s, x)[k] == z;
        if k == p {
            assert(s[s.len() - 1] == z);
        } else {
            assert(s[k] == z);
        }
    }
}

/// Outgoing and incoming lists that agree: entries name slots, and each edge
/// from `x` to `y` is listed as often at `x` as at `y`.
pub open spec fn balanced_lists(out: Seq<Seq<NodeIndex>>, inn: Seq<Seq<NodeIndex>>) -> bool {
    &&& out.len() == inn.len()
    &&& out.len() <= usize::MAX
    &&& forall|i: int, k: int| 0 <= i < out.len() && 0 <= k < out[i].len() ==> (#[trigger] out[i][k]).index < out.len()
    &&& forall|i: int, k: int| 0 <= i < inn.len() && 0 <= k < inn[i].len() ==> (#[trigger] inn[i][k]).index < inn.len()
    &&& forall|x: NodeIndex, y: NodeIndex| x.index < out.len() && y.index < out.len()
        ==> #[trigger] count_of(out[x.index as int], y) == #[trigger] count_of(inn[y.index as int], x)
}

/// A positive total length has a non-empty list, and the other way round.
proof fn lemma_total_len_zero(adj: Seq<Seq<NodeIndex>>)
    ensures
        (total_len(adj) == 0) == (forall|i: int| 0 <= i < adj.len() ==> (#[trigger] adj[i]).len() == 0),
    decreases adj.len(),
{
    if adj.len() > 0 {
        lemma_total_len_zero(adj.drop_last());
        if total_len(adj) == 0 {
            assert forall|i: int| 0 <= i < adj.len() implies (#[trigger] adj[i]).len() == 0 by {
                if i < adj.len() - 1 {
                    assert(adj.drop_last()[i] == adj[i]);
                }
            }
        } else if forall|i: int| 0 <= i < adj.len() ==> (#[trigger] adj[i]).len() == 0 {
            assert forall|i: int| 0 <= i < adj.drop_last().len() implies (#[trigger] adj.drop_last()[i]).len() == 0 by {
                assert(adj.drop_last()[i] == adj[i]);
            }
            assert(adj[adj.len() - 1].len() == 0);
        }
    }
}

/// Agreeing outgoing and incoming lists hold as many entries in all.
pub proof fn lemma_balanced_lists_same_total(out: Seq<Seq<NodeIndex>>, inn: Seq<Seq<NodeIndex>>)
    requires
        balanced_lists(out, inn),
    ensures
        total_len(out) == total_len(inn),
    decreases total_len(out),
{
    lemma_total_len_zero(out);
    lemma_total_len_zero(inn);
    if total_len(out) == 0 {
        if total_len(inn) > 0 {
            let y = lemma_some_list_nonempty(inn);
            let x = inn[y][0];
            let yn = NodeIndex { index: y as usize };
            assert(x.index < out.len());
            lemma_count_contains(inn[y], x);
            assert(inn[y].contains(x));
            assert(count_of(out[x.index as int], yn) == count_of(inn[yn.index as int], x));
            lemma_count_contains(out[x.index as int], yn);
            assert(out[x.index as int].len() == 0);
        }
    } else {
        let xi = lemma_some_list_nonempty(out);
        let x = NodeIndex { index: xi as usize };
        let y = out[xi][0];
        let yi = y.index as int;
        assert(yi < out.len());
        assert(out[x.index as int].contains(y));
        lemma_count_contains(out[xi], y);
        assert(count_of(out[x.index as int], y) == count_of(inn[y.index as int], x));
        lemma_count_contains(inn[yi], x);
        let out2 = out.update(xi, swap_out(out[xi], y));
        let inn2 = inn.update(yi, swap_out(inn[yi], x));
        lemma_swap_out_count(out[xi], y, y);
        lemma_swap_out_count(inn[yi], x, x);
        lemma_total_len_update(out, xi, swap_out(out[xi], y));
        lemma_total_len_update(inn, yi, swap_out(inn[yi], x));
        assert forall|i: int, k: int| 0 <= i < out2.len() && 0 <= k < out2[i].len() implies (#[trigger] out2[i][k]).index < out2.len() by {
            if i == xi {
                lemma_swap_out_count(out[xi], y, y);
                assert(out2[i].contains(out2[i][k]));
                let k1 = choose|k1: int| 0 <= k1 < out[xi].len() && out[xi][k1] == out2[i][k];
                assert(out[xi][k1].index < out.len());
            } else {
                assert(out2[i][k] == out[i][k]);
            }
        }
        assert forall|i: int, k: int| 0 <= i < inn2.len() && 0 <= k < inn2[i].len() implies (#[trigger] inn2[i][k]).index < inn2.len() by {
            if i == yi {
                lemma_swap_out_count(inn[yi], x, x);
                assert(inn2[i].contains(inn2[i][k]));
                let k1 = choose|k1: int| 0 <= k1 < inn[yi].len() && inn[yi][k1] == inn2[i][k];
                assert(inn[yi][k1].index < inn.len());
            } else {
                assert(inn2[i][k] == inn[i][k]);
            }
        }
        assert forall|a: NodeIndex, b: NodeIndex| a.index < out2.len() && b.index < out2.len()
            implies #[trigger] count_of(out2[a.index as int], b) == #[trigger] count_of(inn2[b.index as int], a) by {
            assert(count_of(out[a.index as int], b) == count_of(inn[b.index as int], a));
            if a.index as int == xi {
                lemma_swap_out_count(out[xi], y, b);
            }
            if b.index as int == yi {
                lemma_swap_out_count(inn[yi], x, a);
            }
        }
        lemma_balanced_lists_same_total(out2, inn2);
    }
}

/// In a directed graph the outgoing lists and the incoming lists hold the
/// same number of entries: the count of edges is the same read from either
/// end of the edges.
pub proof fn lemma_wu_edge_count_both_ends<T>(g: WUGraph<T>)
    requires
        g.wf(),
    ensures
        total_len(g.out_adj()) == total_len(g.in_adj()),
{
    let out = g.out_adj();
    let inn = g.in_adj();
    assert forall|i: int, k: int| 0 <= i < out.len() && 0 <= k < out[i].len() implies (#[trigger] out[i][k]).index < out.len() by {
        assert(g.live(i));
    }
    assert forall|i: int, k: int| 0 <= i < inn.len() && 0 <= k < inn[i].len() implies (#[trigger] inn[i][k]).index < inn.len() by {
        assert(g.live(i));
    }
    assert forall|x: NodeIndex, y: NodeIndex| x.index < out.len() && y.index < out.len()
        implies #[trigger] count_of(out[x.index as int], y) == #[trigger] count_of(inn[y.index as int], x) by {
        if g.valid_node(x) && g.valid_node(y) {
        } else if !g.valid_node(x) {
            assert(out[x.index as int].len() == 0);
            lemma_count_contains(out[x.index as int], y);
            lemma_count_contains(inn[y.index as int], x);
            if inn[y.index as int].contains(x) {
                let k = choose|k: int| 0 <= k < inn[y.index as int].len() && inn[y.index as int][k] == x;
                assert(g.live(y.index as int));
                assert(g.live(inn[y.index as int][k].index as int));
            }
        } else {
            assert(inn[y.index as int].len() == 0);
            lemma_count_contains(out[x.index as int], y);
            lemma_count_contains(inn[y.index as int], x);
            if out[x.index as int].contains(y) {
                let k = choose|k: int| 0 <= k < out[x.index as int].len() && out[x.index as int][k] == y;
                assert(g.live(out[x.index as int][k].index as int));
            }
        }
    }
    lemma_balanced_lists_same_total(out, inn);
}


/// The number of entries of the lists of `adj` that name a higher slot than
/// the slot whose list holds them.
pub open spec fn upper_total(adj: Seq<Seq<NodeIndex>>) -> nat
    decreases adj.len(),
{
    if adj.len() == 0 {
        0
    } else {
        upper_total(adj.drop_last()) + upper_pairs(NodeIndex { index: (adj.len() - 1) as usize }, adj.last()).len()
    }
}

/// The pairs that are edges of `g`, each written once with its lower slot
/// first.
pub open spec fn joined_pairs<T>(g: Graph<T>) -> Set<(NodeIndex, NodeIndex)> {
    Set::new(
        |p: (NodeIndex, NodeIndex)|
            g.valid_node(p.0) && g.valid_node(p.1) && p.0.index < p.1.index && g.has_edge(p.0, p.1),
    )
}

/// What `upper_pairs` holds: pairs from `x` to the higher entries of `s`,
/// each once when `s` has no repetitions.
proof fn lemma_upper_pairs_items(x: NodeIndex, s: Seq<NodeIndex>)
    ensures
        upper_pairs(x, s).len() <= s.len(),
        forall|k: int| 0 <= k < upper_pairs(x, s).len() ==> {
            let p = #[trigger] upper_pairs(x, s)[k];
            &&& p.0 == x
            &&& s.contains(p.1)
            &&& x.index < p.1.index
        },
        forall|y: NodeIndex| s.contains(y) && x.index < y.index ==> #[trigger] upper_pairs(x, s).contains((x, y)),
        s.no_duplicates() ==> upper_pairs(x, s).no_duplicates(),
    decreases s.len(),
{
    if s.len() > 0 {
        let t = s.drop_last();
        lemma_upper_pairs_items(x, t);
        let u = upper_pairs(x, t);
        assert forall|k: int| 0 <= k < upper_pairs(x, s).len() implies {
            let p = #[trigger] upper_pairs(x, s)[k];
            &&& p.0 == x
            &&& s.contains(p.1)
            &&& x.index < p.1.index
        } by {
            if k < u.len() {
                assert(upper_pairs(x, s)[k] == u[k]);
                let q = choose|q: int| 0 <= q < t.len() && t[q] == u[k].1;
                assert(s[q] == t[q]);
            } else {
                assert(s[s.len() - 1] == s.last());
            }
        }
        assert forall|y: NodeIndex| s.contains(y) && x.index < y.index implies #[trigger] upper_pairs(x, s).contains((x, y)) by {
            let q = choose|q: int| 0 <= q < s.len() && s[q] == y;
            if q < s.len() - 1 {
                assert(t[q] == y);
                assert(t.contains(y));
                assert(u.contains((x, y)));
                let j = choose|j: int| 0 <= j < u.len() && u[j] == (x, y);
                if x.index < s.last().index {
                    assert(upper_pairs(x, s) == u.push((x, s.last())));
                } else {
                    assert(upper_pairs(x, s) == u);
                }
                assert(upper_pairs(x, s)[j] == (x, y));
            } else {
                assert(upper_pairs(x, s) == u.push((x, y)));
                assert(upper_pairs(x, s)[u.len() as int] == (x, y));
            }
        }
        if s.no_duplicates() {
            assert(t.no_duplicates());
            if x.index < s.last().index {
                assert(!t.contains(s.last()));
                assert forall|i: int, j: int| 0 <= i < j < upper_pairs(x, s).len()
                    implies upper_pairs(x, s)[i] != upper_pairs(x, s)[j] by {
                    if j == u.len() {
                        assert(upper_pairs(x, s)[i] == u[i]);
                        assert(t.contains(u[i].1));
                    } else {
                        assert(upper_pairs(x, s)[i] == u[i]);
                        assert(upper_pairs(x, s)[j] == u[j]);
                    }
                }
            }
        }
    }
}

/// Replacing one entry of a list changes its count of higher entries by the
/// difference the two entries make.
proof fn lemma_upper_pairs_update(x: NodeIndex, s: Seq<NodeIndex>, p: int, v: NodeIndex)
    requires
        0 <= p < s.len(),
    ensures
        upper_pairs(x, s.update(p, v)).len() + (if x.index < s[p].index { 1int } else { 0int })
            == upper_pairs(x, s).len() + (if x.index < v.index { 1int } else { 0int }),
    decreases s.len(),
{
    let u = s.update(p, v);
    if p == s.len() - 1 {
        assert(u.drop_last() =~= s.drop_last());
    } else {
        assert(u.drop_last() =~= s.drop_last().update(p, v));
        lemma_upper_pairs_update(x, s.drop_last(), p, v);
    }
}

/// Taking `y` out of a list lowers its count of higher entries by one when
/// `y` is higher than `x`.
proof fn lemma_upper_pairs_swap_out(x: NodeIndex, s: Seq<NodeIndex>, y: NodeIndex)
    requires
        s.contains(y),
    ensures
        upper_pairs(x, swap_out(s, y)).len() == upper_pairs(x, s).len() - (if x.index < y.index { 1int } else { 0int }),
{
    let p = index_in(s, y);
    let u = s.update(p, s.last());
    lemma_upper_pairs_update(x, s, p, s.last());
    assert(u.last() == s.last()) by {
        if p != s.len() - 1 {
            assert(u[u.len() - 1] == s[s.len() - 1]);
        }
    }
    assert(swap_out(s, y) == u.drop_last());
}

/// Replacing one list changes the count of higher entries by the counts of
/// the old and the new list.
proof fn lemma_upper_total_update(adj: Seq<Seq<NodeIndex>>, i: int, s: Seq<NodeIndex>)
    requires
        0 <= i < adj.len(),
    ensures
        upper_total(adj.update(i, s)) == upper_total(adj)
            - upper_pairs(NodeIndex { index: i as usize }, adj[i]).len()
            + upper_pairs(NodeIndex { index: i as usize }, s).len(),
    decreases adj.len(),
{
    let u = adj.update(i, s);
    if i == adj.len() - 1 {
        assert(u.drop_last() =~= adj.drop_last());
    } else {
        assert(u.drop_last() =~= adj.drop_last().update(i, s));
        lemma_upper_total_update(adj.drop_last(), i, s);
    }
}

/// Lists with no entries hold no higher entries.
proof fn lemma_upper_total_le(adj: Seq<Seq<NodeIndex>>)
    ensures
        upper_total(adj) <= total_len(adj),
    decreases adj.len(),
{
    if adj.len() > 0 {
        lemma_upper_total_le(adj.drop_last());
        lemma_upper_pairs_items(NodeIndex { index: (adj.len() - 1) as usize }, adj.last());
    }
}

/// In symmetric lists each edge is recorded once at its lower end and once
/// at its higher end, so the higher entries are half of all entries.
proof fn lemma_symmetric_upper_half(adj: Seq<Seq<NodeIndex>>)
    requires
        symmetric_lists(adj),
    ensures
        2 * upper_total(adj) == total_len(adj),
    decreases total_len(adj),
{
    if total_len(adj) == 0 {
        lemma_upper_total_le(adj);
    } else {
        let i = lemma_some_list_nonempty(adj);
        let a = NodeIndex { index: i as usize };
        let b = adj[i][0];
        assert(adj[a.index as int].contains(b));
        lemma_unlinked_symmetric(adj, a, b);
        lemma_symmetric_upper_half(unlinked(adj, a, b));
        let ai = a.index as int;
        let bi = b.index as int;
        assert(0 <= bi < adj.len() && bi != ai);
        assert(adj[bi].contains(NodeIndex { index: ai as usize }));
        assert(NodeIndex { index: bi as usize } == b);
        let s1 = adj.update(bi, swap_out(adj[bi], a));
        lemma_upper_total_update(adj, bi, swap_out(adj[bi], a));
        lemma_upper_pairs_swap_out(b, adj[bi], a);
        assert(s1[ai] == adj[ai]);
        lemma_upper_total_update(s1, ai, swap_out(adj[ai], b));
        lemma_upper_pairs_swap_out(a, adj[ai], b);
    }
}

/// The neighbour lists of a well-formed graph are symmetric.
proof fn lemma_wf_symmetric<T>(g: Graph<T>)
    requires
        g.wf(),
    ensures
        symmetric_lists(g.adj()),
{
    let adj = g.adj();
    assert forall|i: int| 0 <= i < adj.len() implies (#[trigger] adj[i]).no_duplicates() by {
        if !g.live(i) {
            assert(adj[i].len() == 0);
        }
    }
    assert forall|i: int, k: int| 0 <= i < adj.len() && 0 <= k < adj[i].len() implies {
        let j = (#[trigger] adj[i][k]).index as int;
        &&& 0 <= j < adj.len()
        &&& j != i
        &&& adj[j].contains(NodeIndex { index: i as usize })
    } by {
        if !g.live(i) {
            assert(adj[i].len() == 0);
        }
    }
}

/// What the edges of the slots below `n` hold: each edge of a node below `n`
/// to a higher node, once, and nothing else.
proof fn lemma_edges_upto_items<T>(g: Graph<T>, n: int)
    requires
        g.wf(),
        0 <= n <= g.values.len(),
    ensures
        g.edges_upto(n).len() == upper_total(g.adj().subrange(0, n)),
        g.edges_upto(n).no_duplicates(),
        forall|k: int| 0 <= k < g.edges_upto(n).len() ==> {
            let p = #[trigger] g.edges_upto(n)[k];
            &&& p.0.index < n
            &&& g.live(p.0.index as int)
            &&& g.has_edge(p.0, p.1)
            &&& p.0.index < p.1.index
        },
        forall|a: NodeIndex, b: NodeIndex| a.index < n && g.live(a.index as int) && g.has_edge(a, b) && a.index < b.index
            ==> #[trigger] g.edges_upto(n).contains((a, b)),
    decreases n,
{
    if n > 0 {
        lemma_edges_upto_items(g, n - 1);
        let prev = g.edges_upto(n - 1);
        let x = NodeIndex { index: (n - 1) as usize };
        let s = g.adj()[n - 1];
        let sub = g.adj().subrange(0, n);
        assert(sub.drop_last() =~= g.adj().subrange(0, n - 1));
        assert(sub.last() == s);
        lemma_upper_pairs_items(x, s);
        if g.live(n - 1) {
            let u = upper_pairs(x, s);
            let e = g.edges_upto(n);
            assert(e == prev + u);
            assert forall|k: int| 0 <= k < e.len() implies {
                let p = #[trigger] e[k];
                &&& p.0.index < n
                &&& g.live(p.0.index as int)
                &&& g.has_edge(p.0, p.1)
                &&& p.0.index < p.1.index
            } by {
                if k < prev.len() {
                    assert(e[k] == prev[k]);
                } else {
                    assert(e[k] == u[k - prev.len()]);
                }
            }
            assert forall|a: NodeIndex, b: NodeIndex| a.index < n && g.live(a.index as int) && g.has_edge(a, b) && a.index < b.index
                implies #[trigger] e.contains((a, b)) by {
                if a.index < n - 1 {
                    assert(prev.contains((a, b)));
                    let j = choose|j: int| 0 <= j < prev.len() && prev[j] == (a, b);
                    assert(e[j] == (a, b));
                } else {
                    assert(a == x);
                    assert(u.contains((a, b)));
                    let j = choose|j: int| 0 <= j < u.len() && u[j] == (a, b);
                    assert(e[prev.len() + j] == (a, b));
                }
            }
            assert forall|i: int, j: int| 0 <= i < j < e.len() implies e[i] != e[j] by {
                if j < prev.len() {
                    assert(e[i] == prev[i] && e[j] == prev[j]);
                } else if i >= prev.len() {
                    assert(e[i] == u[i - prev.len()] && e[j] == u[j - prev.len()]);
                } else {
                    assert(e[i] == prev[i] && e[j] == u[j - prev.len()]);
                    assert(prev[i].0.index < n - 1);
                }
            }
        } else {
            assert(s.len() == 0);
            assert(upper_pairs(x, s).len() == 0);
        }
    } else {
        assert(g.adj().subrange(0, n).len() == 0);
    }
}

/// The list of edges of a graph holds each edge once, with its lower slot
/// first, and nothing else; it has half as many entries as the neighbour
/// lists have in all.
pub proof fn lemma_iter_edges_lists_each_edge_once<T>(g: Graph<T>)
    requires
        g.wf(),
    ensures
        g.edges_upto(g.values.len() as int).no_duplicates(),
        forall|a: NodeIndex, b: NodeIndex| #[trigger] g.edges_upto(g.values.len() as int).contains((a, b))
            <==> (g.valid_node(a) && g.valid_node(b) && a.index < b.index && g.has_edge(a, b)),
        2 * g.edges_upto(g.values.len() as int).len() == total_len(g.adj()),
{
    let n = g.values.len() as int;
    lemma_edges_upto_items(g, n);
    lemma_wf_symmetric(g);
    lemma_symmetric_upper_half(g.adj());
    assert(g.adj().subrange(0, n) =~= g.adj());
    let e = g.edges_upto(n);
    assert forall|a: NodeIndex, b: NodeIndex| #[trigger] e.contains((a, b))
        <==> (g.valid_node(a) && g.valid_node(b) && a.index < b.index && g.has_edge(a, b)) by {
        if e.contains((a, b)) {
            let k = choose|k: int| 0 <= k < e.len() && e[k] == (a, b);
            assert(e[k] == (a, b));
            let q = choose|q: int| 0 <= q < g.adj()[a.index as int].len() && g.adj()[a.index as int][q] == b;
            assert(g.adj()[a.index as int][q] == b);
        }
    }
}

/// The count of edges of a graph is the number of pairs of nodes that are
/// joined, and the number of entries of its list of edges.
pub proof fn lemma_edge_count_counts_joined_pairs<T>(g: Graph<T>)
    requires
        g.wf(),
    ensures
        g.edges_upto(g.values.len() as int).to_set() == joined_pairs(g),
        joined_pairs(g).len() == g.edges_upto(g.values.len() as int).len(),
        joined_pairs(g).len() == total_len(g.adj()) / 2,
{
    let e = g.edges_upto(g.values.len() as int);
    lemma_iter_edges_lists_each_edge_once(g);
    assert(e.to_set() =~= joined_pairs(g)) by {
        assert forall|p: (NodeIndex, NodeIndex)| e.to_set().contains(p) <==> joined_pairs(g).contains(p) by {
            assert(e.contains((p.0, p.1)) == e.contains(p));
        }
    }
    e.unique_seq_to_set();
}

/// The list of edges of a directed graph holds one entry for each entry of
/// the outgoing lists: each edge, each parallel edge and each loop once, as
/// many as the count of edges and as the entries of the incoming lists.
pub proof fn lemma_wu_iter_edges_counts_arcs<T>(g: WUGraph<T>)
    requires
        g.wf(),
    ensures
        g.arcs_upto(g.nodes.len() as int).len() == total_len(g.out_adj()),
        g.arcs_upto(g.nodes.len() as int).len() == total_len(g.in_adj()),
{
    lemma_wu_arcs_upto_len(g, g.nodes.len() as int);
    assert(g.out_adj().subrange(0, g.nodes.len() as int) =~= g.out_adj());
    lemma_wu_edge_count_both_ends(g);
}

/// The arcs of the slots below `n` are as many as the entries of their
/// outgoing lists.
proof fn lemma_wu_arcs_upto_len<T>(g: WUGraph<T>, n: int)
    requires
        0 <= n <= g.nodes.len(),
    ensures
        g.arcs_upto(n).len() == total_len(g.out_adj().subrange(0, n)),
    decreases n,
{
    if n > 0 {
        lemma_wu_arcs_upto_len(g, n - 1);
        let sub = g.out_adj().subrange(0, n);
        assert(sub.drop_last() =~= g.out_adj().subrange(0, n - 1));
        assert(sub.last() == g.out_adj()[n - 1]);
    } else {
        assert(g.out_adj().subrange(0, n).len() == 0);
    }
}


/// Every entry of the lists of `adj1` is an entry of the same list of
/// `adj0`, or joins two nodes listed in `nodes`; no entry of `adj0` is lost.
pub open spec fn only_adds_between(adj0: Seq<Seq<NodeIndex>>, adj1: Seq<Seq<NodeIndex>>, nodes: Seq<NodeIndex>) -> bool {
    &&& adj1.len() == adj0.len()
    &&& forall|i: int, y: NodeIndex| 0 <= i < adj0.len() && #[trigger] adj0[i].contains(y) ==> adj1[i].contains(y)
    &&& forall|i: int, y: NodeIndex| 0 <= i < adj0.len() && #[trigger] adj1[i].contains(y)
        ==> adj0[i].contains(y) || (nodes.contains(NodeIndex { index: i as usize }) && nodes.contains(y))
}

/// Recording one entry at each end of a pair of listed nodes only adds.
proof fn lemma_pushed_only_adds(adj: Seq<Seq<NodeIndex>>, a: NodeIndex, b: NodeIndex, nodes: Seq<NodeIndex>)
    requires
        a.index < adj.len(),
        nodes.contains(a),
        nodes.contains(b),
    ensures
        only_adds_between(adj, adj.update(a.index as int, adj[a.index as int].push(b)), nodes),
{
    let u = adj.update(a.index as int, adj[a.index as int].push(b));
    assert forall|i: int, y: NodeIndex| 0 <= i < adj.len() && #[trigger] adj[i].contains(y) implies u[i].contains(y) by {
        let k = choose|k: int| 0 <= k < adj[i].len() && adj[i][k] == y;
        if i == a.index {
            assert(u[i][k] == y);
        }
    }
    assert forall|i: int, y: NodeIndex| 0 <= i < adj.len() && #[trigger] u[i].contains(y)
        implies adj[i].contains(y) || (nodes.contains(NodeIndex { index: i as usize }) && nodes.contains(y)) by {
        if i == a.index {
            let k = choose|k: int| 0 <= k < u[i].len() && u[i][k] == y;
            if k < adj[i].len() {
                assert(adj[i][k] == y);
            } else {
                assert(NodeIndex { index: i as usize } == a);
            }
        }
    }
}

/// Only adding, twice over, only adds.
proof fn lemma_only_adds_trans(a0: Seq<Seq<NodeIndex>>, a1: Seq<Seq<NodeIndex>>, a2: Seq<Seq<NodeIndex>>, nodes: Seq<NodeIndex>)
    requires
        only_adds_between(a0, a1, nodes),
        only_adds_between(a1, a2, nodes),
    ensures
        only_adds_between(a0, a2, nodes),
{
    assert forall|i: int, y: NodeIndex| 0 <= i < a0.len() && #[trigger] a0[i].contains(y) implies a2[i].contains(y) by {
        assert(a1[i].contains(y));
    }
    assert forall|i: int, y: NodeIndex| 0 <= i < a0.len() && #[trigger] a2[i].contains(y)
        implies a0[i].contains(y) || (nodes.contains(NodeIndex { index: i as usize }) && nodes.contains(y)) by {
        if !(nodes.contains(NodeIndex { index: i as usize }) && nodes.contains(y)) {
            assert(a1[i].contains(y));
        }
    }
}

/// Joining two listed nodes only adds.
proof fn lemma_linked_only_adds(adj: Seq<Seq<NodeIndex>>, a: NodeIndex, b: NodeIndex, nodes: Seq<NodeIndex>)
    requires
        a.index < adj.len(),
        b.index < adj.len(),
        nodes.contains(a),
        nodes.contains(b),
    ensures
        only_adds_between(adj, linked(adj, a, b), nodes),
{
    if !adj[a.index as int].contains(b) {
        let s1 = adj.update(a.index as int, adj[a.index as int].push(b));
        lemma_pushed_only_adds(adj, a, b, nodes);
        lemma_pushed_only_adds(s1, b, a, nodes);
        lemma_only_adds_trans(adj, s1, linked(adj, a, b), nodes);
    }
}

/// Joining `nodes[i]` to later listed nodes only adds.
proof fn lemma_link_row_only_adds(adj: Seq<Seq<NodeIndex>>, nodes: Seq<NodeIndex>, i: int, j: int)
    requires
        0 <= i,
        j <= nodes.len(),
        forall|k: int| 0 <= k < nodes.len() ==> (#[trigger] nodes[k]).index < adj.len(),
    ensures
        only_adds_between(adj, link_row(adj, nodes, i, j), nodes),
    decreases j - i,
{
    if j > i + 1 {
        lemma_link_row_only_adds(adj, nodes, i, j - 1);
        let prev = link_row(adj, nodes, i, j - 1);
        assert(nodes[i].index < adj.len() && nodes[j - 1].index < adj.len());
        assert(nodes.contains(nodes[i]) && nodes.contains(nodes[j - 1]));
        lemma_linked_only_adds(prev, nodes[i], nodes[j - 1], nodes);
        lemma_only_adds_trans(adj, prev, link_row(adj, nodes, i, j), nodes);
    }
}

/// Joining rows of listed nodes only adds.
proof fn lemma_link_rows_only_adds(adj: Seq<Seq<NodeIndex>>, nodes: Seq<NodeIndex>, rows: int)
    requires
        rows <= nodes.len(),
        forall|k: int| 0 <= k < nodes.len() ==> (#[trigger] nodes[k]).index < adj.len(),
    ensures
        only_adds_between(adj, link_rows(adj, nodes, rows), nodes),
    decreases rows,
{
    if rows > 0 {
        lemma_link_rows_only_adds(adj, nodes, rows - 1);
        let prev = link_rows(adj, nodes, rows - 1);
        lemma_link_row_only_adds(prev, nodes, rows - 1, nodes.len() as int);
        lemma_only_adds_trans(adj, prev, link_rows(adj, nodes, rows), nodes);
    }
}

/// Joining listed nodes around a cycle only adds.
proof fn lemma_link_cycle_only_adds(adj: Seq<Seq<NodeIndex>>, nodes: Seq<NodeIndex>, steps: int)
    requires
        steps <= nodes.len(),
        forall|k: int| 0 <= k < nodes.len() ==> (#[trigger] nodes[k]).index < adj.len(),
    ensures
        only_adds_between(adj, link_cycle(adj, nodes, steps), nodes),
    decreases steps,
{
    if steps > 0 {
        lemma_link_cycle_only_adds(adj, nodes, steps - 1);
        let prev = link_cycle(adj, nodes, steps - 1);
        let n = nodes.len() as int;
        let k2 = steps % n;
        assert(0 <= k2 < n);
        assert(nodes[steps - 1].index < adj.len() && nodes[k2].index < adj.len());
        assert(nodes.contains(nodes[steps - 1]) && nodes.contains(nodes[k2]));
        lemma_linked_only_adds(prev, nodes[steps - 1], nodes[k2], nodes);
        lemma_only_adds_trans(adj, prev, link_cycle(adj, nodes, steps), nodes);
    }
}

/// `connect_all` never takes an edge away, and the only edges it adds join
/// two of the listed nodes: this holds of the lists it leaves on success
/// (`rows` the number of nodes) and of those it leaves when it stops at a
/// repeated node (`rows` rows done, then `nodes[rows]` joined up to `j`).
pub proof fn lemma_connect_all_only_adds<T>(g: Graph<T>, nodes: Seq<NodeIndex>, rows: int, j: int)
    requires
        g.wf(),
        forall|k: int| 0 <= k < nodes.len() ==> g.valid_node(#[trigger] nodes[k]),
        0 <= rows <= nodes.len(),
    ensures
        only_adds_between(g.adj(), link_rows(g.adj(), nodes, rows), nodes),
        rows < j <= nodes.len() ==> only_adds_between(g.adj(), link_row(link_rows(g.adj(), nodes, rows), nodes, rows, j), nodes),
{
    assert forall|k: int| 0 <= k < nodes.len() implies (#[trigger] nodes[k]).index < g.adj().len() by {
        assert(g.valid_node(nodes[k]));
    }
    lemma_link_rows_only_adds(g.adj(), nodes, rows);
    if rows < j <= nodes.len() {
        let prev = link_rows(g.adj(), nodes, rows);
        lemma_link_row_only_adds(prev, nodes, rows, j);
        lemma_only_adds_trans(g.adj(), prev, link_row(prev, nodes, rows, j), nodes);
    }
}

/// `loop_node` never takes an edge away, and the only edges it adds join
/// two of the listed nodes, after any number of its steps.
pub proof fn lemma_loop_node_only_adds<T>(g: Graph<T>, nodes: Seq<NodeIndex>, steps: int)
    requires
        g.wf(),
        forall|k: int| 0 <= k < nodes.len() ==> g.valid_node(#[trigger] nodes[k]),
        0 <= steps <= nodes.len(),
    ensures
        only_adds_between(g.adj(), link_cycle(g.adj(), nodes, steps), nodes),
{
    assert forall|k: int| 0 <= k < nodes.len() implies (#[trigger] nodes[k]).index < g.adj().len() by {
        assert(g.valid_node(nodes[k]));
    }
    lemma_link_cycle_only_adds(g.adj(), nodes, steps);
}

/// Adding a directed edge between listed nodes only adds, at both ends.
proof fn lemma_arc_added_only_adds(st: (Seq<Seq<NodeIndex>>, Seq<Seq<NodeIndex>>), a: NodeIndex, b: NodeIndex, p: bool, nodes: Seq<NodeIndex>)
    requires
        a.index < st.0.len(),
        b.index < st.1.len(),
        nodes.contains(a),
        nodes.contains(b),
    ensures
        only_adds_between(st.0, arc_added(st.0, st.1, a, b, p).0, nodes),
        only_adds_between(st.1, arc_added(st.0, st.1, a, b, p).1, nodes),
{
    lemma_pushed_only_adds(st.0, a, b, nodes);
    lemma_pushed_only_adds(st.1, b, a, nodes);
}

/// Joining `nodes[i]` both ways to later listed nodes only adds.
proof fn lemma_arc_row_only_adds(st: (Seq<Seq<NodeIndex>>, Seq<Seq<NodeIndex>>), nodes: Seq<NodeIndex>, i: int, j: int, p: bool)
    requires
        0 <= i,
        j <= nodes.len(),
        st.0.len() == st.1.len(),
        forall|k: int| 0 <= k < nodes.len() ==> (#[trigger] nodes[k]).index < st.0.len(),
    ensures
        only_adds_between(st.0, arc_row(st, nodes, i, j, p).0, nodes),
        only_adds_between(st.1, arc_row(st, nodes, i, j, p).1, nodes),
    decreases j - i,
{
    if j > i + 1 {
        lemma_arc_row_only_adds(st, nodes, i, j - 1, p);
        let prev = arc_row(st, nodes, i, j - 1, p);
        let a = nodes[i];
        let b = nodes[j - 1];
        assert(nodes.contains(a) && nodes.contains(b));
        lemma_arc_added_only_adds(prev, a, b, p, nodes);
        let s1 = arc_added(prev.0, prev.1, a, b, p);
        lemma_arc_added_only_adds(s1, b, a, p, nodes);
        lemma_only_adds_trans(st.0, prev.0, s1.0, nodes);
        lemma_only_adds_trans(st.1, prev.1, s1.1, nodes);
        lemma_only_adds_trans(st.0, s1.0, arc_row(st, nodes, i, j, p).0, nodes);
        lemma_only_adds_trans(st.1, s1.1, arc_row(st, nodes, i, j, p).1, nodes);
    }
}

/// Joining rows of listed nodes both ways only adds.
proof fn lemma_arc_rows_only_adds(st: (Seq<Seq<NodeIndex>>, Seq<Seq<NodeIndex>>), nodes: Seq<NodeIndex>, rows: int, p: bool)
    requires
        rows <= nodes.len(),
        st.0.len() == st.1.len(),
        forall|k: int| 0 <= k < nodes.len() ==> (#[trigger] nodes[k]).index < st.0.len(),
    ensures
        only_adds_between(st.0, arc_rows(st, nodes, rows, p).0, nodes),
        only_adds_between(st.1, arc_rows(st, nodes, rows, p).1, nodes),
    decreases rows,
{
    if rows > 0 {
        lemma_arc_rows_only_adds(st, nodes, rows - 1, p);
        let prev = arc_rows(st, nodes, rows - 1, p);
        lemma_arc_row_only_adds(prev, nodes, rows - 1, nodes.len() as int, p);
        lemma_only_adds_trans(st.0, prev.0, arc_rows(st, nodes, rows, p).0, nodes);
        lemma_only_adds_trans(st.1, prev.1, arc_rows(st, nodes, rows, p).1, nodes);
    }
}

/// In a directed graph `connect_all` never takes an edge away, and the only
/// edges it adds, at either end, join two of the listed nodes: on success
/// (`rows` the number of nodes) and when it stops at a repeated node.
pub proof fn lemma_wu_connect_all_only_adds<T>(g: WUGraph<T>, nodes: Seq<NodeIndex>, rows: int, j: int)
    requires
        g.wf(),
        forall|k: int| 0 <= k < nodes.len() ==> g.valid_node(#[trigger] nodes[k]),
        0 <= rows <= nodes.len(),
    ensures
        only_adds_between(g.out_adj(), arc_rows(g.arc_state(), nodes, rows, g.allow_pseudo_graph).0, nodes),
        only_adds_between(g.in_adj(), arc_rows(g.arc_state(), nodes, rows, g.allow_pseudo_graph).1, nodes),
        rows < j <= nodes.len() ==> only_adds_between(g.out_adj(),
            arc_row(arc_rows(g.arc_state(), nodes, rows, g.allow_pseudo_graph), nodes, rows, j, g.allow_pseudo_graph).0, nodes),
        rows < j <= nodes.len() ==> only_adds_between(g.in_adj(),
            arc_row(arc_rows(g.arc_state(), nodes, rows, g.allow_pseudo_graph), nodes, rows, j, g.allow_pseudo_graph).1, nodes),
{
    let st = g.arc_state();
    let p = g.allow_pseudo_graph;
    assert forall|k: int| 0 <= k < nodes.len() implies (#[trigger] nodes[k]).index < st.0.len() by {
        assert(g.valid_node(nodes[k]));
    }
    lemma_arc_rows_only_adds(st, nodes, rows, p);
    if rows < j <= nodes.len() {
        let prev = arc_rows(st, nodes, rows, p);
        lemma_arc_row_only_adds(prev, nodes, rows, j, p);
        lemma_only_adds_trans(st.0, prev.0, arc_row(prev, nodes, rows, j, p).0, nodes);
        lemma_only_adds_trans(st.1, prev.1, arc_row(prev, nodes, rows, j, p).1, nodes);
    }
}


/// Deleting `x` from a directed graph keeps every edge that does not touch
/// `x`, as often as it was there, at both its ends; the lists keep their
/// number.
pub proof fn lemma_wu_delete_keeps_other_edges<T>(g: WUGraph<T>, x: NodeIndex)
    requires
        g.wf(),
        g.valid_node(x),
    ensures
        detached_arcs(g.out_adj(), x).len() == g.out_adj().len(),
        detached_arcs(g.in_adj(), x).len() == g.in_adj().len(),
        forall|a: NodeIndex, b: NodeIndex| g.valid_node(a) && g.valid_node(b) && a != x && b != x
            ==> #[trigger] count_of(detached_arcs(g.out_adj(), x)[a.index as int], b) == g.arcs(a, b),
        forall|a: NodeIndex, b: NodeIndex| g.valid_node(a) && g.valid_node(b) && a != x && b != x
            ==> #[trigger] count_of(detached_arcs(g.in_adj(), x)[b.index as int], a) == count_of(g.in_adj()[b.index as int], a),
{
    assert forall|a: NodeIndex, b: NodeIndex| g.valid_node(a) && g.valid_node(b) && a != x && b != x
        implies #[trigger] count_of(detached_arcs(g.out_adj(), x)[a.index as int], b) == g.arcs(a, b) by {
        assert(a.index != x.index);
        lemma_without_count(g.out_adj()[a.index as int], x, b);
    }
    assert forall|a: NodeIndex, b: NodeIndex| g.valid_node(a) && g.valid_node(b) && a != x && b != x
        implies #[trigger] count_of(detached_arcs(g.in_adj(), x)[b.index as int], a) == count_of(g.in_adj()[b.index as int], a) by {
        assert(b.index != x.index);
        lemma_without_count(g.in_adj()[b.index as int], x, a);
    }
}

/// Deleting `x` from a graph keeps every edge that does not touch `x`, and
/// empties the list of `x`.
pub proof fn lemma_delete_keeps_other_edges<T>(g: Graph<T>, x: NodeIndex)
    requires
        g.wf(),
        g.valid_node(x),
    ensures
        detached(g.adj(), x).len() == g.adj().len(),
        detached(g.adj(), x)[x.index as int].len() == 0,
        forall|i: int, y: NodeIndex| 0 <= i < g.adj().len() && i != x.index && y != x
            ==> (#[trigger] detached(g.adj(), x)[i].contains(y) <==> g.adj()[i].contains(y)),
{
    let adj = g.adj();
    assert forall|i: int, y: NodeIndex| 0 <= i < adj.len() && i != x.index && y != x
        implies (#[trigger] detached(adj, x)[i].contains(y) <==> adj[i].contains(y)) by {
        let xi = NodeIndex { index: i as usize };
        if adj[x.index as int].contains(xi) {
            let k = choose|k: int| 0 <= k < adj[x.index as int].len() && adj[x.index as int][k] == xi;
            assert(adj[x.index as int][k] == xi);
            assert(g.live(i));
            lemma_swap_out(adj[i], x);
        } else if adj[i].contains(x) {
            let k = choose|k: int| 0 <= k < adj[i].len() && adj[i][k] == x;
            if !g.live(i) {
                assert(adj[i].len() == 0);
            }
            assert(adj[i][k] == x);
            assert(adj[x.index as int].contains(xi));
        }
    }
}

/// The number of entries of `s` equal to `p`.
pub open spec fn pair_count(s: Seq<(NodeIndex, NodeIndex)>, p: (NodeIndex, NodeIndex)) -> nat
    decreases s.len(),
{
    if s.len() == 0 {
        0
    } else if s.last() == p {
        pair_count(s.drop_last(), p) + 1
    } else {
        pair_count(s.drop_last(), p)
    }
}

/// Counting over two lists one after the other.
proof fn lemma_pair_count_concat(a: Seq<(NodeIndex, NodeIndex)>, b: Seq<(NodeIndex, NodeIndex)>, p: (NodeIndex, NodeIndex))
    ensures
        pair_count(a + b, p) == pair_count(a, p) + pair_count(b, p),
    decreases b.len(),
{
    if b.len() > 0 {
        assert((a + b).drop_last() =~= a + b.drop_last());
        assert((a + b).last() == b.last());
        lemma_pair_count_concat(a, b.drop_last(), p);
    }
}

/// The pairs from `x` to the entries of `s` hold `(x, y)` as often as `s`
/// holds `y`, and no pair from another node.
proof fn lemma_pair_count_pairs_from(x: NodeIndex, s: Seq<NodeIndex>, p: (NodeIndex, NodeIndex))
    ensures
        pair_count(pairs_from(x, s), p) == if p.0 == x { count_of(s, p.1) } else { 0 },
    decreases s.len(),
{
    if s.len() > 0 {
        assert(pairs_from(x, s).drop_last() =~= pairs_from(x, s.drop_last()));
        assert(pairs_from(x, s).last() == (x, s.last()));
        lemma_pair_count_pairs_from(x, s.drop_last(), p);
    }
}

/// The arcs of the slots below `n` hold `(a, b)` as often as there are edges
/// from `a` to `b`, for `a` below `n`.
proof fn lemma_wu_arcs_upto_count<T>(g: WUGraph<T>, n: int, a: NodeIndex, b: NodeIndex)
    requires
        0 <= n <= g.nodes.len(),
    ensures
        pair_count(g.arcs_upto(n), (a, b)) == if a.index < n { count_of(g.out_adj()[a.index as int], b) } else { 0 },
    decreases n,
{
    if n > 0 {
        lemma_wu_arcs_upto_count(g, n - 1, a, b);
        let x = NodeIndex { index: (n - 1) as usize };
        if g.live(n - 1) {
            lemma_pair_count_concat(g.arcs_upto(n - 1), pairs_from(x, g.out_adj()[n - 1]), (a, b));
            lemma_pair_count_pairs_from(x, g.out_adj()[n - 1], (a, b));
        } else if a.index == n - 1 {
            assert(g.out_adj()[n - 1].len() == 0);
        }
    }
}

/// The list of edges of a directed graph holds each edge from `a` to `b` as
/// often as there are edges from `a` to `b`, parallel edges and loops
/// included, and nothing that is not an edge.
pub proof fn lemma_wu_iter_edges_holds_each_arc<T>(g: WUGraph<T>, a: NodeIndex, b: NodeIndex)
    requires
        g.wf(),
    ensures
        g.valid_node(a) ==> pair_count(g.arcs_upto(g.nodes.len() as int), (a, b)) == g.arcs(a, b),
        pair_count(g.arcs_upto(g.nodes.len() as int), (a, b)) > 0 ==> g.valid_node(a) && g.out_adj()[a.index as int].contains(b),
{
    lemma_wu_arcs_upto_count(g, g.nodes.len() as int, a, b);
    if a.index < g.nodes.len() {
        lemma_count_contains(g.out_adj()[a.index as int], b);
    }
}

/// `find` in a directed graph gives the node in the lowest slot whose value
/// equals `value`, and `None` only when no node holds such a value.
pub proof fn lemma_wu_find_first_match<T: PartialEq>(g: WUGraph<T>, value: &T)
    ensures
        match g.find_from(value, 0) {
            Some(x) => g.valid_node(x) && g.value_at(x.index as int).eq_spec(value)
                && forall|j: int| 0 <= j < x.index && #[trigger] g.live(j) ==> !g.value_at(j).eq_spec(value),
            None => forall|j: int| #[trigger] g.live(j) ==> !g.value_at(j).eq_spec(value),
        },
{
    lemma_wu_find_from(g, value, 0);
}

/// What `find_from` gives from slot `i` on.
proof fn lemma_wu_find_from<T: PartialEq>(g: WUGraph<T>, value: &T, i: int)
    requires
        0 <= i,
    ensures
        match g.find_from(value, i) {
            Some(x) => i <= x.index && g.valid_node(x) && g.value_at(x.index as int).eq_spec(value)
                && forall|j: int| i <= j < x.index && #[trigger] g.live(j) ==> !g.value_at(j).eq_spec(value),
            None => forall|j: int| i <= j && #[trigger] g.live(j) ==> !g.value_at(j).eq_spec(value),
        },
    decreases g.nodes.len() - i,
{
    if i < g.nodes.len() {
        lemma_wu_find_from(g, value, i + 1);
    }
}

/// `find` in a graph gives the node in the lowest slot whose value equals
/// `value`, never a deleted slot, and `None` only when no node holds such a
/// value.
pub proof fn lemma_find_first_match<T: PartialEq>(g: Graph<T>, value: T)
    ensures
        match g.find_from(value, 0) {
            Some(x) => g.valid_node(x) && g.values@[x.index as int].eq_spec(&value)
                && forall|j: int| 0 <= j < x.index && #[trigger] g.live(j) ==> !g.values@[j].eq_spec(&value),
            None => forall|j: int| #[trigger] g.live(j) ==> !g.values@[j].eq_spec(&value),
        },
{
    lemma_find_from(g, value, 0);
}

/// What `find_from` gives from slot `i` on.
proof fn lemma_find_from<T: PartialEq>(g: Graph<T>, value: T, i: int)
    requires
        0 <= i,
    ensures
        match g.find_from(value, i) {
            Some(x) => i <= x.index && g.valid_node(x) && g.values@[x.index as int].eq_spec(&value)
                && forall|j: int| i <= j < x.index && #[trigger] g.live(j) ==> !g.values@[j].eq_spec(&value),
            None => forall|j: int| i <= j && #[trigger] g.live(j) ==> !g.values@[j].eq_spec(&value),
        },
    decreases g.values.len() - i,
{
    if i < g.values.len() {
        lemma_find_from(g, value, i + 1);
    }
}

} // verus!
