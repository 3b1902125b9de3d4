use vstd::prelude::*;
use crate::index::{NodeError, NodeIndex};
use crate::seq_util::{
    copy_nodes, count_in, count_of, lemma_count_contains, lemma_count_push, lemma_push_no_duplicates, lemma_distinct_slots_below,
    lemma_slots_not_in, lemma_without_contains, lemma_without_count, remove_all, slots_not_in,
    vec_contains, without,
};
use crate::graph::{is_first_repeat, total_len};
use vstd::std_specs::cmp::PartialEqSpec;
use crate::traverse::{adjacency, bfs_order, closed_adjacency, dfs_order, is_bfs_order, is_dfs_order};

verus! {

/// A node of a `WUGraph`: its value and the nodes its incoming edges come
/// from and its outgoing edges go to, one entry per edge.
#[derive(Debug)]
pub struct NodeData<T> {
    pub value: T,
    pub links_in: Vec<NodeIndex>,
    pub links_out: Vec<NodeIndex>,
}

/// A directed graph whose nodes hold values. Self-loops are refused unless
/// `allow_self_loop`; an edge that already exists is not added again unless
/// `allow_pseudo_graph`. Node `i` lives in slot `i` of `nodes`. The slots of
/// deleted nodes are listed in `deleted`, in the order of deletion; a slot is
/// never given to another node, so the handle of a deleted node stays
/// invalid and no two nodes ever get the same handle.
pub struct WUGraph<T> {
    pub nodes: Vec<Option<NodeData<T>>>,
    pub deleted: Vec<usize>,
    pub allow_self_loop: bool,
    pub allow_pseudo_graph: bool,
}

/// `out` and `inn` with an edge from `f` to `t` added, unless it exists and
/// parallel edges are not allowed.
pub open spec fn arc_added(
    out: Seq<Seq<NodeIndex>>,
    inn: Seq<Seq<NodeIndex>>,
    f: NodeIndex,
    t: NodeIndex,
    pseudo: bool,
) -> (Seq<Seq<NodeIndex>>, Seq<Seq<NodeIndex>>) {
    if out[f.index as int].contains(t) && !pseudo {
        (out, inn)
    } else {
        (out.update(f.index as int, out[f.index as int].push(t)), inn.update(t.index as int, inn[t.index as int].push(f)))
    }
}

/// `out` and `inn` with every edge from `f` to `t` taken out.
pub open spec fn arcs_removed(
    out: Seq<Seq<NodeIndex>>,
    inn: Seq<Seq<NodeIndex>>,
    f: NodeIndex,
    t: NodeIndex,
) -> (Seq<Seq<NodeIndex>>, Seq<Seq<NodeIndex>>) {
    (out.update(f.index as int, without(out[f.index as int], t)), inn.update(t.index as int, without(inn[t.index as int], f)))
}

/// `adj` once node `x` is deleted: its own list is emptied and it is taken
/// out of every other list.
pub open spec fn detached_arcs(adj: Seq<Seq<NodeIndex>>, x: NodeIndex) -> Seq<Seq<NodeIndex>> {
    Seq::new(adj.len(), |i: int| if i == x.index as int { Seq::empty() } else { without(adj[i], x) })
}

/// `st` after adding an edge from `a` to `b` and then one from `b` to `a`.
pub open spec fn both_ways(
    st: (Seq<Seq<NodeIndex>>, Seq<Seq<NodeIndex>>),
    a: NodeIndex,
    b: NodeIndex,
    pseudo: bool,
) -> (Seq<Seq<NodeIndex>>, Seq<Seq<NodeIndex>>) {
    let s1 = arc_added(st.0, st.1, a, b, pseudo);
    arc_added(s1.0, s1.1, b, a, pseudo)
}

/// `st` after joining `nodes[i]` both ways to each of `nodes[i + 1 .. j]`, in turn.
pub open spec fn arc_row(
    st: (Seq<Seq<NodeIndex>>, Seq<Seq<NodeIndex>>),
    nodes: Seq<NodeIndex>,
    i: int,
    j: int,
    pseudo: bool,
) -> (Seq<Seq<NodeIndex>>, Seq<Seq<NodeIndex>>)
    decreases j - i,
{
    if j <= i + 1 {
        st
    } else {
        both_ways(arc_row(st, nodes, i, j - 1, pseudo), nodes[i], nodes[j - 1], pseudo)
    }
}

/// `st` after joining both ways, for each `i` below `rows` in turn,
/// `nodes[i]` to every later entry of `nodes`.
pub open spec fn arc_rows(
    st: (Seq<Seq<NodeIndex>>, Seq<Seq<NodeIndex>>),
    nodes: Seq<NodeIndex>,
    rows: int,
    pseudo: bool,
) -> (Seq<Seq<NodeIndex>>, Seq<Seq<NodeIndex>>)
    decreases rows,
{
    if rows <= 0 {
        st
    } else {
        arc_row(arc_rows(st, nodes, rows - 1, pseudo), nodes, rows - 1, nodes.len() as int, pseudo)
    }
}

/// The pairs `(x, y)` for the entries `y` of `s`, in list order.
pub open spec fn pairs_from(x: NodeIndex, s: Seq<NodeIndex>) -> Seq<(NodeIndex, NodeIndex)> {
    s.map_values(|y: NodeIndex| (x, y))
}

impl<T: PartialEq> WUGraph<T> {
    /// The first node, in slot order, at or after slot `i` whose value equals `value`.
    pub open spec fn find_from(&self, value: &T, i: int) -> Option<NodeIndex>
        decreases self.nodes.len() - i,
    {
        if i < 0 || i >= self.nodes.len() {
            None
        } else if self.live(i) && self.value_at(i).eq_spec(value) {
            Some(NodeIndex { index: i as usize })
        } else {
            self.find_from(value, i + 1)
        }
    }

    /// The first node, in slot order, whose value equals `value`; `None` if
    /// there is none.
    pub fn find(&self, value: &T) -> (r: Option<NodeIndex>)
        ensures
            T::obeys_eq_spec() ==> r == self.find_from(value, 0),
    {
        let mut i: usize = 0;
        while i < self.nodes.len()
            invariant
                i <= self.nodes.len(),
                T::obeys_eq_spec() ==> self.find_from(value, 0) == self.find_from(value, i as int),
            decreases self.nodes.len() - i,
        {
            match &self.nodes[i] {
                Some(d) => {
                    if d.value == *value {
                        return Some(NodeIndex { index: i });
                    }
                },
                None => {},
            }
            i = i + 1;
        }
        None
    }
}

impl<T> WUGraph<T> {
    /// The nodes in slots below `n`, in slot order.
    pub open spec fn live_nodes_upto(&self, n: int) -> Seq<NodeIndex>
        decreases n,
    {
        if n <= 0 {
            Seq::empty()
        } else if self.live(n - 1) {
            self.live_nodes_upto(n - 1).push(NodeIndex { index: (n - 1) as usize })
        } else {
            self.live_nodes_upto(n - 1)
        }
    }

    /// All nodes, in slot order.
    pub open spec fn live_nodes(&self) -> Seq<NodeIndex> {
        self.live_nodes_upto(self.nodes.len() as int)
    }

    /// Every edge, as a pair (from, to): by slot of the first node, then in
    /// the order of its outgoing list; for the nodes in slots below `n`.
    pub open spec fn arcs_upto(&self, n: int) -> Seq<(NodeIndex, NodeIndex)>
        decreases n,
    {
        if n <= 0 {
            Seq::empty()
        } else if self.live(n - 1) {
            self.arcs_upto(n - 1) + pairs_from(NodeIndex { index: (n - 1) as usize }, self.out_adj()[n - 1])
        } else {
            self.arcs_upto(n - 1)
        }
    }

    /// Slot `i` holds a node.
    pub open spec fn live(&self, i: int) -> bool {
        &&& 0 <= i < self.nodes.len()
        &&& self.nodes@[i] is Some
    }

    /// `x` names a node of the graph.
    pub open spec fn valid_node(&self, x: NodeIndex) -> bool {
        self.live(x.index as int)
    }

    /// The data of the node in slot `i`.
    pub open spec fn data(&self, i: int) -> NodeData<T> {
        self.nodes@[i].unwrap()
    }

    /// The value held in slot `i`.
    pub open spec fn value_at(&self, i: int) -> T {
        self.data(i).value
    }

    /// The outgoing lists of all slots (empty for a deleted slot).
    pub open spec fn out_adj(&self) -> Seq<Seq<NodeIndex>> {
        Seq::new(self.nodes.len() as nat, |i: int| if self.live(i) { self.data(i).links_out@ } else { Seq::empty() })
    }

    /// The incoming lists of all slots (empty for a deleted slot).
    pub open spec fn in_adj(&self) -> Seq<Seq<NodeIndex>> {
        Seq::new(self.nodes.len() as nat, |i: int| if self.live(i) { self.data(i).links_in@ } else { Seq::empty() })
    }

    /// The number of edges from `f` to `t`.
    pub open spec fn arcs(&self, f: NodeIndex, t: NodeIndex) -> nat {
        count_of(self.out_adj()[f.index as int], t)
    }

    /// The graph is well formed: the deleted slots are listed once each in
    /// `deleted`; edges join nodes, and each edge is listed once at each end;
    /// there is no self-loop unless self-loops are allowed, and no parallel
    /// edge unless they are allowed.
    pub open spec fn wf(&self) -> bool {
        &&& self.deleted@.no_duplicates()
        &&& forall|k: int| 0 <= k < self.deleted.len() ==> (#[trigger] self.deleted@[k]) < self.nodes.len()
        &&& forall|i: int| 0 <= i < self.nodes.len() ==> (self.nodes@[i] is None <==> #[trigger] self.deleted@.contains(i as usize))
        &&& forall|i: int, k: int| self.live(i) && 0 <= k < self.out_adj()[i].len()
            ==> self.live((#[trigger] self.out_adj()[i][k]).index as int)
        &&& forall|i: int, k: int| self.live(i) && 0 <= k < self.in_adj()[i].len()
            ==> self.live((#[trigger] self.in_adj()[i][k]).index as int)
        &&& forall|x: NodeIndex, y: NodeIndex| self.valid_node(x) && self.valid_node(y)
            ==> #[trigger] count_of(self.out_adj()[x.index as int], y) == #[trigger] count_of(self.in_adj()[y.index as int], x)
        &&& !self.allow_self_loop ==> forall|x: NodeIndex| self.valid_node(x) ==> !(#[trigger] self.out_adj()[x.index as int]).contains(x)
        &&& !self.allow_pseudo_graph ==> forall|i: int| self.live(i) ==> (#[trigger] self.out_adj()[i]).no_duplicates()
    }

    /// `self` and `other` have the same nodes, values, deleted slots and flags.
    pub open spec fn same_nodes(&self, other: &Self) -> bool {
        &&& self.nodes.len() == other.nodes.len()
        &&& self.deleted@ == other.deleted@
        &&& self.allow_self_loop == other.allow_self_loop
        &&& self.allow_pseudo_graph == other.allow_pseudo_graph
        &&& forall|i: int| #![trigger self.live(i)] 0 <= i < self.nodes.len() ==> self.live(i) == other.live(i)
        &&& forall|i: int| #![trigger self.value_at(i)] self.live(i) ==> self.value_at(i) == other.value_at(i)
    }

    /// The first entry of `nodes` that names no node.
    pub open spec fn first_invalid(&self, nodes: Seq<NodeIndex>) -> Option<NodeIndex>
        decreases nodes.len(),
    {
        if nodes.len() == 0 {
            None
        } else {
            match self.first_invalid(nodes.drop_last()) {
                Some(x) => Some(x),
                None => if self.valid_node(nodes.last()) {
                    None
                } else {
                    Some(nodes.last())
                },
            }
        }
    }

    /// The outgoing and incoming lists of all slots.
    pub open spec fn arc_state(&self) -> (Seq<Seq<NodeIndex>>, Seq<Seq<NodeIndex>>) {
        (self.out_adj(), self.in_adj())
    }

    /// `self` and `other` have the same edges.
    pub open spec fn same_edges(&self, other: &Self) -> bool {
        &&& self.out_adj() == other.out_adj()
        &&& self.in_adj() == other.in_adj()
    }

    /// The first of `a` and `b` that names no node, as an error.
    pub open spec fn pair_error(&self, a: NodeIndex, b: NodeIndex) -> Option<NodeError> {
        if !self.valid_node(a) {
            Some(NodeError::InvalidIndex(a))
        } else if !self.valid_node(b) {
            Some(NodeError::InvalidIndex(b))
        } else {
            None
        }
    }

    /// An empty graph with the given permissions.
    pub fn new(allow_self_loop: bool, allow_pseudo_graph: bool) -> (g: Self)
        ensures
            g.wf(),
            g.nodes.len() == 0,
            g.deleted.len() == 0,
            g.allow_self_loop == allow_self_loop,
            g.allow_pseudo_graph == allow_pseudo_graph,
    {
        WUGraph { nodes: Vec::new(), deleted: Vec::new(), allow_self_loop, allow_pseudo_graph }
    }

    /// Takes the data out of the node in slot `i`, leaving the slot empty.
    fn take_data(&mut self, i: usize) -> (d: NodeData<T>)
        requires
            old(self).live(i as int),
        ensures
            d == old(self).data(i as int),
            final(self).nodes@ == old(self).nodes@.update(i as int, None),
            final(self).deleted@ == old(self).deleted@,
            final(self).allow_self_loop == old(self).allow_self_loop,
            final(self).allow_pseudo_graph == old(self).allow_pseudo_graph,
    {
        let mut slot: Option<NodeData<T>> = None;
        self.nodes.set_and_swap(i, &mut slot);
        slot.unwrap()
    }

    /// Puts `d` into slot `i`.
    fn put_data(&mut self, i: usize, d: NodeData<T>)
        requires
            i < old(self).nodes.len(),
        ensures
            final(self).nodes@ == old(self).nodes@.update(i as int, Some(d)),
            final(self).deleted@ == old(self).deleted@,
            final(self).allow_self_loop == old(self).allow_self_loop,
            final(self).allow_pseudo_graph == old(self).allow_pseudo_graph,
    {
        self.nodes.set(i, Some(d));
    }

    /// Whether `node` names a node of the graph.
    pub fn is_node_valid(&self, node: NodeIndex) -> (r: bool)
        ensures
            r == self.valid_node(node),
    {
        node.index < self.nodes.len() && self.nodes[node.index].is_some()
    }

    /// Whether `node_index` names a node of the graph.
    pub fn has_node(&self, node_index: NodeIndex) -> (r: bool)
        ensures
            r == self.valid_node(node_index),
    {
        self.is_node_valid(node_index)
    }

    /// Whether self-loops are allowed.
    pub fn is_allow_self_loop(&self) -> (r: bool)
        ensures
            r == self.allow_self_loop,
    {
        self.allow_self_loop
    }

    /// Whether parallel edges are allowed.
    pub fn is_pseudo_graph(&self) -> (r: bool)
        ensures
            r == self.allow_pseudo_graph,
    {
        self.allow_pseudo_graph
    }

    /// Adds a node holding `value` in a new slot, appended after all others,
    /// and returns its handle; the slots of deleted nodes are not reused.
    pub fn new_node(&mut self, value: T) -> (x: NodeIndex)
        requires
            old(self).wf(),
            old(self).nodes.len() < usize::MAX,
        ensures
            final(self).wf(),
            !old(self).valid_node(x),
            final(self).valid_node(x),
            final(self).value_at(x.index as int) == value,
            final(self).data(x.index as int).links_in@.len() == 0,
            final(self).data(x.index as int).links_out@.len() == 0,
            final(self).allow_self_loop == old(self).allow_self_loop,
            final(self).allow_pseudo_graph == old(self).allow_pseudo_graph,
            x.index == old(self).nodes.len(),
            forall|y: NodeIndex| !old(self).valid_node(y) && y != x ==> !#[trigger] final(self).valid_node(y),
            final(self).deleted@ == old(self).deleted@,
            final(self).nodes.len() == old(self).nodes.len() + 1,
            forall|i: int| 0 <= i < old(self).nodes.len() ==> final(self).nodes@[i] == old(self).nodes@[i],
            final(self).out_adj() == old(self).out_adj().push(Seq::empty()),
            final(self).in_adj() == old(self).in_adj().push(Seq::empty()),
    {
        let ghost g0 = *self;
        let d = NodeData { value, links_in: Vec::new(), links_out: Vec::new() };
        self.nodes.push(Some(d));
        let idx = self.nodes.len() - 1;
        proof {
            let x = NodeIndex { index: idx };
            assert(!g0.deleted@.contains(idx)) by {
                if g0.deleted@.contains(idx) {
                    let k = choose|k: int| 0 <= k < g0.deleted.len() && g0.deleted@[k] == idx;
                    assert(g0.deleted@[k] < g0.nodes.len());
                }
            }
            assert forall|i: int| 0 <= i < self.nodes.len() implies (self.nodes@[i] is None <==> #[trigger] self.deleted@.contains(i as usize)) by {
                if i < g0.nodes.len() {
                    assert(g0.nodes@[i] is None <==> g0.deleted@.contains(i as usize));
                }
            }
            assert forall|k: int| 0 <= k < self.deleted.len() implies (#[trigger] self.deleted@[k]) < self.nodes.len() by {
                assert(g0.deleted@[k] < g0.nodes.len());
            }
            assert(self.out_adj() =~= g0.out_adj().push(Seq::empty()));
            assert(self.in_adj() =~= g0.in_adj().push(Seq::empty()));
            assert forall|y: NodeIndex| !g0.valid_node(y) && y != x implies !#[trigger] self.valid_node(y) by {
                if y.index < g0.nodes.len() {
                    assert(self.nodes@[y.index as int] == g0.nodes@[y.index as int]);
                }
            }
            assert forall|x2: NodeIndex, y: NodeIndex| self.valid_node(x2) && self.valid_node(y)
                implies #[trigger] count_of(self.out_adj()[x2.index as int], y) == #[trigger] count_of(self.in_adj()[y.index as int], x2) by {
                if x2.index != idx && y.index != idx {
                    assert(g0.valid_node(x2) && g0.valid_node(y));
                } else if x2.index == idx {
                    assert(self.out_adj()[x2.index as int].len() == 0);
                    if y.index != idx {
                        assert(g0.valid_node(y));
                        if count_of(g0.in_adj()[y.index as int], x2) > 0 {
                            lemma_count_contains(g0.in_adj()[y.index as int], x2);
                            let k = choose|k: int| 0 <= k < g0.in_adj()[y.index as int].len() && g0.in_adj()[y.index as int][k] == x2;
                            assert(g0.live(g0.in_adj()[y.index as int][k].index as int));
                        }
                    }
                } else {
                    assert(self.in_adj()[y.index as int].len() == 0);
                    assert(g0.valid_node(x2));
                    if count_of(g0.out_adj()[x2.index as int], y) > 0 {
                        lemma_count_contains(g0.out_adj()[x2.index as int], y);
                        let k = choose|k: int| 0 <= k < g0.out_adj()[x2.index as int].len() && g0.out_adj()[x2.index as int][k] == y;
                        assert(g0.live(g0.out_adj()[x2.index as int][k].index as int));
                    }
                }
            }
            assert forall|i: int, k: int| self.live(i) && 0 <= k < self.out_adj()[i].len()
                implies self.live((#[trigger] self.out_adj()[i][k]).index as int) by {
                assert(i != idx);
                assert(g0.out_adj()[i][k] == self.out_adj()[i][k]);
            }
            assert forall|i: int, k: int| self.live(i) && 0 <= k < self.in_adj()[i].len()
                implies self.live((#[trigger] self.in_adj()[i][k]).index as int) by {
                assert(i != idx);
                assert(g0.in_adj()[i][k] == self.in_adj()[i][k]);
            }
            if !self.allow_self_loop {
                assert forall|x2: NodeIndex| self.valid_node(x2) implies !(#[trigger] self.out_adj()[x2.index as int]).contains(x2) by {
                    if x2.index != idx {
                        assert(g0.valid_node(x2));
                    }
                }
            }
            if !self.allow_pseudo_graph {
                assert forall|i: int| self.live(i) implies (#[trigger] self.out_adj()[i]).no_duplicates() by {
                    if i != idx {
                        assert(g0.live(i));
                    }
                }
            }
        }
        NodeIndex { index: idx }
    }

    /// Adds an edge from `f` to `t`, which may be added.
    fn add_arc(&mut self, f: NodeIndex, t: NodeIndex)
        requires
            old(self).wf(),
            old(self).valid_node(f),
            old(self).valid_node(t),
            !old(self).allow_self_loop ==> f != t,
            !old(self).allow_pseudo_graph ==> !old(self).out_adj()[f.index as int].contains(t),
        ensures
            final(self).wf(),
            final(self).same_nodes(old(self)),
            (final(self).out_adj(), final(self).in_adj()) == arc_added(old(self).out_adj(), old(self).in_adj(), f, t, true),
    {
        let ghost g0 = *self;
        let mut d = self.take_data(f.index);
        d.links_out.push(t);
        self.put_data(f.index, d);
        let mut e = self.take_data(t.index);
        e.links_in.push(f);
        self.put_data(t.index, e);
        proof {
            let out0 = g0.out_adj();
            let in0 = g0.in_adj();
            assert(self.out_adj() =~= out0.update(f.index as int, out0[f.index as int].push(t)));
            assert(self.in_adj() =~= in0.update(t.index as int, in0[t.index as int].push(f)));
            assert forall|i: int| #![trigger self.live(i)] 0 <= i < self.nodes.len() implies self.live(i) == g0.live(i) by {}
            assert forall|i: int| #![trigger self.value_at(i)] self.live(i) implies self.value_at(i) == g0.value_at(i) by {}
            assert forall|i: int| 0 <= i < self.nodes.len() implies (self.nodes@[i] is None <==> #[trigger] self.deleted@.contains(i as usize)) by {
                assert(g0.nodes@[i] is None <==> g0.deleted@.contains(i as usize));
            }
            assert forall|i: int, k: int| self.live(i) && 0 <= k < self.out_adj()[i].len()
                implies self.live((#[trigger] self.out_adj()[i][k]).index as int) by {
                if !(i == f.index && k == out0[i].len()) {
                    assert(self.out_adj()[i][k] == out0[i][k]);
                }
            }
            assert forall|i: int, k: int| self.live(i) && 0 <= k < self.in_adj()[i].len()
                implies self.live((#[trigger] self.in_adj()[i][k]).index as int) by {
                if !(i == t.index && k == in0[i].len()) {
                    assert(self.in_adj()[i][k] == in0[i][k]);
                }
            }
            assert forall|x: NodeIndex, y: NodeIndex| self.valid_node(x) && self.valid_node(y)
                implies #[trigger] count_of(self.out_adj()[x.index as int], y) == #[trigger] count_of(self.in_adj()[y.index as int], x) by {
                assert(g0.valid_node(x) && g0.valid_node(y));
                assert(count_of(out0[x.index as int], y) == count_of(in0[y.index as int], x));
                lemma_count_push(out0[x.index as int], t, y);
                lemma_count_push(in0[y.index as int], f, x);
            }
            if !self.allow_self_loop {
                assert forall|x: NodeIndex| self.valid_node(x) implies !(#[trigger] self.out_adj()[x.index as int]).contains(x) by {
                    assert(g0.valid_node(x));
                    assert(!out0[x.index as int].contains(x));
                    if x == f && self.out_adj()[x.index as int].contains(x) {
                        let k = choose|k: int| 0 <= k < self.out_adj()[x.index as int].len() && self.out_adj()[x.index as int][k] == x;
                        if k < out0[x.index as int].len() {
                            assert(out0[x.index as int][k] == x);
                        }
                    }
                }
            }
            if !self.allow_pseudo_graph {
                assert forall|i: int| self.live(i) implies (#[trigger] self.out_adj()[i]).no_duplicates() by {
                    assert(g0.live(i));
                    assert(out0[i].no_duplicates());
                    if i == f.index {
                        lemma_push_no_duplicates(out0[i], t);
                    }
                }
            }
        }
    }

    /// The outgoing list of the node in slot `i`.
    fn out_list(&self, i: usize) -> (r: &Vec<NodeIndex>)
        requires
            self.live(i as int),
        ensures
            r@ == self.out_adj()[i as int],
    {
        match &self.nodes[i] {
            Some(d) => &d.links_out,
            None => vstd::pervasive::unreached(),
        }
    }

    /// The incoming list of the node in slot `i`.
    fn in_list(&self, i: usize) -> (r: &Vec<NodeIndex>)
        requires
            self.live(i as int),
        ensures
            r@ == self.in_adj()[i as int],
    {
        match &self.nodes[i] {
            Some(d) => &d.links_in,
            None => vstd::pervasive::unreached(),
        }
    }

    /// Takes out every edge from `f` to `t`; returns how many there were.
    fn remove_arcs(&mut self, f: NodeIndex, t: NodeIndex) -> (n: usize)
        requires
            old(self).wf(),
            old(self).valid_node(f),
            old(self).valid_node(t),
        ensures
            final(self).wf(),
            final(self).same_nodes(old(self)),
            (final(self).out_adj(), final(self).in_adj()) == arcs_removed(old(self).out_adj(), old(self).in_adj(), f, t),
            n == old(self).arcs(f, t),
    {
        let ghost g0 = *self;
        let mut d = self.take_data(f.index);
        let (kept, n) = remove_all(&d.links_out, t);
        d.links_out = kept;
        self.put_data(f.index, d);
        let mut e = self.take_data(t.index);
        let (kept2, _m) = remove_all(&e.links_in, f);
        e.links_in = kept2;
        self.put_data(t.index, e);
        proof {
            let out0 = g0.out_adj();
            let in0 = g0.in_adj();
            assert(self.out_adj() =~= out0.update(f.index as int, without(out0[f.index as int], t)));
            assert(self.in_adj() =~= in0.update(t.index as int, without(in0[t.index as int], f)));
            lemma_without_contains(out0[f.index as int], t);
            lemma_without_contains(in0[t.index as int], f);
            assert forall|i: int| #![trigger self.live(i)] 0 <= i < self.nodes.len() implies self.live(i) == g0.live(i) by {}
            assert forall|i: int| #![trigger self.value_at(i)] self.live(i) implies self.value_at(i) == g0.value_at(i) by {}
            assert forall|i: int| 0 <= i < self.nodes.len() implies (self.nodes@[i] is None <==> #[trigger] self.deleted@.contains(i as usize)) by {
                assert(g0.nodes@[i] is None <==> g0.deleted@.contains(i as usize));
            }
            assert forall|i: int, k: int| self.live(i) && 0 <= k < self.out_adj()[i].len()
                implies self.live((#[trigger] self.out_adj()[i][k]).index as int) by {
                let y = self.out_adj()[i][k];
                if i == f.index {
                    assert(self.out_adj()[i].contains(y));
                    let k0 = choose|k0: int| 0 <= k0 < out0[i].len() && out0[i][k0] == y;
                    assert(g0.live(out0[i][k0].index as int));
                } else {
                    assert(y == out0[i][k]);
                }
            }
            assert forall|i: int, k: int| self.live(i) && 0 <= k < self.in_adj()[i].len()
                implies self.live((#[trigger] self.in_adj()[i][k]).index as int) by {
                let y = self.in_adj()[i][k];
                if i == t.index {
                    assert(self.in_adj()[i].contains(y));
                    let k0 = choose|k0: int| 0 <= k0 < in0[i].len() && in0[i][k0] == y;
                    assert(g0.live(in0[i][k0].index as int));
                } else {
                    assert(y == in0[i][k]);
                }
            }
            assert forall|x: NodeIndex, y: NodeIndex| self.valid_node(x) && self.valid_node(y)
                implies #[trigger] count_of(self.out_adj()[x.index as int], y) == #[trigger] count_of(self.in_adj()[y.index as int], x) by {
                assert(g0.valid_node(x) && g0.valid_node(y));
                assert(count_of(out0[x.index as int], y) == count_of(in0[y.index as int], x));
                lemma_without_count(out0[x.index as int], t, y);
                lemma_without_count(in0[y.index as int], f, x);
            }
            if !self.allow_self_loop {
                assert forall|x: NodeIndex| self.valid_node(x) implies !(#[trigger] self.out_adj()[x.index as int]).contains(x) by {
                    assert(g0.valid_node(x));
                    assert(!out0[x.index as int].contains(x));
                }
            }
            if !self.allow_pseudo_graph {
                assert forall|i: int| self.live(i) implies (#[trigger] self.out_adj()[i]).no_duplicates() by {
                    assert(g0.live(i));
                    assert(out0[i].no_duplicates());
                }
            }
        }
        n
    }

    /// Adds an edge from `from_node` to `to_node`. An error if either names
    /// no node, or if they are the same node and self-loops are not allowed.
    /// Nothing is added when the edge exists and parallel edges are not allowed.
    pub fn try_connect(&mut self, from_node: NodeIndex, to_node: NodeIndex) -> (r: Result<(), NodeError>)
        requires
            old(self).wf(),
        ensures
            final(self).wf(),
            final(self).same_nodes(old(self)),
            match old(self).pair_error(from_node, to_node) {
                Some(e) => r == Err::<(), NodeError>(e) && final(self).same_edges(old(self)),
                None => if from_node == to_node && !old(self).allow_self_loop {
                    r == Err::<(), NodeError>(NodeError::SelfLoop(from_node)) && final(self).same_edges(old(self))
                } else {
                    r == Ok::<(), NodeError>(())
                        && (final(self).out_adj(), final(self).in_adj())
                            == arc_added(old(self).out_adj(), old(self).in_adj(), from_node, to_node, old(self).allow_pseudo_graph)
                },
            },
    {
        if !self.is_node_valid(from_node) {
            return Err(NodeError::InvalidIndex(from_node));
        }
        if !self.is_node_valid(to_node) {
            return Err(NodeError::InvalidIndex(to_node));
        }
        if from_node == to_node && !self.allow_self_loop {
            return Err(NodeError::SelfLoop(from_node));
        }
        if !vec_contains(self.out_list(from_node.index), to_node) || self.allow_pseudo_graph {
            self.add_arc(from_node, to_node);
        }
        Ok(())
    }

    /// Whether there is an edge from `from_node` to `to_node`; an error if
    /// either names no node.
    pub fn try_are_connected(&self, from_node: NodeIndex, to_node: NodeIndex) -> (r: Result<bool, NodeError>)
        requires
            self.wf(),
        ensures
            match self.pair_error(from_node, to_node) {
                Some(e) => r == Err::<bool, NodeError>(e),
                None => r == Ok::<bool, NodeError>(self.out_adj()[from_node.index as int].contains(to_node)),
            },
    {
        if !self.is_node_valid(from_node) {
            return Err(NodeError::InvalidIndex(from_node));
        }
        if !self.is_node_valid(to_node) {
            return Err(NodeError::InvalidIndex(to_node));
        }
        Ok(vec_contains(self.out_list(from_node.index), to_node))
    }

    /// The number of edges from `from_node` to `to_node`; an error if either
    /// names no node.
    pub fn try_edge_count_between(&self, from_node: NodeIndex, to_node: NodeIndex) -> (r: Result<usize, NodeError>)
        requires
            self.wf(),
        ensures
            match self.pair_error(from_node, to_node) {
                Some(e) => r == Err::<usize, NodeError>(e),
                None => r == Ok::<usize, NodeError>(self.arcs(from_node, to_node) as usize),
            },
    {
        if !self.is_node_valid(from_node) {
            return Err(NodeError::InvalidIndex(from_node));
        }
        if !self.is_node_valid(to_node) {
            return Err(NodeError::InvalidIndex(to_node));
        }
        Ok(count_in(self.out_list(from_node.index), to_node))
    }

    /// Takes out every edge from `from_node` to `to_node`. An error if either
    /// names no node, or if there was no such edge.
    pub fn try_disconnect(&mut self, from_node: NodeIndex, to_node: NodeIndex) -> (r: Result<(), NodeError>)
        requires
            old(self).wf(),
        ensures
            final(self).wf(),
            final(self).same_nodes(old(self)),
            match old(self).pair_error(from_node, to_node) {
                Some(e) => r == Err::<(), NodeError>(e) && final(self).same_edges(old(self)),
                None => {
                    &&& (final(self).out_adj(), final(self).in_adj())
                        == arcs_removed(old(self).out_adj(), old(self).in_adj(), from_node, to_node)
                    &&& r == if old(self).arcs(from_node, to_node) > 0 {
                        Ok::<(), NodeError>(())
                    } else {
                        Err::<(), NodeError>(NodeError::NoEdge(from_node, to_node))
                    }
                },
            },
    {
        if !self.is_node_valid(from_node) {
            return Err(NodeError::InvalidIndex(from_node));
        }
        if !self.is_node_valid(to_node) {
            return Err(NodeError::InvalidIndex(to_node));
        }
        let n = self.remove_arcs(from_node, to_node);
        if n > 0 {
            Ok(())
        } else {
            Err(NodeError::NoEdge(from_node, to_node))
        }
    }

    /// Takes out every edge between `from_node` and `to_node`, in both
    /// directions, and returns how many were taken out. An error if either
    /// names no node, or if there was no such edge.
    pub fn try_remove_all_edges(&mut self, from_node: NodeIndex, to_node: NodeIndex) -> (r: Result<usize, NodeError>)
        requires
            old(self).wf(),
            old(self).pair_error(from_node, to_node) is None
                ==> old(self).arcs(from_node, to_node) + old(self).arcs(to_node, from_node) <= usize::MAX,
        ensures
            final(self).wf(),
            final(self).same_nodes(old(self)),
            match old(self).pair_error(from_node, to_node) {
                Some(e) => r == Err::<usize, NodeError>(e) && final(self).same_edges(old(self)),
                None => {
                    let once = arcs_removed(old(self).out_adj(), old(self).in_adj(), from_node, to_node);
                    let both = arcs_removed(once.0, once.1, to_node, from_node);
                    let n = old(self).arcs(from_node, to_node) + if from_node != to_node { old(self).arcs(to_node, from_node) } else { 0 };
                    &&& (final(self).out_adj(), final(self).in_adj()) == (if from_node != to_node { both } else { once })
                    &&& r == if n > 0 {
                        Ok::<usize, NodeError>(n as usize)
                    } else {
                        Err::<usize, NodeError>(NodeError::NoEdge(from_node, to_node))
                    }
                },
            },
    {
        if !self.is_node_valid(from_node) {
            return Err(NodeError::InvalidIndex(from_node));
        }
        if !self.is_node_valid(to_node) {
            return Err(NodeError::InvalidIndex(to_node));
        }
        let ghost g0 = *self;
        let n = self.remove_arcs(from_node, to_node);
        let mut total: usize = n;
        if from_node != to_node {
            let ghost g1 = *self;
            proof {
                assert(g1.out_adj()[to_node.index as int] == g0.out_adj()[to_node.index as int]);
                lemma_count_contains(g0.out_adj()[from_node.index as int], to_node);
                lemma_count_contains(g0.out_adj()[to_node.index as int], from_node);
            }
            let m = self.remove_arcs(to_node, from_node);
            total = n + m;
        }
        if total > 0 {
            Ok(total)
        } else {
            Err(NodeError::NoEdge(from_node, to_node))
        }
    }

    /// Deletes `node` with all its edges; its slot stays empty. An
    /// error if `node` names no node.
    pub fn try_del(&mut self, node: NodeIndex) -> (r: Result<(), NodeError>)
        requires
            old(self).wf(),
        ensures
            final(self).wf(),
            old(self).valid_node(node) ==> {
                &&& r == Ok::<(), NodeError>(())
                &&& final(self).nodes.len() == old(self).nodes.len()
                &&& final(self).deleted@ == old(self).deleted@.push(node.index)
                &&& final(self).allow_self_loop == old(self).allow_self_loop
                &&& final(self).allow_pseudo_graph == old(self).allow_pseudo_graph
                &&& forall|i: int| #![trigger final(self).live(i)]
                    0 <= i < final(self).nodes.len() ==> final(self).live(i) == (old(self).live(i) && i != node.index)
                &&& forall|i: int| #![trigger final(self).value_at(i)] final(self).live(i) ==> final(self).value_at(i) == old(self).value_at(i)
                &&& final(self).out_adj() == detached_arcs(old(self).out_adj(), node)
                &&& final(self).in_adj() == detached_arcs(old(self).in_adj(), node)
            },
            !old(self).valid_node(node) ==> {
                &&& r == Err::<(), NodeError>(NodeError::InvalidIndex(node))
                &&& final(self).same_nodes(old(self))
                &&& final(self).same_edges(old(self))
            },
    {
        if !self.is_node_valid(node) {
            return Err(NodeError::InvalidIndex(node));
        }
        let ghost g0 = *self;
        let n = self.nodes.len();
        let mut i: usize = 0;
        while i < n
            invariant
                g0.wf(),
                g0.valid_node(node),
                n == self.nodes.len(),
                n == g0.nodes.len(),
                i <= n,
                self.deleted@ == g0.deleted@,
                self.allow_self_loop == g0.allow_self_loop,
                self.allow_pseudo_graph == g0.allow_pseudo_graph,
                forall|j: int| #![trigger self.live(j)] 0 <= j < n ==> self.live(j) == g0.live(j),
                forall|j: int| #![trigger self.value_at(j)] self.live(j) ==> self.value_at(j) == g0.value_at(j),
                forall|j: int| #![trigger self.out_adj()[j]] 0 <= j < n ==> self.out_adj()[j]
                    == if j < i && j != node.index { without(g0.out_adj()[j], node) } else { g0.out_adj()[j] },
                forall|j: int| #![trigger self.in_adj()[j]] 0 <= j < n ==> self.in_adj()[j]
                    == if j < i && j != node.index { without(g0.in_adj()[j], node) } else { g0.in_adj()[j] },
            decreases n - i,
        {
            if i != node.index && self.is_node_valid(NodeIndex { index: i }) {
                let ghost g1 = *self;
                let mut d = self.take_data(i);
                let (outs, _a) = remove_all(&d.links_out, node);
                let (ins, _b) = remove_all(&d.links_in, node);
                d.links_out = outs;
                d.links_in = ins;
                self.put_data(i, d);
                proof {
                    assert(self.live(i as int));
                    assert(self.out_adj()[i as int] == without(g1.out_adj()[i as int], node));
                    assert(self.in_adj()[i as int] == without(g1.in_adj()[i as int], node));
                    assert forall|j: int| #![trigger self.out_adj()[j]] 0 <= j < n implies self.out_adj()[j]
                        == if j < i + 1 && j != node.index { without(g0.out_adj()[j], node) } else { g0.out_adj()[j] } by {
                        if j != i {
                            assert(self.out_adj()[j] == g1.out_adj()[j]);
                        }
                    }
                    assert forall|j: int| #![trigger self.in_adj()[j]] 0 <= j < n implies self.in_adj()[j]
                        == if j < i + 1 && j != node.index { without(g0.in_adj()[j], node) } else { g0.in_adj()[j] } by {
                        if j != i {
                            assert(self.in_adj()[j] == g1.in_adj()[j]);
                        }
                    }
                    assert forall|j: int| #![trigger self.live(j)] 0 <= j < n implies self.live(j) == g0.live(j) by {
                        assert(g1.live(j) == g0.live(j));
                    }
                    assert forall|j: int| #![trigger self.value_at(j)] self.live(j) implies self.value_at(j) == g0.value_at(j) by {
                        assert(g1.live(j));
                        assert(g1.value_at(j) == g0.value_at(j));
                    }
                }
            } else {
                proof {
                    if i != node.index {
                        assert(!g0.live(i as int));
                        assert(g0.out_adj()[i as int].len() == 0);
                        assert(without(g0.out_adj()[i as int], node) =~= g0.out_adj()[i as int]);
                        assert(without(g0.in_adj()[i as int], node) =~= g0.in_adj()[i as int]);
                    }
                }
            }
            i = i + 1;
        }
        let ghost g2 = *self;
        let _gone = self.take_data(node.index);
        proof {
            assert(g0.nodes@[node.index as int] is Some);
            assert(!g0.deleted@.contains(((node.index as int) as usize)));
            lemma_distinct_slots_below(g0.deleted@, g0.nodes.len() as int, node.index);
        }
        self.deleted.push(node.index);
        proof {
            let x = node.index as int;
            assert(self.out_adj() =~= detached_arcs(g0.out_adj(), node)) by {
                assert forall|j: int| 0 <= j < n implies #[trigger] self.out_adj()[j] == detached_arcs(g0.out_adj(), node)[j] by {
                    if j != x {
                        assert(g2.out_adj()[j] == self.out_adj()[j]);
                    }
                }
            }
            assert(self.in_adj() =~= detached_arcs(g0.in_adj(), node)) by {
                assert forall|j: int| 0 <= j < n implies #[trigger] self.in_adj()[j] == detached_arcs(g0.in_adj(), node)[j] by {
                    if j != x {
                        assert(g2.in_adj()[j] == self.in_adj()[j]);
                    }
                }
            }
            assert forall|j: int| #![trigger self.live(j)] 0 <= j < n implies self.live(j) == (g0.live(j) && j != x) by {
                if j != x {
                    assert(g2.live(j) == g0.live(j));
                }
            }
            assert forall|j: int| #![trigger self.value_at(j)] self.live(j) implies self.value_at(j) == g0.value_at(j) by {
                assert(self.nodes@[j] == g2.nodes@[j]);
                assert(g2.live(j));
                assert(g2.value_at(j) == g0.value_at(j));
            }
            assert(self.deleted@.no_duplicates()) by {
                assert forall|k1: int, k2: int| 0 <= k1 < k2 < self.deleted.len() implies self.deleted@[k1] != self.deleted@[k2] by {
                    if k2 == self.deleted.len() - 1 {
                        assert(g0.deleted@[k1] == self.deleted@[k1]);
                        assert(g0.deleted@.contains(self.deleted@[k1]));
                    }
                }
            }
            assert forall|j: int| 0 <= j < self.nodes.len() implies (self.nodes@[j] is None <==> #[trigger] self.deleted@.contains(j as usize)) by {
                assert(g0.nodes@[j] is None <==> g0.deleted@.contains(j as usize));
                if j == x {
                    assert(self.deleted@[self.deleted.len() - 1] == j as usize);
                } else {
                    assert(g2.live(j) == g0.live(j));
                    if self.deleted@.contains(j as usize) {
                        let k = choose|k: int| 0 <= k < self.deleted.len() && self.deleted@[k] == j as usize;
                        assert(g0.deleted@[k] == j as usize);
                    }
                    if g0.deleted@.contains(j as usize) {
                        let k = choose|k: int| 0 <= k < g0.deleted.len() && g0.deleted@[k] == j as usize;
                        assert(self.deleted@[k] == j as usize);
                    }
                }
            }
            assert forall|i2: int, k: int| self.live(i2) && 0 <= k < self.out_adj()[i2].len()
                implies self.live((#[trigger] self.out_adj()[i2][k]).index as int) by {
                let y = self.out_adj()[i2][k];
                lemma_without_contains(g0.out_adj()[i2], node);
                assert(self.out_adj()[i2].contains(y));
                let k0 = choose|k0: int| 0 <= k0 < g0.out_adj()[i2].len() && g0.out_adj()[i2][k0] == y;
                assert(g0.live(g0.out_adj()[i2][k0].index as int));
            }
            assert forall|i2: int, k: int| self.live(i2) && 0 <= k < self.in_adj()[i2].len()
                implies self.live((#[trigger] self.in_adj()[i2][k]).index as int) by {
                let y = self.in_adj()[i2][k];
                lemma_without_contains(g0.in_adj()[i2], node);
                assert(self.in_adj()[i2].contains(y));
                let k0 = choose|k0: int| 0 <= k0 < g0.in_adj()[i2].len() && g0.in_adj()[i2][k0] == y;
                assert(g0.live(g0.in_adj()[i2][k0].index as int));
            }
            assert forall|a: NodeIndex, b: NodeIndex| self.valid_node(a) && self.valid_node(b)
                implies #[trigger] count_of(self.out_adj()[a.index as int], b) == #[trigger] count_of(self.in_adj()[b.index as int], a) by {
                assert(g0.valid_node(a) && g0.valid_node(b));
                assert(count_of(g0.out_adj()[a.index as int], b) == count_of(g0.in_adj()[b.index as int], a));
                lemma_without_count(g0.out_adj()[a.index as int], node, b);
                lemma_without_count(g0.in_adj()[b.index as int], node, a);
            }
            if !self.allow_self_loop {
                assert forall|a: NodeIndex| self.valid_node(a) implies !(#[trigger] self.out_adj()[a.index as int]).contains(a) by {
                    assert(g0.valid_node(a));
                    lemma_without_contains(g0.out_adj()[a.index as int], node);
                }
            }
            if !self.allow_pseudo_graph {
                assert forall|i2: int| self.live(i2) implies (#[trigger] self.out_adj()[i2]).no_duplicates() by {
                    assert(g0.live(i2));
                    lemma_without_contains(g0.out_adj()[i2], node);
                }
            }
        }
        Ok(())
    }

    /// Counting the nodes below `n` is counting the slots below `n` that are
    /// not free.
    proof fn lemma_live_count(&self, n: int)
        requires
            self.wf(),
            0 <= n <= self.nodes.len(),
        ensures
            self.live_nodes_upto(n).len() == slots_not_in(self.deleted@, n),
        decreases n,
    {
        if n > 0 {
            self.lemma_live_count(n - 1);
            assert(self.nodes@[n - 1] is None <==> self.deleted@.contains(((n - 1) as int) as usize));
        }
    }

    /// The number of nodes.
    pub fn node_count(&self) -> (r: usize)
        requires
            self.wf(),
        ensures
            r == self.live_nodes().len(),
    {
        proof {
            self.lemma_live_count(self.nodes.len() as int);
            lemma_slots_not_in(self.deleted@, self.nodes.len() as int);
        }
        self.nodes.len() - self.deleted.len()
    }

    /// The number of edges: the total length of the outgoing lists.
    pub fn edge_count(&self) -> (r: usize)
        requires
            self.wf(),
            total_len(self.out_adj()) <= usize::MAX,
        ensures
            r == total_len(self.out_adj()),
    {
        let adj = self.out_lists();
        let mut sum: usize = 0;
        let mut i: usize = 0;
        while i < adj.len()
            invariant
                i <= adj.len(),
                adjacency(adj@) == self.out_adj(),
                total_len(self.out_adj()) <= usize::MAX,
                sum == total_len(self.out_adj().subrange(0, i as int)),
            decreases adj.len() - i,
        {
            proof {
                crate::graph::lemma_total_len_prefix(self.out_adj(), i + 1);
                assert(adj@[i as int]@ == self.out_adj()[i as int]);
            }
            sum = sum + adj[i].len();
            i = i + 1;
        }
        proof {
            assert(self.out_adj().subrange(0, i as int) =~= self.out_adj());
        }
        sum
    }

    /// A copy of the outgoing lists of all slots (empty for a deleted slot).
    fn out_lists(&self) -> (r: Vec<Vec<NodeIndex>>)
        ensures
            r.len() == self.nodes.len(),
            adjacency(r@) == self.out_adj(),
    {
        let mut r: Vec<Vec<NodeIndex>> = Vec::new();
        let mut i: usize = 0;
        while i < self.nodes.len()
            invariant
                i <= self.nodes.len(),
                r.len() == i,
                forall|j: int| 0 <= j < i ==> (#[trigger] r@[j])@ == self.out_adj()[j],
            decreases self.nodes.len() - i,
        {
            match &self.nodes[i] {
                Some(d) => r.push(copy_nodes(&d.links_out)),
                None => r.push(Vec::new()),
            }
            i = i + 1;
        }
        proof {
            assert(adjacency(r@) =~= self.out_adj());
        }
        r
    }

    /// Every outgoing list of a well-formed graph names slots of the graph.
    proof fn lemma_closed(&self)
        requires
            self.wf(),
        ensures
            closed_adjacency(self.out_adj()),
    {
        assert forall|i: int, k: int| 0 <= i < self.out_adj().len() && 0 <= k < self.out_adj()[i].len()
            implies (#[trigger] self.out_adj()[i][k]).index < self.out_adj().len() by {
            assert(self.live(i));
        }
    }

    /// The nodes, in slot order.
    pub fn iter_node(&self) -> (r: Vec<NodeIndex>)
        ensures
            r@ == self.live_nodes(),
    {
        let mut r: Vec<NodeIndex> = Vec::new();
        let mut i: usize = 0;
        while i < self.nodes.len()
            invariant
                i <= self.nodes.len(),
                r@ == self.live_nodes_upto(i as int),
            decreases self.nodes.len() - i,
        {
            if self.is_node_valid(NodeIndex { index: i }) {
                r.push(NodeIndex { index: i });
            }
            i = i + 1;
        }
        r
    }

    /// The values of the nodes, in slot order.
    pub fn iter_value(&self) -> (r: Vec<&T>)
        ensures
            r@.len() == self.live_nodes().len(),
            forall|k: int| 0 <= k < r@.len() ==> *r@[k] == self.value_at(self.live_nodes()[k].index as int),
    {
        let mut r: Vec<&T> = Vec::new();
        let mut i: usize = 0;
        while i < self.nodes.len()
            invariant
                i <= self.nodes.len(),
                r@.len() == self.live_nodes_upto(i as int).len(),
                forall|k: int| 0 <= k < r@.len() ==> *r@[k] == self.value_at(self.live_nodes_upto(i as int)[k].index as int),
            decreases self.nodes.len() - i,
        {
            match &self.nodes[i] {
                Some(d) => r.push(&d.value),
                None => {},
            }
            i = i + 1;
        }
        r
    }

    /// The node in the lowest slot, if there is one.
    pub fn first_node(&self) -> (r: Option<NodeIndex>)
        ensures
            self.live_nodes().len() > 0 ==> r == Some(self.live_nodes()[0]),
            self.live_nodes().len() == 0 ==> r == None::<NodeIndex>,
    {
        let nodes = self.iter_node();
        if nodes.len() > 0 {
            Some(nodes[0])
        } else {
            None
        }
    }

    /// Every edge, as a pair (from, to), ordered by the slot of the first
    /// node and then by its outgoing list.
    pub fn iter_edges(&self) -> (r: Vec<(NodeIndex, NodeIndex)>)
        ensures
            r@ == self.arcs_upto(self.nodes.len() as int),
    {
        let mut r: Vec<(NodeIndex, NodeIndex)> = Vec::new();
        let mut i: usize = 0;
        while i < self.nodes.len()
            invariant
                i <= self.nodes.len(),
                r@ == self.arcs_upto(i as int),
            decreases self.nodes.len() - i,
        {
            let from = NodeIndex { index: i };
            if self.is_node_valid(from) {
                let outs = self.out_list(i);
                let ghost base = r@;
                let mut k: usize = 0;
                while k < outs.len()
                    invariant
                        k <= outs.len(),
                        from.index == i,
                        outs@ == self.out_adj()[i as int],
                        r@ == base + pairs_from(from, outs@.subrange(0, k as int)),
                    decreases outs.len() - k,
                {
                    r.push((from, outs[k]));
                    k = k + 1;
                    proof {
                        assert(r@ =~= base + pairs_from(from, outs@.subrange(0, k as int)));
                    }
                }
                proof {
                    assert(outs@.subrange(0, k as int) =~= outs@);
                }
            }
            i = i + 1;
        }
        r
    }

    /// The nodes that the edges out of `node` go to, one entry per edge; an
    /// error if `node` names no node.
    pub fn try_neighbors_out(&self, node: NodeIndex) -> (r: Result<&Vec<NodeIndex>, NodeError>)
        ensures
            self.valid_node(node) ==> (r matches Ok(v) && v@ == self.out_adj()[node.index as int]),
            !self.valid_node(node) ==> r == Err::<&Vec<NodeIndex>, NodeError>(NodeError::InvalidIndex(node)),
    {
        if !self.is_node_valid(node) {
            return Err(NodeError::InvalidIndex(node));
        }
        Ok(self.out_list(node.index))
    }

    /// The nodes that the edges into `node` come from, one entry per edge;
    /// an error if `node` names no node.
    pub fn try_neighbors_in(&self, node: NodeIndex) -> (r: Result<&Vec<NodeIndex>, NodeError>)
        ensures
            self.valid_node(node) ==> (r matches Ok(v) && v@ == self.in_adj()[node.index as int]),
            !self.valid_node(node) ==> r == Err::<&Vec<NodeIndex>, NodeError>(NodeError::InvalidIndex(node)),
    {
        if !self.is_node_valid(node) {
            return Err(NodeError::InvalidIndex(node));
        }
        Ok(self.in_list(node.index))
    }

    /// The outgoing list of `node`, to be changed in place; an error if
    /// `node` names no node. What is written there is not checked: the graph
    /// stays well formed only if each edge is kept at both ends.
    pub fn try_neighbors_out_mut(&mut self, node: NodeIndex) -> (r: Result<&mut Vec<NodeIndex>, NodeError>)
        ensures
            old(self).valid_node(node) ==> (r matches Ok(v) && {
                &&& v@ == old(self).out_adj()[node.index as int]
                &&& final(self).nodes@ == old(self).nodes@.update(node.index as int, Some(NodeData {
                    value: old(self).value_at(node.index as int),
                    links_in: old(self).data(node.index as int).links_in,
                    links_out: *final(v),
                }))
            }),
            !old(self).valid_node(node) ==> r == Err::<&mut Vec<NodeIndex>, NodeError>(NodeError::InvalidIndex(node)),
            final(self).deleted@ == old(self).deleted@,
            final(self).allow_self_loop == old(self).allow_self_loop,
            final(self).allow_pseudo_graph == old(self).allow_pseudo_graph,
            !old(self).valid_node(node) ==> final(self).nodes@ == old(self).nodes@,
    {
        if !self.is_node_valid(node) {
            return Err(NodeError::InvalidIndex(node));
        }
        match &mut self.nodes[node.index] {
            Some(d) => Ok(&mut d.links_out),
            None => vstd::pervasive::unreached(),
        }
    }

    /// The incoming list of `node`, to be changed in place; an error if
    /// `node` names no node. What is written there is not checked: the graph
    /// stays well formed only if each edge is kept at both ends.
    pub fn try_neighbors_in_mut(&mut self, node: NodeIndex) -> (r: Result<&mut Vec<NodeIndex>, NodeError>)
        ensures
            old(self).valid_node(node) ==> (r matches Ok(v) && {
                &&& v@ == old(self).in_adj()[node.index as int]
                &&& final(self).nodes@ == old(self).nodes@.update(node.index as int, Some(NodeData {
                    value: old(self).value_at(node.index as int),
                    links_in: *final(v),
                    links_out: old(self).data(node.index as int).links_out,
                }))
            }),
            !old(self).valid_node(node) ==> r == Err::<&mut Vec<NodeIndex>, NodeError>(NodeError::InvalidIndex(node)),
            final(self).deleted@ == old(self).deleted@,
            final(self).allow_self_loop == old(self).allow_self_loop,
            final(self).allow_pseudo_graph == old(self).allow_pseudo_graph,
            !old(self).valid_node(node) ==> final(self).nodes@ == old(self).nodes@,
    {
        if !self.is_node_valid(node) {
            return Err(NodeError::InvalidIndex(node));
        }
        match &mut self.nodes[node.index] {
            Some(d) => Ok(&mut d.links_in),
            None => vstd::pervasive::unreached(),
        }
    }

    /// Checks that every entry of `nodes` names a node; the first that does
    /// not, as an error.
    fn check_all(&self, nodes: &[NodeIndex]) -> (r: Result<(), NodeError>)
        ensures
            match self.first_invalid(nodes@) {
                Some(x) => r == Err::<(), NodeError>(NodeError::InvalidIndex(x)),
                None => r == Ok::<(), NodeError>(()),
            },
    {
        let mut k: usize = 0;
        while k < nodes.len()
            invariant
                k <= nodes.len(),
                self.first_invalid(nodes@.subrange(0, k as int)) == None::<NodeIndex>,
            decreases nodes.len() - k,
        {
            proof {
                assert(nodes@.subrange(0, k + 1).drop_last() =~= nodes@.subrange(0, k as int));
            }
            if !self.is_node_valid(nodes[k]) {
                proof {
                    self.lemma_first_invalid_extend(nodes@, k as int + 1);
                }
                return Err(NodeError::InvalidIndex(nodes[k]));
            }
            k = k + 1;
        }
        proof {
            assert(nodes@.subrange(0, k as int) =~= nodes@);
        }
        Ok(())
    }

    /// Once a prefix of `nodes` holds an entry that names no node, the first
    /// such entry of the prefix is the first of all `nodes`.
    proof fn lemma_first_invalid_extend(&self, nodes: Seq<NodeIndex>, k: int)
        requires
            0 <= k <= nodes.len(),
            self.first_invalid(nodes.subrange(0, k)) is Some,
        ensures
            self.first_invalid(nodes) == self.first_invalid(nodes.subrange(0, k)),
        decreases nodes.len() - k,
    {
        if k < nodes.len() {
            assert(nodes.subrange(0, k + 1).drop_last() =~= nodes.subrange(0, k));
            self.lemma_first_invalid_extend(nodes, k + 1);
        } else {
            assert(nodes.subrange(0, k) =~= nodes);
        }
    }

    /// When no entry of `nodes` fails to name a node, each entry names a node.
    proof fn lemma_first_invalid_none(&self, nodes: Seq<NodeIndex>, k: int)
        requires
            self.first_invalid(nodes) == None::<NodeIndex>,
            0 <= k < nodes.len(),
        ensures
            self.valid_node(nodes[k]),
        decreases nodes.len(),
    {
        if k < nodes.len() - 1 {
            assert(nodes.drop_last()[k] == nodes[k]);
            self.lemma_first_invalid_none(nodes.drop_last(), k);
        }
    }

    /// Joins every two entries of `nodes` by an edge each way: `nodes[0]`
    /// with each later entry in turn, then `nodes[1]`, and so on. An error,
    /// before any change, if an entry names no node; where self-loops are
    /// not allowed, an error, with the pairs before it joined, at the first
    /// pair that holds the same node twice.
    pub fn try_connect_all(&mut self, nodes: &[NodeIndex]) -> (r: Result<(), NodeError>)
        requires
            old(self).wf(),
        ensures
            final(self).wf(),
            final(self).same_nodes(old(self)),
            match old(self).first_invalid(nodes@) {
                Some(x) => r == Err::<(), NodeError>(NodeError::InvalidIndex(x)) && final(self).same_edges(old(self)),
                None => if old(self).allow_self_loop || nodes@.no_duplicates() {
                    r == Ok::<(), NodeError>(())
                        && final(self).arc_state() == arc_rows(old(self).arc_state(), nodes@, nodes@.len() as int, old(self).allow_pseudo_graph)
                } else {
                    exists|i: int, j: int| #[trigger] is_first_repeat(nodes@, i, j)
                        && r == Err::<(), NodeError>(NodeError::SelfLoop(nodes@[i]))
                        && final(self).arc_state() == arc_row(
                            arc_rows(old(self).arc_state(), nodes@, i, old(self).allow_pseudo_graph),
                            nodes@, i, j, old(self).allow_pseudo_graph)
                },
            },
    {
        let ghost g0 = *self;
        self.check_all(nodes)?;
        let ghost pseudo = g0.allow_pseudo_graph;
        let n = nodes.len();
        let mut i: usize = 0;
        while i < n
            invariant
                n == nodes.len(),
                g0 == *old(self),
                pseudo == g0.allow_pseudo_graph,
                self.wf(),
                self.same_nodes(&g0),
                g0.first_invalid(nodes@) == None::<NodeIndex>,
                i <= n,
                self.arc_state() == arc_rows(g0.arc_state(), nodes@, i as int, pseudo),
                !g0.allow_self_loop ==> forall|i2: int, j2: int| 0 <= i2 < i && i2 < j2 < n ==> nodes@[i2] != nodes@[j2],
            decreases n - i,
        {
            let mut j: usize = i + 1;
            while j < n
                invariant
                    n == nodes.len(),
                    g0 == *old(self),
                    pseudo == g0.allow_pseudo_graph,
                    self.wf(),
                    self.same_nodes(&g0),
                    g0.first_invalid(nodes@) == None::<NodeIndex>,
                    i < n,
                    i + 1 <= j <= n,
                    self.arc_state() == arc_row(arc_rows(g0.arc_state(), nodes@, i as int, pseudo), nodes@, i as int, j as int, pseudo),
                    !g0.allow_self_loop ==> forall|i2: int, j2: int| 0 <= i2 < i && i2 < j2 < n ==> nodes@[i2] != nodes@[j2],
                    !g0.allow_self_loop ==> forall|j2: int| i < j2 < j ==> nodes@[i as int] != nodes@[j2],
                decreases n - j,
            {
                proof {
                    g0.lemma_first_invalid_none(nodes@, i as int);
                    g0.lemma_first_invalid_none(nodes@, j as int);
                }
                let res = self.try_connect(nodes[i], nodes[j]);
                if res.is_err() {
                    proof {
                        assert(is_first_repeat(nodes@, i as int, j as int));
                    }
                    return res;
                }
                let res2 = self.try_connect(nodes[j], nodes[i]);
                if res2.is_err() {
                    return res2;
                }
                j = j + 1;
            }
            i = i + 1;
        }
        proof {
            if !g0.allow_self_loop {
                assert(nodes@.no_duplicates());
            }
        }
        Ok(())
    }

    /// Puts `new_value` into `node` and returns the value it held. An error
    /// if `node` names no node.
    pub fn try_insert(&mut self, node: NodeIndex, new_value: T) -> (r: Result<T, NodeError>)
        requires
            old(self).wf(),
        ensures
            final(self).wf(),
            final(self).same_edges(old(self)),
            final(self).nodes.len() == old(self).nodes.len(),
            final(self).deleted@ == old(self).deleted@,
            final(self).allow_self_loop == old(self).allow_self_loop,
            final(self).allow_pseudo_graph == old(self).allow_pseudo_graph,
            forall|i: int| #![trigger final(self).live(i)] 0 <= i < final(self).nodes.len() ==> final(self).live(i) == old(self).live(i),
            forall|i: int| #![trigger final(self).value_at(i)] final(self).live(i) && i != node.index
                ==> final(self).value_at(i) == old(self).value_at(i),
            old(self).valid_node(node) ==> {
                &&& r == Ok::<T, NodeError>(old(self).value_at(node.index as int))
                &&& final(self).value_at(node.index as int) == new_value
            },
            !old(self).valid_node(node) ==> {
                &&& r == Err::<T, NodeError>(NodeError::InvalidIndex(node))
                &&& final(self).same_nodes(old(self))
            },
    {
        if !self.is_node_valid(node) {
            return Err(NodeError::InvalidIndex(node));
        }
        let ghost g0 = *self;
        let mut d = self.take_data(node.index);
        let mut v = new_value;
        std::mem::swap(&mut d.value, &mut v);
        self.put_data(node.index, d);
        proof {
            assert(self.out_adj() =~= g0.out_adj());
            assert(self.in_adj() =~= g0.in_adj());
            assert forall|i: int| #![trigger self.live(i)] 0 <= i < self.nodes.len() implies self.live(i) == g0.live(i) by {}
            assert forall|i: int| 0 <= i < self.nodes.len() implies (self.nodes@[i] is None <==> #[trigger] self.deleted@.contains(i as usize)) by {
                assert(g0.nodes@[i] is None <==> g0.deleted@.contains(i as usize));
            }
        }
        Ok(v)
    }

    /// The value held by `node`; an error if `node` names no node.
    pub fn try_value(&self, node: NodeIndex) -> (r: Result<&T, NodeError>)
        ensures
            self.valid_node(node) ==> r == Ok::<&T, NodeError>(&self.value_at(node.index as int)),
            !self.valid_node(node) ==> r == Err::<&T, NodeError>(NodeError::InvalidIndex(node)),
    {
        if !self.is_node_valid(node) {
            return Err(NodeError::InvalidIndex(node));
        }
        match &self.nodes[node.index] {
            Some(d) => Ok(&d.value),
            None => vstd::pervasive::unreached(),
        }
    }

    /// The value held by `node`, to be changed in place; an error if `node`
    /// names no node.
    pub fn try_value_mut(&mut self, node: NodeIndex) -> (r: Result<&mut T, NodeError>)
        ensures
            old(self).valid_node(node) ==> (r matches Ok(v) && {
                &&& *v == old(self).value_at(node.index as int)
                &&& final(self).nodes@ == old(self).nodes@.update(node.index as int, Some(NodeData {
                    value: *final(v),
                    links_in: old(self).data(node.index as int).links_in,
                    links_out: old(self).data(node.index as int).links_out,
                }))
            }),
            !old(self).valid_node(node) ==> {
                &&& r == Err::<&mut T, NodeError>(NodeError::InvalidIndex(node))
                &&& final(self).nodes@ == old(self).nodes@
            },
            final(self).deleted@ == old(self).deleted@,
            final(self).allow_self_loop == old(self).allow_self_loop,
            final(self).allow_pseudo_graph == old(self).allow_pseudo_graph,
    {
        if !self.is_node_valid(node) {
            return Err(NodeError::InvalidIndex(node));
        }
        match &mut self.nodes[node.index] {
            Some(d) => Ok(&mut d.value),
            None => vstd::pervasive::unreached(),
        }
    }

    /// The value held by the node `node`.
    pub fn value(&self, node: NodeIndex) -> (r: &T)
        requires
            self.valid_node(node),
        ensures
            *r == self.value_at(node.index as int),
    {
        match &self.nodes[node.index] {
            Some(d) => &d.value,
            None => vstd::pervasive::unreached(),
        }
    }

    /// The value held by the node `node`, to be changed in place.
    pub fn value_mut(&mut self, node: NodeIndex) -> (r: &mut T)
        requires
            old(self).valid_node(node),
        ensures
            *r == old(self).value_at(node.index as int),
            final(self).nodes@ == old(self).nodes@.update(node.index as int, Some(NodeData {
                value: *final(r),
                links_in: old(self).data(node.index as int).links_in,
                links_out: old(self).data(node.index as int).links_out,
            })),
            final(self).deleted@ == old(self).deleted@,
            final(self).allow_self_loop == old(self).allow_self_loop,
            final(self).allow_pseudo_graph == old(self).allow_pseudo_graph,
    {
        match &mut self.nodes[node.index] {
            Some(d) => &mut d.value,
            None => vstd::pervasive::unreached(),
        }
    }

    /// The nodes that the edges out of the node `node` go to.
    pub fn neighbors_out(&self, node: NodeIndex) -> (r: &Vec<NodeIndex>)
        requires
            self.valid_node(node),
        ensures
            r@ == self.out_adj()[node.index as int],
    {
        self.out_list(node.index)
    }

    /// The nodes that the edges into the node `node` come from.
    pub fn neighbors_in(&self, node: NodeIndex) -> (r: &Vec<NodeIndex>)
        requires
            self.valid_node(node),
        ensures
            r@ == self.in_adj()[node.index as int],
    {
        self.in_list(node.index)
    }

    /// The nodes that the edges out of the node `node` go to.
    pub fn neighbors(&self, node: NodeIndex) -> (r: &Vec<NodeIndex>)
        requires
            self.valid_node(node),
        ensures
            r@ == self.out_adj()[node.index as int],
    {
        self.neighbors_out(node)
    }

    /// A copy of the nodes that the edges out of `node` go to; an error if
    /// `node` names no node.
    pub fn try_iter_neighbors_out(&self, node: NodeIndex) -> (r: Result<Vec<NodeIndex>, NodeError>)
        ensures
            self.valid_node(node) ==> (r matches Ok(v) && v@ == self.out_adj()[node.index as int]),
            !self.valid_node(node) ==> r == Err::<Vec<NodeIndex>, NodeError>(NodeError::InvalidIndex(node)),
    {
        if !self.is_node_valid(node) {
            return Err(NodeError::InvalidIndex(node));
        }
        Ok(copy_nodes(self.out_list(node.index)))
    }

    /// A copy of the nodes that the edges into `node` come from; an error if
    /// `node` names no node.
    pub fn try_iter_neighbors_in(&self, node: NodeIndex) -> (r: Result<Vec<NodeIndex>, NodeError>)
        ensures
            self.valid_node(node) ==> (r matches Ok(v) && v@ == self.in_adj()[node.index as int]),
            !self.valid_node(node) ==> r == Err::<Vec<NodeIndex>, NodeError>(NodeError::InvalidIndex(node)),
    {
        if !self.is_node_valid(node) {
            return Err(NodeError::InvalidIndex(node));
        }
        Ok(copy_nodes(self.in_list(node.index)))
    }

    /// A copy of the nodes that the edges out of the node `node` go to.
    pub fn iter_neighbors_out(&self, node: NodeIndex) -> (r: Vec<NodeIndex>)
        requires
            self.valid_node(node),
        ensures
            r@ == self.out_adj()[node.index as int],
    {
        copy_nodes(self.out_list(node.index))
    }

    /// A copy of the nodes that the edges into the node `node` come from.
    pub fn iter_neighbors_in(&self, node: NodeIndex) -> (r: Vec<NodeIndex>)
        requires
            self.valid_node(node),
        ensures
            r@ == self.in_adj()[node.index as int],
    {
        copy_nodes(self.in_list(node.index))
    }

    /// A copy of the nodes that the edges out of the node `node` go to.
    pub fn iter_neighbors(&self, node: NodeIndex) -> (r: Vec<NodeIndex>)
        requires
            self.valid_node(node),
        ensures
            r@ == self.out_adj()[node.index as int],
    {
        self.iter_neighbors_out(node)
    }

    /// The nodes reachable from `start` along edges, in breadth-first order
    /// (outgoing lists in order); an error if `start` names no node.
    pub fn try_bfs(&self, start: NodeIndex) -> (r: Result<Vec<NodeIndex>, NodeError>)
        requires
            self.wf(),
        ensures
            self.valid_node(start) ==> (r matches Ok(v) && is_bfs_order(self.out_adj(), start, v@)),
            !self.valid_node(start) ==> r == Err::<Vec<NodeIndex>, NodeError>(NodeError::InvalidIndex(start)),
    {
        if !self.is_node_valid(start) {
            return Err(NodeError::InvalidIndex(start));
        }
        proof {
            self.lemma_closed();
        }
        let adj = self.out_lists();
        Ok(bfs_order(&adj, start))
    }

    /// The nodes reachable from `start` along edges, in depth-first preorder
    /// (outgoing lists in order); an error if `start` names no node.
    pub fn try_dfs(&self, start: NodeIndex) -> (r: Result<Vec<NodeIndex>, NodeError>)
        requires
            self.wf(),
        ensures
            self.valid_node(start) ==> (r matches Ok(v) && is_dfs_order(self.out_adj(), start, v@)),
            !self.valid_node(start) ==> r == Err::<Vec<NodeIndex>, NodeError>(NodeError::InvalidIndex(start)),
    {
        if !self.is_node_valid(start) {
            return Err(NodeError::InvalidIndex(start));
        }
        proof {
            self.lemma_closed();
        }
        let adj = self.out_lists();
        Ok(dfs_order(&adj, start))
    }

    /// The nodes reachable from the node `node`, in breadth-first order.
    pub fn bfs(&self, node: NodeIndex) -> (r: Vec<NodeIndex>)
        requires
            self.wf(),
            self.valid_node(node),
        ensures
            is_bfs_order(self.out_adj(), node, r@),
    {
        proof {
            self.lemma_closed();
        }
        let adj = self.out_lists();
        bfs_order(&adj, node)
    }

    /// The nodes reachable from the node `node`, in depth-first preorder.
    pub fn dfs(&self, node: NodeIndex) -> (r: Vec<NodeIndex>)
        requires
            self.wf(),
            self.valid_node(node),
        ensures
            is_dfs_order(self.out_adj(), node, r@),
    {
        proof {
            self.lemma_closed();
        }
        let adj = self.out_lists();
        dfs_order(&adj, node)
    }

    /// Whether there is an edge from the node `from_node` to the node `to_node`.
    pub fn are_connected(&self, from_node: NodeIndex, to_node: NodeIndex) -> (r: bool)
        requires
            self.valid_node(from_node),
            self.valid_node(to_node),
        ensures
            r == self.out_adj()[from_node.index as int].contains(to_node),
    {
        vec_contains(self.out_list(from_node.index), to_node)
    }

    /// The number of edges from the node `from_node` to the node `to_node`.
    pub fn edge_count_between(&self, from_node: NodeIndex, to_node: NodeIndex) -> (r: usize)
        requires
            self.valid_node(from_node),
            self.valid_node(to_node),
        ensures
            r == self.arcs(from_node, to_node),
    {
        count_in(self.out_list(from_node.index), to_node)
    }

    /// Adds an edge from the node `a` to the node `b`, which may not be the
    /// same node unless self-loops are allowed. Nothing is added when the
    /// edge exists and parallel edges are not allowed.
    pub fn connect(&mut self, a: NodeIndex, b: NodeIndex)
        requires
            old(self).wf(),
            old(self).valid_node(a),
            old(self).valid_node(b),
            !old(self).allow_self_loop ==> a != b,
        ensures
            final(self).wf(),
            final(self).same_nodes(old(self)),
            final(self).arc_state() == arc_added(old(self).out_adj(), old(self).in_adj(), a, b, old(self).allow_pseudo_graph),
    {
        let _ = self.try_connect(a, b);
    }

    /// Takes out every edge from the node `a` to the node `b`; there must be one.
    pub fn disconnect(&mut self, a: NodeIndex, b: NodeIndex)
        requires
            old(self).wf(),
            old(self).valid_node(a),
            old(self).valid_node(b),
            old(self).arcs(a, b) > 0,
        ensures
            final(self).wf(),
            final(self).same_nodes(old(self)),
            final(self).arc_state() == arcs_removed(old(self).out_adj(), old(self).in_adj(), a, b),
    {
        let _ = self.try_disconnect(a, b);
    }

    /// Takes out every edge between the nodes `from_node` and `to_node`, in
    /// both directions, and returns how many were taken out; there must be one.
    pub fn remove_all_edges(&mut self, from_node: NodeIndex, to_node: NodeIndex) -> (r: usize)
        requires
            old(self).wf(),
            old(self).valid_node(from_node),
            old(self).valid_node(to_node),
            old(self).arcs(from_node, to_node) + old(self).arcs(to_node, from_node) <= usize::MAX,
            old(self).arcs(from_node, to_node) + (if from_node != to_node { old(self).arcs(to_node, from_node) } else { 0 }) > 0,
        ensures
            final(self).wf(),
            final(self).same_nodes(old(self)),
            ({
                let once = arcs_removed(old(self).out_adj(), old(self).in_adj(), from_node, to_node);
                let both = arcs_removed(once.0, once.1, to_node, from_node);
                final(self).arc_state() == (if from_node != to_node { both } else { once })
            }),
            r == old(self).arcs(from_node, to_node) + (if from_node != to_node { old(self).arcs(to_node, from_node) } else { 0 }),
    {
        match self.try_remove_all_edges(from_node, to_node) {
            Ok(n) => n,
            Err(_) => 0,
        }
    }

    /// Deletes the node `idx` with all its edges; its slot stays empty.
    pub fn del(&mut self, idx: NodeIndex)
        requires
            old(self).wf(),
            old(self).valid_node(idx),
        ensures
            final(self).wf(),
            final(self).nodes.len() == old(self).nodes.len(),
            final(self).deleted@ == old(self).deleted@.push(idx.index),
            final(self).allow_self_loop == old(self).allow_self_loop,
            final(self).allow_pseudo_graph == old(self).allow_pseudo_graph,
            forall|i: int| #![trigger final(self).live(i)]
                0 <= i < final(self).nodes.len() ==> final(self).live(i) == (old(self).live(i) && i != idx.index),
            forall|i: int| #![trigger final(self).value_at(i)] final(self).live(i) ==> final(self).value_at(i) == old(self).value_at(i),
            final(self).out_adj() == detached_arcs(old(self).out_adj(), idx),
            final(self).in_adj() == detached_arcs(old(self).in_adj(), idx),
    {
        let _ = self.try_del(idx);
    }

    /// Joins every two of the entries of `nodes` by an edge each way; the
    /// entries must be distinct unless self-loops are allowed.
    pub fn connect_all(&mut self, nodes: &[NodeIndex])
        requires
            old(self).wf(),
            old(self).first_invalid(nodes@) == None::<NodeIndex>,
            old(self).allow_self_loop || nodes@.no_duplicates(),
        ensures
            final(self).wf(),
            final(self).same_nodes(old(self)),
            final(self).arc_state() == arc_rows(old(self).arc_state(), nodes@, nodes@.len() as int, old(self).allow_pseudo_graph),
    {
        let _ = self.try_connect_all(nodes);
    }
}

impl<T> Default for WUGraph<T> {
    /// An empty graph that allows neither self-loops nor parallel edges.
    fn default() -> (g: Self)
        ensures
            g.wf(),
            g.nodes.len() == 0,
            g.deleted.len() == 0,
            !g.allow_self_loop,
            !g.allow_pseudo_graph,
    {
        Self::new(false, false)
    }
}

/// `graph[node]` is the value of `node`, which must name a node.
impl<T> core::ops::Index<NodeIndex> for WUGraph<T> {
    type Output = T;

    fn index(&self, node: NodeIndex) -> (r: &T)
        ensures
            *r == self.value_at(node.index as int),
    {
        self.value(node)
    }
}

impl<T> vstd::std_specs::core::IndexSpecImpl<NodeIndex> for WUGraph<T> {
    open spec fn index_req(&self, node: &NodeIndex) -> bool {
        self.valid_node(*node)
    }
}

} // verus!
