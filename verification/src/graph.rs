use vstd::prelude::*;
use crate::index::{NodeError, NodeIndex};
use crate::seq_util::{
    copy_nodes, index_in, lemma_distinct_slots_below, lemma_slots_not_in, lemma_swap_out, position, slots_contain,
    slots_not_in, swap_out, vec_contains,
};
use vstd::std_specs::cmp::PartialEqSpec;
use crate::traverse::{adjacency, bfs_order, closed_adjacency, dfs_order, is_bfs_order, is_dfs_order};

verus! {

/// An undirected simple graph. Node `i` lives in slot `i`: its value is
/// `values[i]` and its neighbours are `links[i]`. Slots of deleted nodes are
/// listed in `free` and are reused, last freed first, by new nodes; `count`
/// is the number of nodes.
pub struct Graph<T> {
    pub values: Vec<T>,
    pub links: Vec<Vec<NodeIndex>>,
    pub free: Vec<usize>,
    pub count: usize,
}

/// `adj` with an edge between `a` and `b` recorded at both ends, unless
/// `b` is already a neighbour of `a`.
pub open spec fn linked(adj: Seq<Seq<NodeIndex>>, a: NodeIndex, b: NodeIndex) -> Seq<Seq<NodeIndex>> {
    if adj[a.index as int].contains(b) {
        adj
    } else {
        adj.update(a.index as int, adj[a.index as int].push(b)).update(b.index as int, adj[b.index as int].push(a))
    }
}

/// `adj` with the edge between `a` and `b` taken out at both ends, each list
/// losing its entry as `Vec::swap_remove` does.
pub open spec fn unlinked(adj: Seq<Seq<NodeIndex>>, a: NodeIndex, b: NodeIndex) -> Seq<Seq<NodeIndex>> {
    adj.update(b.index as int, swap_out(adj[b.index as int], a)).update(a.index as int, swap_out(adj[a.index as int], b))
}

/// `adj` once node `x` is deleted: its own list is emptied and it is taken
/// out, as `Vec::swap_remove` does, of the list of each of its neighbours.
pub open spec fn detached(adj: Seq<Seq<NodeIndex>>, x: NodeIndex) -> Seq<Seq<NodeIndex>> {
    Seq::new(
        adj.len(),
        |i: int|
            if i == x.index as int {
                Seq::empty()
            } else if adj[x.index as int].contains(NodeIndex { index: i as usize }) {
                swap_out(adj[i], x)
            } else {
                adj[i]
            },
    )
}

/// `adj` after joining `nodes[i]` to each of `nodes[i + 1 .. j]`, in turn.
pub open spec fn link_row(adj: Seq<Seq<NodeIndex>>, nodes: Seq<NodeIndex>, i: int, j: int) -> Seq<Seq<NodeIndex>>
    decreases j - i,
{
    if j <= i + 1 {
        adj
    } else {
        linked(link_row(adj, nodes, i, j - 1), nodes[i], nodes[j - 1])
    }
}

/// `adj` after joining, for each `i` below `rows` in turn, `nodes[i]` to
/// every later entry of `nodes`.
pub open spec fn link_rows(adj: Seq<Seq<NodeIndex>>, nodes: Seq<NodeIndex>, rows: int) -> Seq<Seq<NodeIndex>>
    decreases rows,
{
    if rows <= 0 {
        adj
    } else {
        link_row(link_rows(adj, nodes, rows - 1), nodes, rows - 1, nodes.len() as int)
    }
}

/// `(i, j)` is the first pair of positions of `nodes`, in the order
/// `(0, 1), (0, 2), .., (1, 2), ..`, that hold the same node.
pub open spec fn is_first_repeat(nodes: Seq<NodeIndex>, i: int, j: int) -> bool {
    &&& 0 <= i < j < nodes.len()
    &&& nodes[i] == nodes[j]
    &&& forall|i2: int, j2: int| 0 <= i2 < j2 < nodes.len() && nodes[i2] == nodes[j2]
        ==> i < i2 || (i == i2 && j <= j2)
}

/// `adj` after joining `nodes[k]` to `nodes[(k + 1) % n]` for each `k`
/// below `steps` in turn, where `n` is the length of `nodes`.
pub open spec fn link_cycle(adj: Seq<Seq<NodeIndex>>, nodes: Seq<NodeIndex>, steps: int) -> Seq<Seq<NodeIndex>>
    decreases steps,
{
    if steps <= 0 {
        adj
    } else {
        linked(link_cycle(adj, nodes, steps - 1), nodes[steps - 1], nodes[steps % (nodes.len() as int)])
    }
}

/// The sum of the lengths of the lists of `adj`.
pub open spec fn total_len(adj: Seq<Seq<NodeIndex>>) -> nat
    decreases adj.len(),
{
    if adj.len() == 0 {
        0
    } else {
        total_len(adj.drop_last()) + adj.last().len()
    }
}

/// The pairs `(x, y)` for the entries `y` of `s` above `x`, in list order.
pub open spec fn upper_pairs(x: NodeIndex, s: Seq<NodeIndex>) -> Seq<(NodeIndex, NodeIndex)>
    decreases s.len(),
{
    if s.len() == 0 {
        Seq::empty()
    } else if x.index < s.last().index {
        upper_pairs(x, s.drop_last()).push((x, s.last()))
    } else {
        upper_pairs(x, s.drop_last())
    }
}

impl<T: PartialEq> Graph<T> {
    /// The first node, in slot order, at or after slot `i` whose value equals `value`.
    pub open spec fn find_from(&self, value: T, i: int) -> Option<NodeIndex>
        decreases self.values.len() - i,
    {
        if i < 0 || i >= self.values.len() {
            None
        } else if self.live(i) && self.values@[i].eq_spec(&value) {
            Some(NodeIndex { index: i as usize })
        } else {
            self.find_from(value, i + 1)
        }
    }

    /// The first node, in slot order, whose value equals `value`; `None` if
    /// there is none.
    pub fn find(&self, value: T) -> (r: Option<NodeIndex>)
        ensures
            T::obeys_eq_spec() ==> r == self.find_from(value, 0),
    {
        let mut i: usize = 0;
        while i < self.values.len()
            invariant
                i <= self.values.len(),
                T::obeys_eq_spec() ==> self.find_from(value, 0) == self.find_from(value, i as int),
            decreases self.values.len() - i,
        {
            if self.is_node_valid(&NodeIndex { index: i }) && self.values[i] == value {
                return Some(NodeIndex { index: i });
            }
            i = i + 1;
        }
        None
    }
}

impl<T> Graph<T> {
    /// The nodes in slots below `n`, in slot order.
    pub open spec fn live_nodes_upto(&self, n: int) -> Seq<NodeIndex>
        decreases n,
    {
        if n <= 0 {
            Seq::empty()
        } else if self.live(n - 1) {
            self.live_nodes_upto(n - 1).push(NodeIndex { index: (n - 1) as usize })
        } else {
            self.live_nodes_upto(n - 1)
        }
    }

    /// All nodes, in slot order.
    pub open spec fn live_nodes(&self) -> Seq<NodeIndex> {
        self.live_nodes_upto(self.values.len() as int)
    }

    /// Each edge once, as a pair whose first node is in the lower slot: by
    /// slot of the first node, then in the order of its neighbour list;
    /// for the nodes in slots below `n`.
    pub open spec fn edges_upto(&self, n: int) -> Seq<(NodeIndex, NodeIndex)>
        decreases n,
    {
        if n <= 0 {
            Seq::empty()
        } else if self.live(n - 1) {
            self.edges_upto(n - 1) + upper_pairs(NodeIndex { index: (n - 1) as usize }, self.adj()[n - 1])
        } else {
            self.edges_upto(n - 1)
        }
    }

    /// The first of `a` and `b` that names no node, as an error.
    pub open spec fn pair_error(&self, a: NodeIndex, b: NodeIndex) -> Option<NodeError> {
        if !self.valid_node(a) {
            Some(NodeError::InvalidIndex(a))
        } else if !self.valid_node(b) {
            Some(NodeError::InvalidIndex(b))
        } else {
            None
        }
    }

    /// The first entry of `nodes` that names no node.
    pub open spec fn first_invalid(&self, nodes: Seq<NodeIndex>) -> Option<NodeIndex>
        decreases nodes.len(),
    {
        if nodes.len() == 0 {
            None
        } else {
            match self.first_invalid(nodes.drop_last()) {
                Some(x) => Some(x),
                None => if self.valid_node(nodes.last()) {
                    None
                } else {
                    Some(nodes.last())
                },
            }
        }
    }

    /// `self` and `other` hold the same values, free slots and count.
    pub open spec fn same_nodes(&self, other: &Self) -> bool {
        &&& self.values@ == other.values@
        &&& self.free@ == other.free@
        &&& self.count == other.count
    }

    /// `a` and `b` are joined by an edge.
    pub open spec fn has_edge(&self, a: NodeIndex, b: NodeIndex) -> bool {
        self.adj()[a.index as int].contains(b)
    }

    /// Slot `i` holds a node.
    pub open spec fn live(&self, i: int) -> bool {
        &&& 0 <= i < self.values.len()
        &&& !self.free@.contains(i as usize)
    }

    /// `x` names a node of the graph.
    pub open spec fn valid_node(&self, x: NodeIndex) -> bool {
        self.live(x.index as int)
    }

    /// The neighbour lists of all slots.
    pub open spec fn adj(&self) -> Seq<Seq<NodeIndex>> {
        adjacency(self.links@)
    }

    /// The graph is well formed: every deleted slot is listed once in `free`
    /// and has no neighbours; the neighbours of a node are nodes, listed once,
    /// never the node itself, and every edge is recorded at both ends.
    pub open spec fn wf(&self) -> bool {
        &&& self.links.len() == self.values.len()
        &&& self.free@.no_duplicates()
        &&& forall|k: int| 0 <= k < self.free.len() ==> (#[trigger] self.free@[k]) < self.values.len()
        &&& self.count + self.free.len() == self.values.len()
        &&& forall|i: int| 0 <= i < self.values.len() && !self.live(i) ==> (#[trigger] self.adj()[i]).len() == 0
        &&& forall|i: int| self.live(i) ==> (#[trigger] self.adj()[i]).no_duplicates()
        &&& forall|i: int, k: int| self.live(i) && 0 <= k < self.adj()[i].len() ==> {
            let j = (#[trigger] self.adj()[i][k]).index as int;
            &&& self.live(j)
            &&& j != i
            &&& self.adj()[j].contains(NodeIndex { index: i as usize })
        }
    }

    /// An empty graph.
    pub fn new() -> (g: Self)
        ensures
            g.wf(),
            g.values@.len() == 0,
            g.links@.len() == 0,
            g.free@.len() == 0,
            g.count == 0,
    {
        Graph { values: Vec::new(), links: Vec::new(), free: Vec::new(), count: 0 }
    }

    /// Adds a node holding `value` and returns its handle. The slot freed last
    /// is reused if there is one; otherwise a new slot is appended.
    pub fn get_new_node(&mut self, value: T) -> (x: NodeIndex)
        requires
            old(self).wf(),
            old(self).values.len() < usize::MAX,
        ensures
            final(self).wf(),
            final(self).count == old(self).count + 1,
            old(self).free.len() > 0 ==> {
                &&& x.index == old(self).free@.last()
                &&& final(self).free@ == old(self).free@.drop_last()
                &&& final(self).values@ == old(self).values@.update(x.index as int, value)
                &&& final(self).adj() == old(self).adj()
            },
            old(self).free.len() == 0 ==> {
                &&& x.index == old(self).values.len()
                &&& final(self).free@ == old(self).free@
                &&& final(self).values@ == old(self).values@.push(value)
                &&& final(self).adj() == old(self).adj().push(Seq::empty())
            },
            final(self).valid_node(x),
    {
        let ghost g0 = *self;
        match self.free.pop() {
            Some(idx) => {
                self.values.set(idx, value);
                self.count = self.count + 1;
                proof {
                    assert(g0.free@.last() == idx);
                    assert(self.free@ =~= g0.free@.drop_last());
                    assert(self.adj() =~= g0.adj());
                    assert forall|i: int| #![auto] 0 <= i < self.values.len() implies (self.live(i) <==> (g0.live(i) || i == idx)) by {
                        if g0.free@.contains(i as usize) && i != idx {
                            let k = choose|k: int| 0 <= k < g0.free.len() && g0.free@[k] == i as usize;
                            assert(self.free@[k] == i as usize);
                        }
                        if self.free@.contains(i as usize) {
                            let k = choose|k: int| 0 <= k < self.free.len() && self.free@[k] == i as usize;
                            assert(g0.free@[k] == i as usize);
                            assert(k != g0.free.len() - 1);
                        }
                    }
                    assert(!self.free@.contains(idx)) by {
                        if self.free@.contains(idx) {
                            let k = choose|k: int| 0 <= k < self.free.len() && self.free@[k] == idx;
                            assert(g0.free@[k] == g0.free@[g0.free.len() - 1]);
                        }
                    }
                }
                NodeIndex { index: idx }
            },
            None => {
                let idx = self.values.len();
                self.values.push(value);
                self.links.push(Vec::new());
                self.count = self.count + 1;
                proof {
                    assert(self.adj() =~= g0.adj().push(Seq::empty()));
                    assert forall|i: int| #![auto] 0 <= i < self.values.len() implies (self.live(i) <==> (g0.live(i) || i == idx)) by {}
                }
                NodeIndex { index: idx }
            },
        }
    }

    /// Whether `node` names a node of the graph.
    pub fn is_node_valid(&self, node: &NodeIndex) -> (r: bool)
        ensures
            r == self.valid_node(*node),
    {
        node.index < self.values.len() && !slots_contain(&self.free, node.index)
    }

    /// Whether `node` names a node of the graph.
    pub fn has_node(&self, node: &NodeIndex) -> (r: bool)
        ensures
            r == self.valid_node(*node),
    {
        self.is_node_valid(node)
    }

    /// The number of nodes.
    pub fn node_count(&self) -> (r: usize)
        requires
            self.wf(),
        ensures
            r == self.count,
            r == self.live_nodes().len(),
    {
        proof {
            self.lemma_live_count(self.values.len() as int);
            lemma_slots_not_in(self.free@, self.values.len() as int);
        }
        self.count
    }

    /// Counting the nodes below `n` is counting the slots below `n` that are
    /// not free.
    proof fn lemma_live_count(&self, n: int)
        requires
            self.wf(),
            0 <= n <= self.values.len(),
        ensures
            self.live_nodes_upto(n).len() == slots_not_in(self.free@, n),
        decreases n,
    {
        if n > 0 {
            self.lemma_live_count(n - 1);
        }
    }

    /// Whether `node` and `node2` are joined by an edge; an error if either
    /// names no node.
    pub fn try_are_connected(&self, node: NodeIndex, node2: NodeIndex) -> (r: Result<bool, NodeError>)
        requires
            self.wf(),
        ensures
            match self.pair_error(node, node2) {
                Some(e) => r == Err::<bool, NodeError>(e),
                None => r == Ok::<bool, NodeError>(self.has_edge(node, node2)),
            },
    {
        if !self.is_node_valid(&node) {
            return Err(NodeError::InvalidIndex(node));
        }
        if !self.is_node_valid(&node2) {
            return Err(NodeError::InvalidIndex(node2));
        }
        Ok(vec_contains(&self.links[node.index], node2))
    }

    /// Joins `node` and `node2` by an edge, unless they are already joined.
    /// An error if either names no node, or if they are the same node.
    pub fn try_connect(&mut self, node: NodeIndex, node2: NodeIndex) -> (r: Result<(), NodeError>)
        requires
            old(self).wf(),
        ensures
            final(self).wf(),
            final(self).same_nodes(old(self)),
            match old(self).pair_error(node, node2) {
                Some(e) => r == Err::<(), NodeError>(e) && final(self).adj() == old(self).adj(),
                None => if node == node2 {
                    r == Err::<(), NodeError>(NodeError::SelfLoop(node)) && final(self).adj() == old(self).adj()
                } else {
                    r == Ok::<(), NodeError>(()) && final(self).adj() == linked(old(self).adj(), node, node2)
                },
            },
    {
        if !self.is_node_valid(&node) {
            return Err(NodeError::InvalidIndex(node));
        }
        if !self.is_node_valid(&node2) {
            return Err(NodeError::InvalidIndex(node2));
        }
        if node == node2 {
            return Err(NodeError::SelfLoop(node));
        }
        if !vec_contains(&self.links[node.index], node2) {
            self.link(node, node2);
        }
        Ok(())
    }

    /// Records an edge between the distinct nodes `a` and `b`, which are not
    /// yet joined.
    fn link(&mut self, a: NodeIndex, b: NodeIndex)
        requires
            old(self).wf(),
            old(self).valid_node(a),
            old(self).valid_node(b),
            a != b,
            !old(self).has_edge(a, b),
        ensures
            final(self).wf(),
            final(self).same_nodes(old(self)),
            final(self).adj() == linked(old(self).adj(), a, b),
    {
        let ghost g0 = *self;
        proof {
            if g0.adj()[b.index as int].contains(a) {
                let k = choose|k: int| 0 <= k < g0.adj()[b.index as int].len() && g0.adj()[b.index as int][k] == a;
                assert(g0.adj()[b.index as int][k] == a);
            }
        }
        self.links[a.index].push(b);
        self.links[b.index].push(a);
        proof {
            let na = g0.adj()[a.index as int].push(b);
            let nb = g0.adj()[b.index as int].push(a);
            assert(self.adj() =~= g0.adj().update(a.index as int, na).update(b.index as int, nb));
            assert(self.adj() =~= linked(g0.adj(), a, b));
            assert forall|i: int, k: int| self.live(i) && 0 <= k < self.adj()[i].len() implies {
                let j = (#[trigger] self.adj()[i][k]).index as int;
                &&& self.live(j)
                &&& j != i
                &&& self.adj()[j].contains(NodeIndex { index: i as usize })
            } by {
                let j = self.adj()[i][k].index as int;
                if i == a.index as int {
                    if k == na.len() - 1 {
                        assert(self.adj()[j][nb.len() - 1] == a);
                    } else {
                        assert(self.adj()[i][k] == g0.adj()[i][k]);
                        let w = choose|w: int| 0 <= w < g0.adj()[j].len() && g0.adj()[j][w] == NodeIndex { index: i as usize };
                        if j == b.index as int {
                            assert(self.adj()[j][w] == NodeIndex { index: i as usize });
                        } else {
                            assert(self.adj()[j][w] == NodeIndex { index: i as usize });
                        }
                    }
                } else if i == b.index as int {
                    if k == nb.len() - 1 {
                        assert(self.adj()[j][na.len() - 1] == b);
                    } else {
                        assert(self.adj()[i][k] == g0.adj()[i][k]);
                        let w = choose|w: int| 0 <= w < g0.adj()[j].len() && g0.adj()[j][w] == NodeIndex { index: i as usize };
                        assert(self.adj()[j][w] == NodeIndex { index: i as usize });
                    }
                } else {
                    assert(self.adj()[i][k] == g0.adj()[i][k]);
                    let w = choose|w: int| 0 <= w < g0.adj()[j].len() && g0.adj()[j][w] == NodeIndex { index: i as usize };
                    assert(self.adj()[j][w] == NodeIndex { index: i as usize });
                }
            }
        }
    }

    /// Removes the edge between `node` and `node2`. An error if either names
    /// no node, or if they are not joined.
    pub fn try_disconnect(&mut self, node: NodeIndex, node2: NodeIndex) -> (r: Result<(), NodeError>)
        requires
            old(self).wf(),
        ensures
            final(self).wf(),
            final(self).same_nodes(old(self)),
            match old(self).pair_error(node, node2) {
                Some(e) => r == Err::<(), NodeError>(e) && final(self).adj() == old(self).adj(),
                None => if old(self).has_edge(node, node2) {
                    r == Ok::<(), NodeError>(()) && final(self).adj() == unlinked(old(self).adj(), node, node2)
                } else {
                    r == Err::<(), NodeError>(NodeError::NoEdge(node, node2)) && final(self).adj() == old(self).adj()
                },
            },
    {
        if !self.is_node_valid(&node) {
            return Err(NodeError::InvalidIndex(node));
        }
        if !self.is_node_valid(&node2) {
            return Err(NodeError::InvalidIndex(node2));
        }
        if vec_contains(&self.links[node.index], node2) {
            self.unlink(node, node2);
            Ok(())
        } else {
            proof {
                let g = *self;
                if g.adj()[node2.index as int].contains(node) {
                    let k = choose|k: int| 0 <= k < g.adj()[node2.index as int].len() && g.adj()[node2.index as int][k] == node;
                    assert(g.adj()[node2.index as int][k] == node);
                }
            }
            Err(NodeError::NoEdge(node, node2))
        }
    }

    /// Takes out the edge between the joined nodes `a` and `b`.
    fn unlink(&mut self, a: NodeIndex, b: NodeIndex)
        requires
            old(self).wf(),
            old(self).valid_node(a),
            old(self).valid_node(b),
            old(self).has_edge(a, b),
        ensures
            final(self).wf(),
            final(self).same_nodes(old(self)),
            final(self).adj() == unlinked(old(self).adj(), a, b),
    {
        let ghost g0 = *self;
        let ghost sa = g0.adj()[a.index as int];
        let ghost sb = g0.adj()[b.index as int];
        proof {
            let k = choose|k: int| 0 <= k < sa.len() && sa[k] == b;
            assert(sa[k] == b);
            assert(sb.contains(a));
            lemma_swap_out(sa, b);
            lemma_swap_out(sb, a);
        }
        let pb = position(&self.links[b.index], a).unwrap();
        proof {
            assert(index_in(sb, a) == pb as int) by {
                let w = index_in(sb, a);
                assert(sb[w] == a);
            }
        }
        self.links[b.index].swap_remove(pb);
        let pa = position(&self.links[a.index], b).unwrap();
        proof {
            assert(a != b);
            assert(self.links@[a.index as int]@ == sa);
            assert(index_in(sa, b) == pa as int) by {
                let w = index_in(sa, b);
                assert(sa[w] == b);
            }
        }
        self.links[a.index].swap_remove(pa);
        proof {
            let na = swap_out(sa, b);
            let nb = swap_out(sb, a);
            assert(self.adj() =~= unlinked(g0.adj(), a, b));
            assert forall|i: int, k: int| self.live(i) && 0 <= k < self.adj()[i].len() implies {
                let j = (#[trigger] self.adj()[i][k]).index as int;
                &&& self.live(j)
                &&& j != i
                &&& self.adj()[j].contains(NodeIndex { index: i as usize })
            } by {
                let y = self.adj()[i][k];
                let j = y.index as int;
                let xi = NodeIndex { index: i as usize };
                if i == a.index as int {
                    assert(na.contains(y));
                    assert(sa.contains(y) && y != b);
                    let k0 = choose|k0: int| 0 <= k0 < sa.len() && sa[k0] == y;
                    assert(g0.adj()[i][k0] == y);
                    assert(g0.adj()[j].contains(xi));
                } else if i == b.index as int {
                    assert(nb.contains(y));
                    assert(sb.contains(y) && y != a);
                    let k0 = choose|k0: int| 0 <= k0 < sb.len() && sb[k0] == y;
                    assert(g0.adj()[i][k0] == y);
                    assert(g0.adj()[j].contains(xi));
                } else {
                    assert(g0.adj()[i][k] == y);
                    assert(g0.adj()[j].contains(xi));
                    if j == a.index as int {
                        assert(xi != b);
                        assert(na.contains(xi));
                    } else if j == b.index as int {
                        assert(xi != a);
                        assert(nb.contains(xi));
                    }
                }
            }
        }
    }

    /// Deletes `node` with all its edges; its slot is freed for reuse. An
    /// error if `node` names no node.
    pub fn try_del(&mut self, node: NodeIndex) -> (r: Result<(), NodeError>)
        requires
            old(self).wf(),
        ensures
            final(self).wf(),
            old(self).valid_node(node) ==> {
                &&& r == Ok::<(), NodeError>(())
                &&& final(self).values@ == old(self).values@
                &&& final(self).free@ == old(self).free@.push(node.index)
                &&& final(self).count == old(self).count - 1
                &&& final(self).adj() == detached(old(self).adj(), node)
            },
            !old(self).valid_node(node) ==> {
                &&& r == Err::<(), NodeError>(NodeError::InvalidIndex(node))
                &&& final(self).same_nodes(old(self))
                &&& final(self).adj() == old(self).adj()
            },
    {
        if !self.is_node_valid(&node) {
            return Err(NodeError::InvalidIndex(node));
        }
        let ghost g0 = *self;
        let ghost x = node.index as int;
        let ghost s0 = g0.adj()[x];
        let neighbors = copy_nodes(&self.links[node.index]);
        let mut t: usize = 0;
        while t < neighbors.len()
            invariant
                self.wf(),
                self.same_nodes(&g0),
                g0.wf(),
                g0.valid_node(node),
                x == node.index as int,
                s0 == g0.adj()[x],
                neighbors@ == s0,
                t <= neighbors.len(),
                self.adj().len() == g0.adj().len(),
                self.adj()[x].len() == s0.len() - t,
                forall|y: NodeIndex| self.adj()[x].contains(y) <==> exists|t2: int| t <= t2 < s0.len() && s0[t2] == y,
                forall|i: int| 0 <= i < self.adj().len() && i != x ==> #[trigger] self.adj()[i] == (
                    if exists|t2: int| 0 <= t2 < t && (#[trigger] s0[t2]).index == i {
                        swap_out(g0.adj()[i], node)
                    } else {
                        g0.adj()[i]
                    }),
            decreases neighbors.len() - t,
        {
            let nb = neighbors[t];
            let ghost g1 = *self;
            proof {
                assert(s0[t as int] == nb);
                assert(g0.adj()[x].contains(nb));
                assert(g1.adj()[x].contains(nb));
                assert(g1.valid_node(nb));
                assert(nb.index != x);
                assert forall|t2: int| 0 <= t2 < t implies (#[trigger] s0[t2]).index != nb.index by {
                    assert(s0[t2] != s0[t as int]);
                }
                assert(g1.adj()[nb.index as int] == g0.adj()[nb.index as int]);
                assert(g0.adj()[nb.index as int].contains(node));
                lemma_swap_out(g1.adj()[x], nb);
            }
            self.unlink(nb, node);
            proof {
                assert(self.adj()[x] == swap_out(g1.adj()[x], nb));
                assert forall|y: NodeIndex| self.adj()[x].contains(y) <==> exists|t2: int| t + 1 <= t2 < s0.len() && s0[t2] == y by {
                    if exists|t2: int| t + 1 <= t2 < s0.len() && s0[t2] == y {
                        let t2 = choose|t2: int| t + 1 <= t2 < s0.len() && s0[t2] == y;
                        assert(s0[t2] != s0[t as int]);
                        assert(g1.adj()[x].contains(y));
                    }
                    if self.adj()[x].contains(y) {
                        assert(g1.adj()[x].contains(y) && y != nb);
                        let t2 = choose|t2: int| t <= t2 < s0.len() && s0[t2] == y;
                        assert(t2 != t);
                    }
                }
                assert forall|i: int| 0 <= i < self.adj().len() && i != x implies #[trigger] self.adj()[i] == (
                    if exists|t2: int| 0 <= t2 < t + 1 && (#[trigger] s0[t2]).index == i {
                        swap_out(g0.adj()[i], node)
                    } else {
                        g0.adj()[i]
                    }) by {
                    if i == nb.index as int {
                        assert(s0[t as int].index == i);
                    } else {
                        if exists|t2: int| 0 <= t2 < t + 1 && (#[trigger] s0[t2]).index == i {
                            let t2 = choose|t2: int| 0 <= t2 < t + 1 && (#[trigger] s0[t2]).index == i;
                            assert(t2 != t);
                        }
                    }
                }
            }
            t = t + 1;
        }
        let ghost g2 = *self;
        proof {
            lemma_distinct_slots_below(g2.free@, g2.values.len() as int, node.index);
        }
        self.free.push(node.index);
        self.count = self.count - 1;
        proof {
            assert(g2.adj()[x].len() == 0);
            assert(self.adj() =~= detached(g0.adj(), node)) by {
                assert forall|i: int| 0 <= i < self.adj().len() implies self.adj()[i] == detached(g0.adj(), node)[i] by {
                    if i != x {
                        let xi = NodeIndex { index: i as usize };
                        if g0.adj()[x].contains(xi) {
                            let t2 = choose|t2: int| 0 <= t2 < s0.len() && s0[t2] == xi;
                            assert(s0[t2].index == i);
                        } else {
                            if exists|t2: int| 0 <= t2 < s0.len() && (#[trigger] s0[t2]).index == i {
                                let t2 = choose|t2: int| 0 <= t2 < s0.len() && (#[trigger] s0[t2]).index == i;
                                assert(s0[t2] == xi);
                            }
                        }
                    }
                }
            }
            assert(self.free@[g2.free.len() as int] == node.index);
            assert forall|i: int| #![auto] 0 <= i < self.values.len() implies (self.live(i) <==> (g2.live(i) && i != x)) by {
                if i == x {
                    assert(self.free@[g2.free.len() as int] == i as usize);
                }
                if self.free@.contains(i as usize) && i != x {
                    let k = choose|k: int| 0 <= k < self.free.len() && self.free@[k] == i as usize;
                    assert(g2.free@[k] == i as usize);
                }
                if g2.free@.contains(i as usize) {
                    let k = choose|k: int| 0 <= k < g2.free.len() && g2.free@[k] == i as usize;
                    assert(self.free@[k] == i as usize);
                }
            }
            assert(self.free@.no_duplicates()) by {
                assert forall|k1: int, k2: int| 0 <= k1 < k2 < self.free.len() implies self.free@[k1] != self.free@[k2] by {
                    if k2 == self.free.len() - 1 {
                        assert(g2.free@[k1] == self.free@[k1]);
                    }
                }
            }
            assert forall|i: int, k: int| self.live(i) && 0 <= k < self.adj()[i].len() implies {
                let j = (#[trigger] self.adj()[i][k]).index as int;
                &&& self.live(j)
                &&& j != i
                &&& self.adj()[j].contains(NodeIndex { index: i as usize })
            } by {
                let y = self.adj()[i][k];
                let j = y.index as int;
                assert(g2.adj()[i][k] == y);
                assert(g2.live(j));
                if j == x {
                    let xi = NodeIndex { index: i as usize };
                    assert(g0.adj()[i].contains(y) || swap_out(g0.adj()[i], node).contains(y));
                    lemma_swap_out(g0.adj()[i], node);
                    if g0.adj()[x].contains(xi) {
                        assert(false);
                    } else {
                        assert(g0.adj()[i].contains(node));
                        let k0 = choose|k0: int| 0 <= k0 < g0.adj()[i].len() && g0.adj()[i][k0] == node;
                        assert(g0.adj()[i][k0] == node);
                    }
                }
            }
        }
        Ok(())
    }

    /// Puts `new_value` into `node` and returns the value it held. An error
    /// if `node` names no node.
    pub fn try_insert(&mut self, node: NodeIndex, new_value: T) -> (r: Result<T, NodeError>)
        requires
            old(self).wf(),
        ensures
            final(self).wf(),
            final(self).adj() == old(self).adj(),
            final(self).free@ == old(self).free@,
            final(self).count == old(self).count,
            old(self).valid_node(node) ==> {
                &&& r == Ok::<T, NodeError>(old(self).values@[node.index as int])
                &&& final(self).values@ == old(self).values@.update(node.index as int, new_value)
            },
            !old(self).valid_node(node) ==> {
                &&& r == Err::<T, NodeError>(NodeError::InvalidIndex(node))
                &&& final(self).values@ == old(self).values@
            },
    {
        if !self.is_node_valid(&node) {
            return Err(NodeError::InvalidIndex(node));
        }
        let mut v = new_value;
        self.values.set_and_swap(node.index, &mut v);
        proof {
            assert(self.adj() =~= old(self).adj());
        }
        Ok(v)
    }

    /// The value held by `node`; an error if `node` names no node.
    pub fn try_value(&self, node: NodeIndex) -> (r: Result<&T, NodeError>)
        requires
            self.wf(),
        ensures
            self.valid_node(node) ==> r == Ok::<&T, NodeError>(&self.values@[node.index as int]),
            !self.valid_node(node) ==> r == Err::<&T, NodeError>(NodeError::InvalidIndex(node)),
    {
        if !self.is_node_valid(&node) {
            return Err(NodeError::InvalidIndex(node));
        }
        Ok(&self.values[node.index])
    }

    /// The value held by `node`, to be changed in place; an error if `node`
    /// names no node.
    pub fn try_value_mut(&mut self, node: NodeIndex) -> (r: Result<&mut T, NodeError>)
        requires
            old(self).wf(),
        ensures
            old(self).valid_node(node) ==> (r matches Ok(v) && {
                &&& *v == old(self).values@[node.index as int]
                &&& final(self).values@ == old(self).values@.update(node.index as int, *final(v))
                &&& final(self).links@ == old(self).links@
                &&& final(self).free@ == old(self).free@
                &&& final(self).count == old(self).count
            }),
            !old(self).valid_node(node) ==> {
                &&& r == Err::<&mut T, NodeError>(NodeError::InvalidIndex(node))
                &&& final(self).values@ == old(self).values@
                &&& final(self).links@ == old(self).links@
                &&& final(self).free@ == old(self).free@
                &&& final(self).count == old(self).count
            },
    {
        if !self.is_node_valid(&node) {
            return Err(NodeError::InvalidIndex(node));
        }
        Ok(&mut self.values[node.index])
    }

    /// The neighbour list of `node`; an error if `node` names no node.
    pub fn try_links(&self, node: NodeIndex) -> (r: Result<&Vec<NodeIndex>, NodeError>)
        requires
            self.wf(),
        ensures
            self.valid_node(node) ==> (r matches Ok(v) && v@ == self.adj()[node.index as int]),
            !self.valid_node(node) ==> r == Err::<&Vec<NodeIndex>, NodeError>(NodeError::InvalidIndex(node)),
    {
        if !self.is_node_valid(&node) {
            return Err(NodeError::InvalidIndex(node));
        }
        Ok(&self.links[node.index])
    }

    /// The neighbour list of `node`, to be changed in place; an error if
    /// `node` names no node. What is written there is not checked: the graph
    /// stays well formed only if the edge is kept at both ends.
    pub fn try_links_mut(&mut self, node: NodeIndex) -> (r: Result<&mut Vec<NodeIndex>, NodeError>)
        requires
            old(self).wf(),
        ensures
            final(self).same_nodes(old(self)),
            old(self).valid_node(node) ==> (r matches Ok(v) && {
                &&& v@ == old(self).adj()[node.index as int]
                &&& final(self).links@ == old(self).links@.update(node.index as int, *final(v))
            }),
            !old(self).valid_node(node) ==> {
                &&& r == Err::<&mut Vec<NodeIndex>, NodeError>(NodeError::InvalidIndex(node))
                &&& final(self).links@ == old(self).links@
            },
    {
        if !self.is_node_valid(&node) {
            return Err(NodeError::InvalidIndex(node));
        }
        Ok(&mut self.links[node.index])
    }

    /// The neighbours of `node`, in list order; an error if `node` names no node.
    pub fn try_iter_neighbors(&self, node: NodeIndex) -> (r: Result<Vec<NodeIndex>, NodeError>)
        requires
            self.wf(),
        ensures
            self.valid_node(node) ==> (r matches Ok(v) && v@ == self.adj()[node.index as int]),
            !self.valid_node(node) ==> r == Err::<Vec<NodeIndex>, NodeError>(NodeError::InvalidIndex(node)),
    {
        if !self.is_node_valid(&node) {
            return Err(NodeError::InvalidIndex(node));
        }
        Ok(copy_nodes(&self.links[node.index]))
    }

    /// The nodes reachable from `start`, in breadth-first order (neighbours
    /// in list order); an error if `start` names no node.
    pub fn try_bfs(&self, start: NodeIndex) -> (r: Result<Vec<NodeIndex>, NodeError>)
        requires
            self.wf(),
        ensures
            self.valid_node(start) ==> (r matches Ok(v) && is_bfs_order(self.adj(), start, v@)),
            !self.valid_node(start) ==> r == Err::<Vec<NodeIndex>, NodeError>(NodeError::InvalidIndex(start)),
    {
        if !self.is_node_valid(&start) {
            return Err(NodeError::InvalidIndex(start));
        }
        proof {
            self.lemma_closed();
        }
        Ok(bfs_order(&self.links, start))
    }

    /// The nodes reachable from `start`, in depth-first preorder (neighbours
    /// in list order); an error if `start` names no node.
    pub fn try_dfs(&self, start: NodeIndex) -> (r: Result<Vec<NodeIndex>, NodeError>)
        requires
            self.wf(),
        ensures
            self.valid_node(start) ==> (r matches Ok(v) && is_dfs_order(self.adj(), start, v@)),
            !self.valid_node(start) ==> r == Err::<Vec<NodeIndex>, NodeError>(NodeError::InvalidIndex(start)),
    {
        if !self.is_node_valid(&start) {
            return Err(NodeError::InvalidIndex(start));
        }
        proof {
            self.lemma_closed();
        }
        Ok(dfs_order(&self.links, start))
    }

    /// Every neighbour list of a well-formed graph names slots of the graph.
    proof fn lemma_closed(&self)
        requires
            self.wf(),
        ensures
            closed_adjacency(self.adj()),
    {
        assert forall|i: int, k: int| 0 <= i < self.adj().len() && 0 <= k < self.adj()[i].len()
            implies (#[trigger] self.adj()[i][k]).index < self.adj().len() by {
            if !self.live(i) {
                assert(self.adj()[i].len() == 0);
            }
        }
    }

    /// The nodes, in slot order.
    pub fn iter_node(&self) -> (r: Vec<NodeIndex>)
        requires
            self.wf(),
        ensures
            r@ == self.live_nodes(),
    {
        let mut r: Vec<NodeIndex> = Vec::new();
        let mut i: usize = 0;
        while i < self.values.len()
            invariant
                i <= self.values.len(),
                r@ == self.live_nodes_upto(i as int),
            decreases self.values.len() - i,
        {
            if self.is_node_valid(&NodeIndex { index: i }) {
                r.push(NodeIndex { index: i });
            }
            i = i + 1;
        }
        r
    }

    /// The values of the nodes, in slot order.
    pub fn iter_value(&self) -> (r: Vec<&T>)
        requires
            self.wf(),
        ensures
            r@.len() == self.live_nodes().len(),
            forall|k: int| 0 <= k < r@.len() ==> *r@[k] == self.values@[self.live_nodes()[k].index as int],
    {
        let mut r: Vec<&T> = Vec::new();
        let mut i: usize = 0;
        while i < self.values.len()
            invariant
                i <= self.values.len(),
                r@.len() == self.live_nodes_upto(i as int).len(),
                forall|k: int| 0 <= k < r@.len() ==> *r@[k] == self.values@[self.live_nodes_upto(i as int)[k].index as int],
                forall|k: int| 0 <= k < self.live_nodes_upto(i as int).len() ==> (#[trigger] self.live_nodes_upto(i as int)[k]).index < i,
            decreases self.values.len() - i,
        {
            if self.is_node_valid(&NodeIndex { index: i }) {
                r.push(&self.values[i]);
            }
            i = i + 1;
        }
        r
    }

    /// The node in the lowest slot, if there is one.
    pub fn first_node(&self) -> (r: Option<NodeIndex>)
        requires
            self.wf(),
        ensures
            self.live_nodes().len() > 0 ==> r == Some(self.live_nodes()[0]),
            self.live_nodes().len() == 0 ==> r == None::<NodeIndex>,
    {
        let nodes = self.iter_node();
        if nodes.len() > 0 {
            Some(nodes[0])
        } else {
            None
        }
    }

    /// The number of edges: half the total length of the neighbour lists.
    pub fn edge_count(&self) -> (r: usize)
        requires
            self.wf(),
            total_len(self.adj()) <= usize::MAX,
        ensures
            r == total_len(self.adj()) / 2,
    {
        let mut sum: usize = 0;
        let mut i: usize = 0;
        while i < self.links.len()
            invariant
                i <= self.links.len(),
                total_len(self.adj()) <= usize::MAX,
                sum == total_len(self.adj().subrange(0, i as int)),
            decreases self.links.len() - i,
        {
            proof {
                assert(self.adj().subrange(0, i + 1).drop_last() =~= self.adj().subrange(0, i as int));
                lemma_total_len_prefix(self.adj(), i + 1);
            }
            sum = sum + self.links[i].len();
            i = i + 1;
        }
        proof {
            assert(self.adj().subrange(0, i as int) =~= self.adj());
        }
        sum / 2
    }

    /// Each edge once, as a pair whose first node is in the lower slot,
    /// ordered by the first node's slot and then by its neighbour list.
    pub fn iter_edges(&self) -> (r: Vec<(NodeIndex, NodeIndex)>)
        requires
            self.wf(),
        ensures
            r@ == self.edges_upto(self.values.len() as int),
    {
        let mut r: Vec<(NodeIndex, NodeIndex)> = Vec::new();
        let mut i: usize = 0;
        while i < self.values.len()
            invariant
                self.wf(),
                i <= self.values.len(),
                r@ == self.edges_upto(i as int),
            decreases self.values.len() - i,
        {
            let from = NodeIndex { index: i };
            if self.is_node_valid(&from) {
                let nbrs = &self.links[i];
                let ghost base = r@;
                let mut k: usize = 0;
                while k < nbrs.len()
                    invariant
                        k <= nbrs.len(),
                        from.index == i,
                        i < self.values.len(),
                        self.wf(),
                        nbrs@ == self.adj()[i as int],
                        r@ == base + upper_pairs(from, nbrs@.subrange(0, k as int)),
                    decreases nbrs.len() - k,
                {
                    let to = nbrs[k];
                    let ghost prev = upper_pairs(from, nbrs@.subrange(0, k as int));
                    proof {
                        let sub = nbrs@.subrange(0, k + 1);
                        assert(sub.drop_last() =~= nbrs@.subrange(0, k as int));
                        assert(sub.last() == to);
                        if i < to.index {
                            assert(upper_pairs(from, sub) == prev.push((from, to)));
                        } else {
                            assert(upper_pairs(from, sub) == prev);
                        }
                    }
                    if i < to.index {
                        r.push((from, to));
                        proof {
                            assert(r@ =~= base + prev.push((from, to)));
                        }
                    }
                    k = k + 1;
                }
                proof {
                    assert(nbrs@.subrange(0, k as int) =~= nbrs@);
                }
            }
            i = i + 1;
        }
        r
    }

    /// Checks that every entry of `nodes` names a node; the first that does
    /// not, as an error.
    fn check_all(&self, nodes: &[NodeIndex]) -> (r: Result<(), NodeError>)
        ensures
            match self.first_invalid(nodes@) {
                Some(x) => r == Err::<(), NodeError>(NodeError::InvalidIndex(x)),
                None => r == Ok::<(), NodeError>(()),
            },
    {
        let mut k: usize = 0;
        while k < nodes.len()
            invariant
                k <= nodes.len(),
                self.first_invalid(nodes@.subrange(0, k as int)) == None::<NodeIndex>,
            decreases nodes.len() - k,
        {
            proof {
                assert(nodes@.subrange(0, k + 1).drop_last() =~= nodes@.subrange(0, k as int));
            }
            if !self.is_node_valid(&nodes[k]) {
                proof {
                    self.lemma_first_invalid_extend(nodes@, k as int + 1);
                }
                return Err(NodeError::InvalidIndex(nodes[k]));
            }
            k = k + 1;
        }
        proof {
            assert(nodes@.subrange(0, k as int) =~= nodes@);
        }
        Ok(())
    }

    /// Once a prefix of `nodes` holds an entry that names no node, the first
    /// such entry of the prefix is the first of all `nodes`.
    proof fn lemma_first_invalid_extend(&self, nodes: Seq<NodeIndex>, k: int)
        requires
            0 <= k <= nodes.len(),
            self.first_invalid(nodes.subrange(0, k)) is Some,
        ensures
            self.first_invalid(nodes) == self.first_invalid(nodes.subrange(0, k)),
        decreases nodes.len() - k,
    {
        if k < nodes.len() {
            assert(nodes.subrange(0, k + 1).drop_last() =~= nodes.subrange(0, k));
            self.lemma_first_invalid_extend(nodes, k + 1);
        } else {
            assert(nodes.subrange(0, k) =~= nodes);
        }
    }

    /// Joins every two entries of `nodes`: `nodes[0]` to each later entry in
    /// turn, then `nodes[1]`, and so on. An error, before any change, if an
    /// entry names no node; an error, with the pairs before it joined, at the
    /// first pair that holds the same node twice.
    pub fn try_connect_all(&mut self, nodes: &[NodeIndex]) -> (r: Result<(), NodeError>)
        requires
            old(self).wf(),
        ensures
            final(self).wf(),
            final(self).same_nodes(old(self)),
            match old(self).first_invalid(nodes@) {
                Some(x) => r == Err::<(), NodeError>(NodeError::InvalidIndex(x)) && final(self).adj() == old(self).adj(),
                None => if nodes@.no_duplicates() {
                    r == Ok::<(), NodeError>(()) && final(self).adj() == link_rows(old(self).adj(), nodes@, nodes@.len() as int)
                } else {
                    exists|i: int, j: int| #[trigger] is_first_repeat(nodes@, i, j)
                        && r == Err::<(), NodeError>(NodeError::SelfLoop(nodes@[i]))
                        && final(self).adj() == link_row(link_rows(old(self).adj(), nodes@, i), nodes@, i, j)
                },
            },
    {
        let ghost g0 = *self;
        self.check_all(nodes)?;
        let n = nodes.len();
        let mut i: usize = 0;
        while i < n
            invariant
                n == nodes.len(),
                g0 == *old(self),
                self.wf(),
                self.same_nodes(&g0),
                g0.first_invalid(nodes@) == None::<NodeIndex>,
                i <= n,
                self.adj() == link_rows(g0.adj(), nodes@, i as int),
                forall|i2: int, j2: int| 0 <= i2 < i && i2 < j2 < n ==> nodes@[i2] != nodes@[j2],
            decreases n - i,
        {
            let mut j: usize = i + 1;
            while j < n
                invariant
                    n == nodes.len(),
                    g0 == *old(self),
                    self.wf(),
                    self.same_nodes(&g0),
                    g0.first_invalid(nodes@) == None::<NodeIndex>,
                    i < n,
                    i + 1 <= j <= n,
                    self.adj() == link_row(link_rows(g0.adj(), nodes@, i as int), nodes@, i as int, j as int),
                    forall|i2: int, j2: int| 0 <= i2 < i && i2 < j2 < n ==> nodes@[i2] != nodes@[j2],
                    forall|j2: int| i < j2 < j ==> nodes@[i as int] != nodes@[j2],
                decreases n - j,
            {
                proof {
                    g0.lemma_first_invalid_none(nodes@, i as int);
                    g0.lemma_first_invalid_none(nodes@, j as int);
                }
                let res = self.try_connect(nodes[i], nodes[j]);
                if res.is_err() {
                    proof {
                        assert(is_first_repeat(nodes@, i as int, j as int));
                    }
                    return res;
                }
                j = j + 1;
            }
            i = i + 1;
        }
        proof {
            assert(nodes@.no_duplicates());
        }
        Ok(())
    }

    /// When no entry of `nodes` fails to name a node, each entry names a node.
    proof fn lemma_first_invalid_none(&self, nodes: Seq<NodeIndex>, k: int)
        requires
            self.first_invalid(nodes) == None::<NodeIndex>,
            0 <= k < nodes.len(),
        ensures
            self.valid_node(nodes[k]),
        decreases nodes.len(),
    {
        if k < nodes.len() - 1 {
            assert(nodes.drop_last()[k] == nodes[k]);
            self.lemma_first_invalid_none(nodes.drop_last(), k);
        }
    }

    /// Joins each entry of `nodes` to the next, and the last to the first.
    /// An error, before any change, if an entry names no node; an error, with
    /// the earlier joins made, at the first entry equal to the next one.
    pub fn try_loop_node(&mut self, nodes: &[NodeIndex]) -> (r: Result<(), NodeError>)
        requires
            old(self).wf(),
        ensures
            final(self).wf(),
            final(self).same_nodes(old(self)),
            match old(self).first_invalid(nodes@) {
                Some(x) => r == Err::<(), NodeError>(NodeError::InvalidIndex(x)) && final(self).adj() == old(self).adj(),
                None => if forall|k: int| 0 <= k < nodes@.len() ==> #[trigger] nodes@[k] != nodes@[(k + 1) % (nodes@.len() as int)] {
                    r == Ok::<(), NodeError>(()) && final(self).adj() == link_cycle(old(self).adj(), nodes@, nodes@.len() as int)
                } else {
                    exists|k: int| 0 <= k < nodes@.len()
                        && #[trigger] nodes@[k] == nodes@[(k + 1) % (nodes@.len() as int)]
                        && (forall|k2: int| 0 <= k2 < k ==> #[trigger] nodes@[k2] != nodes@[(k2 + 1) % (nodes@.len() as int)])
                        && r == Err::<(), NodeError>(NodeError::SelfLoop(nodes@[k]))
                        && final(self).adj() == link_cycle(old(self).adj(), nodes@, k)
                },
            },
    {
        let ghost g0 = *self;
        self.check_all(nodes)?;
        let n = nodes.len();
        let mut i: usize = 0;
        while i < n
            invariant
                n == nodes.len(),
                g0 == *old(self),
                self.wf(),
                self.same_nodes(&g0),
                g0.first_invalid(nodes@) == None::<NodeIndex>,
                i <= n,
                self.adj() == link_cycle(g0.adj(), nodes@, i as int),
                forall|k2: int| 0 <= k2 < i ==> #[trigger] nodes@[k2] != nodes@[(k2 + 1) % (n as int)],
            decreases n - i,
        {
            let next = (i + 1) % n;
            proof {
                g0.lemma_first_invalid_none(nodes@, i as int);
                g0.lemma_first_invalid_none(nodes@, next as int);
                assert((i + 1) % (n as int) == next as int);
            }
            let res = self.try_connect(nodes[i], nodes[next]);
            if res.is_err() {
                proof {
                    assert(nodes@[i as int] == nodes@[(i + 1) % (n as int)]);
                }
                return res;
            }
            i = i + 1;
        }
        Ok(())
    }

    /// Joins the distinct nodes `a` and `b`, unless they are already joined.
    pub fn connect(&mut self, a: NodeIndex, b: NodeIndex)
        requires
            old(self).wf(),
            old(self).valid_node(a),
            old(self).valid_node(b),
            a != b,
        ensures
            final(self).wf(),
            final(self).same_nodes(old(self)),
            final(self).adj() == linked(old(self).adj(), a, b),
    {
        let _ = self.try_connect(a, b);
    }

    /// Removes the edge between the joined nodes `a` and `b`.
    pub fn disconnect(&mut self, a: NodeIndex, b: NodeIndex)
        requires
            old(self).wf(),
            old(self).valid_node(a),
            old(self).valid_node(b),
            old(self).has_edge(a, b),
        ensures
            final(self).wf(),
            final(self).same_nodes(old(self)),
            final(self).adj() == unlinked(old(self).adj(), a, b),
    {
        let _ = self.try_disconnect(a, b);
    }

    /// Deletes the node `idx` with all its edges; its slot is freed for reuse.
    pub fn del(&mut self, idx: NodeIndex)
        requires
            old(self).wf(),
            old(self).valid_node(idx),
        ensures
            final(self).wf(),
            final(self).values@ == old(self).values@,
            final(self).free@ == old(self).free@.push(idx.index),
            final(self).count == old(self).count - 1,
            final(self).adj() == detached(old(self).adj(), idx),
    {
        let _ = self.try_del(idx);
    }

    /// Deletes the node `node_index` with all its edges; its slot is freed
    /// for reuse.
    pub fn del_panic(&mut self, node_index: NodeIndex)
        requires
            old(self).wf(),
            old(self).valid_node(node_index),
        ensures
            final(self).wf(),
            final(self).values@ == old(self).values@,
            final(self).free@ == old(self).free@.push(node_index.index),
            final(self).count == old(self).count - 1,
            final(self).adj() == detached(old(self).adj(), node_index),
    {
        self.del(node_index);
    }

    /// Joins every two of the distinct nodes listed in `nodes`: `nodes[0]`
    /// to each later entry in turn, then `nodes[1]`, and so on.
    pub fn connect_all(&mut self, nodes: &[NodeIndex])
        requires
            old(self).wf(),
            old(self).first_invalid(nodes@) == None::<NodeIndex>,
            nodes@.no_duplicates(),
        ensures
            final(self).wf(),
            final(self).same_nodes(old(self)),
            final(self).adj() == link_rows(old(self).adj(), nodes@, nodes@.len() as int),
    {
        let _ = self.try_connect_all(nodes);
    }

    /// Joins each entry of `nodes` to the next, and the last to the first;
    /// no entry may equal the next one.
    pub fn loop_node(&mut self, nodes: &[NodeIndex])
        requires
            old(self).wf(),
            old(self).first_invalid(nodes@) == None::<NodeIndex>,
            forall|k: int| 0 <= k < nodes@.len() ==> #[trigger] nodes@[k] != nodes@[(k + 1) % (nodes@.len() as int)],
        ensures
            final(self).wf(),
            final(self).same_nodes(old(self)),
            final(self).adj() == link_cycle(old(self).adj(), nodes@, nodes@.len() as int),
    {
        let _ = self.try_loop_node(nodes);
    }

    /// The nodes reachable from the node `node`, in breadth-first order.
    pub fn bfs(&self, node: NodeIndex) -> (r: Vec<NodeIndex>)
        requires
            self.wf(),
            self.valid_node(node),
        ensures
            is_bfs_order(self.adj(), node, r@),
    {
        proof {
            self.lemma_closed();
        }
        bfs_order(&self.links, node)
    }

    /// The nodes reachable from the node `node_index`, in breadth-first order.
    pub fn bfs_panic(&self, node_index: NodeIndex) -> (r: Vec<NodeIndex>)
        requires
            self.wf(),
            self.valid_node(node_index),
        ensures
            is_bfs_order(self.adj(), node_index, r@),
    {
        self.bfs(node_index)
    }

    /// The nodes reachable from the node `node`, in depth-first preorder.
    pub fn dfs(&self, node: NodeIndex) -> (r: Vec<NodeIndex>)
        requires
            self.wf(),
            self.valid_node(node),
        ensures
            is_dfs_order(self.adj(), node, r@),
    {
        proof {
            self.lemma_closed();
        }
        dfs_order(&self.links, node)
    }

    /// The nodes reachable from the node `start`, in depth-first preorder.
    pub fn dfs_panic(&self, start: NodeIndex) -> (r: Vec<NodeIndex>)
        requires
            self.wf(),
            self.valid_node(start),
        ensures
            is_dfs_order(self.adj(), start, r@),
    {
        self.dfs(start)
    }

    /// The value held by the node `node`.
    pub fn value(&self, node: NodeIndex) -> (r: &T)
        requires
            self.wf(),
            self.valid_node(node),
        ensures
            *r == self.values@[node.index as int],
    {
        &self.values[node.index]
    }

    /// The value held by the node `node_index`.
    pub fn get_value_ref_panic(&self, node_index: NodeIndex) -> (r: &T)
        requires
            self.wf(),
            self.valid_node(node_index),
        ensures
            *r == self.values@[node_index.index as int],
    {
        self.value(node_index)
    }

    /// The value held by the node `node`, to be changed in place.
    pub fn value_mut(&mut self, node: NodeIndex) -> (r: &mut T)
        requires
            old(self).wf(),
            old(self).valid_node(node),
        ensures
            *r == old(self).values@[node.index as int],
            final(self).values@ == old(self).values@.update(node.index as int, *final(r)),
            final(self).links@ == old(self).links@,
            final(self).free@ == old(self).free@,
            final(self).count == old(self).count,
    {
        &mut self.values[node.index]
    }

    /// The value held by the node `node_index`, to be changed in place.
    pub fn get_value_mut_ref_panic(&mut self, node_index: NodeIndex) -> (r: &mut T)
        requires
            old(self).wf(),
            old(self).valid_node(node_index),
        ensures
            *r == old(self).values@[node_index.index as int],
            final(self).values@ == old(self).values@.update(node_index.index as int, *final(r)),
            final(self).links@ == old(self).links@,
            final(self).free@ == old(self).free@,
            final(self).count == old(self).count,
    {
        &mut self.values[node_index.index]
    }

    /// The neighbour list of the node `node`.
    pub fn links(&self, node: NodeIndex) -> (r: &Vec<NodeIndex>)
        requires
            self.wf(),
            self.valid_node(node),
        ensures
            r@ == self.adj()[node.index as int],
    {
        &self.links[node.index]
    }

    /// The neighbour list of the node `node_index`.
    pub fn get_links_from_node_panic(&self, node_index: &NodeIndex) -> (r: &Vec<NodeIndex>)
        requires
            self.wf(),
            self.valid_node(*node_index),
        ensures
            r@ == self.adj()[node_index.index as int],
    {
        self.links(*node_index)
    }

    /// The neighbour list of the node `node`, to be changed in place. What is
    /// written there is not checked: the graph stays well formed only if the
    /// edge is kept at both ends.
    pub fn links_mut(&mut self, node: NodeIndex) -> (r: &mut Vec<NodeIndex>)
        requires
            old(self).wf(),
            old(self).valid_node(node),
        ensures
            r@ == old(self).adj()[node.index as int],
            final(self).links@ == old(self).links@.update(node.index as int, *final(r)),
            final(self).same_nodes(old(self)),
    {
        &mut self.links[node.index]
    }

    /// Whether the nodes `node` and `node2` are joined by an edge.
    pub fn are_connected(&self, node: NodeIndex, node2: NodeIndex) -> (r: bool)
        requires
            self.wf(),
            self.valid_node(node),
            self.valid_node(node2),
        ensures
            r == self.has_edge(node, node2),
    {
        vec_contains(&self.links[node.index], node2)
    }

    /// Whether `n_i` and `n2_i` are joined by an edge; an error if either
    /// names no node.
    pub fn try_is_connect(&self, n_i: &NodeIndex, n2_i: &NodeIndex) -> (r: Result<bool, NodeError>)
        requires
            self.wf(),
        ensures
            match self.pair_error(*n_i, *n2_i) {
                Some(e) => r == Err::<bool, NodeError>(e),
                None => r == Ok::<bool, NodeError>(self.has_edge(*n_i, *n2_i)),
            },
    {
        self.try_are_connected(*n_i, *n2_i)
    }

    /// The neighbours of the node `node`, in list order.
    pub fn iter_neighbors(&self, node: NodeIndex) -> (r: Vec<NodeIndex>)
        requires
            self.wf(),
            self.valid_node(node),
        ensures
            r@ == self.adj()[node.index as int],
    {
        copy_nodes(&self.links[node.index])
    }
}

/// The total length of a prefix grows by the length of the next list.
pub proof fn lemma_total_len_prefix(adj: Seq<Seq<NodeIndex>>, n: int)
    requires
        0 < n <= adj.len(),
    ensures
        total_len(adj.subrange(0, n)) == total_len(adj.subrange(0, n - 1)) + adj[n - 1].len(),
        total_len(adj.subrange(0, n)) <= total_len(adj),
    decreases adj.len() - n,
{
    assert(adj.subrange(0, n).drop_last() =~= adj.subrange(0, n - 1));
    if n < adj.len() {
        lemma_total_len_prefix(adj, n + 1);
    } else {
        assert(adj.subrange(0, n) =~= adj);
    }
}

} // verus!
