use vstd::prelude::*;
use crate::index::NodeIndex;

verus! {

/// The adjacency lists held in `adj`, as sequences.
pub open spec fn adjacency(adj: Seq<Vec<NodeIndex>>) -> Seq<Seq<NodeIndex>> {
    Seq::new(adj.len(), |i: int| adj[i]@)
}

/// Every entry of every adjacency list names a slot of `a`.
pub open spec fn closed_adjacency(a: Seq<Seq<NodeIndex>>) -> bool {
    forall|i: int, k: int|
        0 <= i < a.len() && 0 <= k < a[i].len() ==> (#[trigger] a[i][k]).index < a.len()
}

/// `y` is in the adjacency list of `x`.
pub open spec fn edge(a: Seq<Seq<NodeIndex>>, x: NodeIndex, y: NodeIndex) -> bool {
    &&& x.index < a.len()
    &&& a[x.index as int].contains(y)
}

/// `r` lists, without repetition and starting at `s`, a set of nodes that is
/// closed under edges and in which every node after the first is reached by
/// an edge from a node listed before it.
pub open spec fn is_traversal(a: Seq<Seq<NodeIndex>>, s: NodeIndex, r: Seq<NodeIndex>) -> bool {
    &&& r.len() > 0
    &&& r[0] == s
    &&& r.no_duplicates()
    &&& forall|k: int| 0 <= k < r.len() ==> (#[trigger] r[k]).index < a.len()
    &&& forall|k: int, y: NodeIndex| 0 <= k < r.len() && #[trigger] edge(a, r[k], y) ==> r.contains(y)
    &&& forall|k: int| 0 < k < r.len() ==> #[trigger] reached_from_earlier(a, r, k)
}

/// Some node listed before position `k` has the node at `k` as a neighbour.
pub open spec fn reached_from_earlier(a: Seq<Seq<NodeIndex>>, r: Seq<NodeIndex>, k: int) -> bool {
    exists|j: int| 0 <= j < k && #[trigger] edge(a, r[j], r[k])
}

/// The node at `k` of `r` is first met from a node listed before it.
pub open spec fn has_discovery(a: Seq<Seq<NodeIndex>>, r: Seq<NodeIndex>, k: int) -> bool {
    exists|j: int, q: int| j < k && #[trigger] discovered_at(a, r, k, j, q)
}

/// In `r`, the node at `k` is first met at position `q` of the adjacency list
/// of the node at `j`: no node listed before `j` has it as a neighbour, and it
/// does not occur earlier in that list.
pub open spec fn discovered_at(a: Seq<Seq<NodeIndex>>, r: Seq<NodeIndex>, k: int, j: int, q: int) -> bool {
    &&& 0 <= k < r.len()
    &&& 0 <= j < r.len()
    &&& 0 <= q < a[r[j].index as int].len()
    &&& a[r[j].index as int][q] == r[k]
    &&& forall|j2: int| 0 <= j2 < j ==> !(#[trigger] a[r[j2].index as int].contains(r[k]))
    &&& forall|q2: int| 0 <= q2 < q ==> #[trigger] a[r[j].index as int][q2] != r[k]
}

/// `r` is the breadth-first order from `s`: a traversal in which every node
/// after the first is met from an earlier node, and the nodes come in the
/// order in which they are first met, scanning the listed nodes in turn and
/// each adjacency list from its start.
pub open spec fn is_bfs_order(a: Seq<Seq<NodeIndex>>, s: NodeIndex, r: Seq<NodeIndex>) -> bool {
    &&& is_traversal(a, s, r)
    &&& forall|k: int| 0 < k < r.len() ==> #[trigger] has_discovery(a, r, k)
    &&& forall|k1: int, k2: int, j1: int, q1: int, j2: int, q2: int|
        #![trigger discovered_at(a, r, k1, j1, q1), discovered_at(a, r, k2, j2, q2)]
        0 < k1 < k2 < r.len() && discovered_at(a, r, k1, j1, q1) && discovered_at(a, r, k2, j2, q2)
            ==> j1 < j2 || (j1 == j2 && q1 < q2)
}

/// In `r`, the node at `k` is the one that depth-first search visits next:
/// it is the first neighbour, in list order, not among the `k` nodes listed
/// before it, of the node at `m`; and `m` is the last listed node that still
/// has a neighbour outside those `k` nodes.
pub open spec fn dfs_step(a: Seq<Seq<NodeIndex>>, r: Seq<NodeIndex>, k: int, m: int, q: int) -> bool {
    &&& 0 <= m < k < r.len()
    &&& 0 <= q < a[r[m].index as int].len()
    &&& a[r[m].index as int][q] == r[k]
    &&& forall|q2: int| 0 <= q2 < q ==> r.subrange(0, k).contains(#[trigger] a[r[m].index as int][q2])
    &&& forall|m2: int, q2: int|
        m < m2 < k && 0 <= q2 < a[r[m2].index as int].len()
            ==> r.subrange(0, k).contains(#[trigger] a[r[m2].index as int][q2])
}

/// `r` is the depth-first preorder from `s`: a traversal in which every node
/// after the first is the next one that depth-first search visits.
pub open spec fn is_dfs_order(a: Seq<Seq<NodeIndex>>, s: NodeIndex, r: Seq<NodeIndex>) -> bool {
    &&& is_traversal(a, s, r)
    &&& forall|k: int| 0 < k < r.len() ==> #[trigger] dfs_next(a, r, k)
}

/// The node at `k` of `r` is the next one that depth-first search visits.
pub open spec fn dfs_next(a: Seq<Seq<NodeIndex>>, r: Seq<NodeIndex>, k: int) -> bool {
    exists|m: int, q: int| #[trigger] dfs_step(a, r, k, m, q)
}

/// The number of `true` entries of `s`.
pub open spec fn count_true(s: Seq<bool>) -> nat
    decreases s.len(),
{
    if s.len() == 0 {
        0
    } else {
        count_true(s.drop_last()) + if s.last() { 1nat } else { 0nat }
    }
}

proof fn lemma_count_true_le(s: Seq<bool>)
    ensures
        count_true(s) <= s.len(),
    decreases s.len(),
{
    if s.len() > 0 {
        lemma_count_true_le(s.drop_last());
    }
}

proof fn lemma_count_true_set(s: Seq<bool>, i: int)
    requires
        0 <= i < s.len(),
        !s[i],
    ensures
        count_true(s.update(i, true)) == count_true(s) + 1,
    decreases s.len(),
{
    let t = s.update(i, true);
    if i == s.len() - 1 {
        assert(t.drop_last() =~= s.drop_last());
    } else {
        assert(t.drop_last() =~= s.drop_last().update(i, true));
        lemma_count_true_set(s.drop_last(), i);
    }
}

/// Breadth-first order of the nodes reachable from `start` along `adj`.
pub fn bfs_order(adj: &Vec<Vec<NodeIndex>>, start: NodeIndex) -> (r: Vec<NodeIndex>)
    requires
        start.index < adj.len(),
        closed_adjacency(adjacency(adj@)),
    ensures
        is_bfs_order(adjacency(adj@), start, r@),
{
    let ghost a = adjacency(adj@);
    let n = adj.len();
    let mut visited: Vec<bool> = Vec::new();
    let mut i: usize = 0;
    while i < n
        invariant
            i <= n,
            visited.len() == i,
            forall|j: int| 0 <= j < i ==> !visited@[j],
        decreases n - i,
    {
        visited.push(false);
        i = i + 1;
    }
    proof {
        lemma_count_true_zero(visited@);
        lemma_count_true_set(visited@, start.index as int);
    }
    let mut r: Vec<NodeIndex> = Vec::new();
    visited.set(start.index, true);
    r.push(start);
    proof {
        assert forall|x: int| 0 <= x < n implies (visited@[x] <==> r@.contains(NodeIndex { index: x as usize })) by {
            if x == start.index {
                assert(r@[0] == NodeIndex { index: x as usize });
            } else if r@.contains(NodeIndex { index: x as usize }) {
                let w = choose|w: int| 0 <= w < r@.len() && r@[w] == NodeIndex { index: x as usize };
                assert(w == 0);
            }
        }
    }
    let mut h: usize = 0;
    while h < r.len()
        invariant
            n == adj.len(),
            a == adjacency(adj@),
            closed_adjacency(a),
            start.index < n,
            visited.len() == n,
            count_true(visited@) == r.len(),
            h <= r.len(),
            r.len() > 0,
            r@[0] == start,
            r@.no_duplicates(),
            forall|k: int| 0 <= k < r.len() ==> (#[trigger] r@[k]).index < n,
            forall|x: int| 0 <= x < n ==> (visited@[x] <==> r@.contains(NodeIndex { index: x as usize })),
            forall|k: int, y: NodeIndex| 0 <= k < h && #[trigger] edge(a, r@[k], y) ==> r@.contains(y),
            forall|k: int| 0 < k < r.len() ==> #[trigger] has_discovery(a, r@, k),
            forall|k: int, j: int, q: int| 0 < k < r.len() && #[trigger] discovered_at(a, r@, k, j, q) ==> j < h,
            forall|k1: int, k2: int, j1: int, q1: int, j2: int, q2: int|
                #![trigger discovered_at(a, r@, k1, j1, q1), discovered_at(a, r@, k2, j2, q2)]
                0 < k1 < k2 < r.len() && discovered_at(a, r@, k1, j1, q1) && discovered_at(a, r@, k2, j2, q2)
                    ==> j1 < j2 || (j1 == j2 && q1 < q2),
        decreases 2 * n - h - r.len(),
    {
        proof {
            lemma_count_true_le(visited@);
        }
        let node = r[h];
        let nbrs = &adj[node.index];
        let mut q: usize = 0;
        let ghost len0 = r.len();
        while q < nbrs.len()
            invariant
                len0 <= r.len(),
                n == adj.len(),
                a == adjacency(adj@),
                closed_adjacency(a),
                nbrs@ == a[node.index as int],
                node == r@[h as int],
                node.index < n,
                visited.len() == n,
                count_true(visited@) == r.len(),
                h < r.len(),
                q <= nbrs.len(),
                r@[0] == start,
                r@.no_duplicates(),
                forall|k: int| 0 <= k < r.len() ==> (#[trigger] r@[k]).index < n,
                forall|x: int| 0 <= x < n ==> (visited@[x] <==> r@.contains(NodeIndex { index: x as usize })),
                forall|k: int, y: NodeIndex| 0 <= k < h && #[trigger] edge(a, r@[k], y) ==> r@.contains(y),
                forall|p: int| 0 <= p < q ==> r@.contains(#[trigger] nbrs@[p]),
                forall|k: int| 0 < k < r.len() ==> #[trigger] has_discovery(a, r@, k),
                forall|k: int, j: int, qq: int| 0 < k < r.len() && #[trigger] discovered_at(a, r@, k, j, qq)
                    ==> j < h || (j == h && qq < q),
                forall|k1: int, k2: int, j1: int, q1: int, j2: int, q2: int|
                    #![trigger discovered_at(a, r@, k1, j1, q1), discovered_at(a, r@, k2, j2, q2)]
                    0 < k1 < k2 < r.len() && discovered_at(a, r@, k1, j1, q1) && discovered_at(a, r@, k2, j2, q2)
                        ==> j1 < j2 || (j1 == j2 && q1 < q2),
            decreases nbrs.len() - q,
        {
            let y = nbrs[q];
            proof {
                assert(a[node.index as int][q as int] == y);
                assert(y.index < n);
            }
            if !visited[y.index] {
                let ghost old_r = r@;
                let ghost old_visited = visited@;
                proof {
                    lemma_count_true_set(visited@, y.index as int);
                    lemma_count_true_le(visited@.update(y.index as int, true));
                    assert(!old_r.contains(y));
                }
                visited.set(y.index, true);
                r.push(y);
                proof {
                    let nr = r@;
                    let kn = old_r.len() as int;
                    assert(nr[kn] == y);
                    assert(nr.subrange(0, kn) =~= old_r);
                    // the new node is met at (h, q)
                    assert forall|j2: int| 0 <= j2 < h implies !(#[trigger] a[nr[j2].index as int].contains(nr[kn])) by {
                        assert(nr[j2] == old_r[j2]);
                        if a[nr[j2].index as int].contains(y) {
                            assert(edge(a, old_r[j2], y));
                        }
                    }
                    assert forall|q2: int| 0 <= q2 < q implies #[trigger] a[nr[h as int].index as int][q2] != nr[kn] by {
                        assert(old_r.contains(nbrs@[q2]));
                    }
                    assert(discovered_at(a, nr, kn, h as int, q as int));
                    assert forall|k: int, j: int, qq: int| 0 < k < nr.len() && #[trigger] discovered_at(a, nr, k, j, qq)
                        implies j < h || (j == h && qq < q + 1) by {
                        if k < kn {
                            assert(has_discovery(a, old_r, k));
                            let (j0, q0) = choose|j0: int, q0: int| j0 < k && #[trigger] discovered_at(a, old_r, k, j0, q0);
                            lemma_discovered_push(a, old_r, y, k, j0, q0);
                            lemma_discovered_unique(a, nr, k, j, qq, j0, q0);
                        } else {
                            lemma_discovered_unique(a, nr, k, j, qq, h as int, q as int);
                        }
                    }
                    assert forall|k: int| 0 < k < nr.len() implies #[trigger] has_discovery(a, nr, k) by {
                        if k < kn {
                            assert(has_discovery(a, old_r, k));
                            let (j, qq) = choose|j: int, qq: int| j < k && #[trigger] discovered_at(a, old_r, k, j, qq);
                            lemma_discovered_push(a, old_r, y, k, j, qq);
                        } else {
                            assert(discovered_at(a, nr, kn, h as int, q as int));
                        }
                    }
                    assert forall|k1: int, k2: int, j1: int, q1: int, j2: int, q2: int|
                        #![trigger discovered_at(a, nr, k1, j1, q1), discovered_at(a, nr, k2, j2, q2)]
                        0 < k1 < k2 < nr.len() && discovered_at(a, nr, k1, j1, q1) && discovered_at(a, nr, k2, j2, q2)
                            implies j1 < j2 || (j1 == j2 && q1 < q2) by {
                        assert(has_discovery(a, old_r, k1));
                        let (j3, q3) = choose|j3: int, q3: int| j3 < k1 && #[trigger] discovered_at(a, old_r, k1, j3, q3);
                        lemma_discovered_push(a, old_r, y, k1, j3, q3);
                        lemma_discovered_unique(a, nr, k1, j1, q1, j3, q3);
                        if k2 < kn {
                            assert(has_discovery(a, old_r, k2));
                            let (j4, q4) = choose|j4: int, q4: int| j4 < k2 && #[trigger] discovered_at(a, old_r, k2, j4, q4);
                            lemma_discovered_push(a, old_r, y, k2, j4, q4);
                            lemma_discovered_unique(a, nr, k2, j2, q2, j4, q4);
                        } else {
                            lemma_discovered_unique(a, nr, k2, j2, q2, h as int, q as int);
                        }
                    }
                    assert forall|x: int| 0 <= x < n implies (visited@[x] <==> nr.contains(NodeIndex { index: x as usize })) by {
                        if x == y.index {
                            assert(nr[kn] == NodeIndex { index: x as usize });
                        } else {
                            if nr.contains(NodeIndex { index: x as usize }) {
                                let w = choose|w: int| 0 <= w < nr.len() && nr[w] == NodeIndex { index: x as usize };
                                assert(old_r[w] == NodeIndex { index: x as usize });
                            }
                            if old_r.contains(NodeIndex { index: x as usize }) {
                                let w = choose|w: int| 0 <= w < old_r.len() && old_r[w] == NodeIndex { index: x as usize };
                                assert(nr[w] == NodeIndex { index: x as usize });
                            }
                        }
                    }
                    assert forall|k: int, z: NodeIndex| 0 <= k < h && #[trigger] edge(a, nr[k], z) implies nr.contains(z) by {
                        assert(edge(a, old_r[k], z));
                        let w = choose|w: int| 0 <= w < old_r.len() && old_r[w] == z;
                        assert(nr[w] == z);
                    }
                    assert forall|p: int| 0 <= p < q + 1 implies nr.contains(#[trigger] nbrs@[p]) by {
                        if p < q {
                            let w = choose|w: int| 0 <= w < old_r.len() && old_r[w] == nbrs@[p];
                            assert(nr[w] == nbrs@[p]);
                        } else {
                            assert(nr[kn] == nbrs@[p]);
                        }
                    }
                }
            } else {
                proof {
                    assert(r@.contains(NodeIndex { index: y.index }));
                }
            }
            q = q + 1;
        }
        proof {
            lemma_count_true_le(visited@);
            assert forall|k: int, y: NodeIndex| 0 <= k < h + 1 && #[trigger] edge(a, r@[k], y) implies r@.contains(y) by {
                if k == h {
                    let p = choose|p: int| 0 <= p < nbrs@.len() && nbrs@[p] == y;
                    assert(r@.contains(nbrs@[p]));
                }
            }
        }
        h = h + 1;
    }
    proof {
        assert forall|k: int| 0 < k < r.len() implies #[trigger] reached_from_earlier(a, r@, k) by {
            assert(has_discovery(a, r@, k));
            let (j, qq) = choose|j: int, qq: int| j < k && #[trigger] discovered_at(a, r@, k, j, qq);
            assert(a[r@[j].index as int][qq] == r@[k]);
            assert(edge(a, r@[j], r@[k]));
        }
    }
    r
}

/// Pushes onto `stack`, last neighbour first, the neighbours of `node` not yet
/// visited, recording for each pushed entry the position `k` of `node` in the
/// visiting order and the entry's place in the adjacency list of `node`.
fn push_frame(
    adj: &Vec<Vec<NodeIndex>>,
    visited: &Vec<bool>,
    stack: &mut Vec<NodeIndex>,
    origin: Ghost<Seq<(int, int)>>,
    node: NodeIndex,
    k: Ghost<int>,
) -> (new_origin: Ghost<Seq<(int, int)>>)
    requires
        node.index < adj.len(),
        closed_adjacency(adjacency(adj@)),
        visited.len() == adj.len(),
        old(stack).len() == origin@.len(),
    ensures
        final(stack).len() == new_origin@.len(),
        final(stack).len() >= old(stack).len(),
        forall|p: int| 0 <= p < old(stack).len() ==> final(stack)@[p] == old(stack)@[p] && new_origin@[p] == origin@[p],
        forall|p: int| old(stack).len() <= p < final(stack).len() ==> {
            &&& (#[trigger] new_origin@[p]).0 == k@
            &&& 0 <= new_origin@[p].1 < adj@[node.index as int].len()
            &&& final(stack)@[p] == adj@[node.index as int]@[new_origin@[p].1]
            &&& !visited@[final(stack)@[p].index as int]
        },
        forall|p1: int, p2: int| old(stack).len() <= p1 < p2 < final(stack).len()
            ==> (#[trigger] new_origin@[p1]).1 > (#[trigger] new_origin@[p2]).1,
        forall|q: int| 0 <= q < adj@[node.index as int].len() && !visited@[(#[trigger] adj@[node.index as int]@[q]).index as int]
            ==> exists|p: int| old(stack).len() <= p < final(stack).len() && new_origin@[p] == (k@, q),
{
    let ghost a = adjacency(adj@);
    let ghost start_len = stack.len() as int;
    let ghost stack0 = stack@;
    let nbrs = &adj[node.index];
    let mut q: usize = nbrs.len();
    let ghost mut org = origin@;
    while q > 0
        invariant
            nbrs@ == adj@[node.index as int]@,
            a == adjacency(adj@),
            closed_adjacency(a),
            node.index < adj.len(),
            visited.len() == adj.len(),
            q <= nbrs.len(),
            stack.len() == org.len(),
            stack.len() >= start_len,
            start_len == stack0.len(),
            stack0 == old(stack)@,
            forall|p: int| 0 <= p < start_len ==> stack@[p] == stack0[p] && org[p] == origin@[p],
            forall|p: int| start_len <= p < stack.len() ==> {
                &&& (#[trigger] org[p]).0 == k@
                &&& q <= org[p].1 < nbrs.len()
                &&& stack@[p] == nbrs@[org[p].1]
                &&& !visited@[stack@[p].index as int]
            },
            forall|p1: int, p2: int| start_len <= p1 < p2 < stack.len() ==> (#[trigger] org[p1]).1 > (#[trigger] org[p2]).1,
            forall|qq: int| q <= qq < nbrs.len() && !visited@[(#[trigger] nbrs@[qq]).index as int]
                ==> exists|p: int| start_len <= p < stack.len() && org[p] == (k@, qq),
        decreases q,
    {
        q = q - 1;
        let y = nbrs[q];
        proof {
            assert(a[node.index as int][q as int] == y);
        }
        if !visited[y.index] {
            let ghost prev = stack@;
            stack.push(y);
            proof {
                let old_org = org;
                org = org.push((k@, q as int));
                assert forall|p: int| 0 <= p < start_len implies stack@[p] == stack0[p] && org[p] == origin@[p] by {
                    assert(stack@[p] == prev[p]);
                    assert(org[p] == old_org[p]);
                }
                assert forall|qq: int| q <= qq < nbrs.len() && !visited@[(#[trigger] nbrs@[qq]).index as int]
                    implies exists|p: int| start_len <= p < stack.len() && org[p] == (k@, qq) by {
                    if qq == q {
                        assert(org[org.len() - 1] == (k@, qq));
                    } else {
                        let p = choose|p: int| start_len <= p < old_org.len() && old_org[p] == (k@, qq);
                        assert(org[p] == (k@, qq));
                    }
                }
            }
        }
    }
    Ghost(org)
}

/// Depth-first preorder of the nodes reachable from `start` along `adj`,
/// visiting the neighbours of each node in list order.
pub fn dfs_order(adj: &Vec<Vec<NodeIndex>>, start: NodeIndex) -> (r: Vec<NodeIndex>)
    requires
        start.index < adj.len(),
        closed_adjacency(adjacency(adj@)),
    ensures
        is_dfs_order(adjacency(adj@), start, r@),
{
    let ghost a = adjacency(adj@);
    let n = adj.len();
    let mut visited: Vec<bool> = Vec::new();
    let mut i: usize = 0;
    while i < n
        invariant
            i <= n,
            visited.len() == i,
            forall|j: int| 0 <= j < i ==> !visited@[j],
        decreases n - i,
    {
        visited.push(false);
        i = i + 1;
    }
    proof {
        lemma_count_true_zero(visited@);
        lemma_count_true_set(visited@, start.index as int);
    }
    let mut r: Vec<NodeIndex> = Vec::new();
    visited.set(start.index, true);
    r.push(start);
    proof {
        assert forall|x: int| 0 <= x < n implies (visited@[x] <==> r@.contains(NodeIndex { index: x as usize })) by {
            if x == start.index {
                assert(r@[0] == NodeIndex { index: x as usize });
            } else if r@.contains(NodeIndex { index: x as usize }) {
                let w = choose|w: int| 0 <= w < r@.len() && r@[w] == NodeIndex { index: x as usize };
                assert(w == 0);
            }
        }
    }
    let mut stack: Vec<NodeIndex> = Vec::new();
    let ghost mut origin: Seq<(int, int)> = Seq::empty();
    let Ghost(o) = push_frame(adj, &visited, &mut stack, Ghost(origin), start, Ghost(0int));
    proof {
        origin = o;
        assert forall|m: int, q: int|
            0 <= m < r.len() && 0 <= q < a[r@[m].index as int].len()
                && !r@.contains(#[trigger] a[r@[m].index as int][q])
            implies exists|p: int| 0 <= p < stack.len() && origin[p] == (m, q) by {
            assert(m == 0);
            let y = a[r@[m].index as int][q];
            assert(adj@[start.index as int]@[q] == y);
            assert(y.index < n);
        }
    }
    while stack.len() > 0
        invariant
            n == adj.len(),
            a == adjacency(adj@),
            closed_adjacency(a),
            start.index < n,
            visited.len() == n,
            count_true(visited@) == r.len(),
            r.len() > 0,
            r@[0] == start,
            r@.no_duplicates(),
            forall|k: int| 0 <= k < r.len() ==> (#[trigger] r@[k]).index < n,
            forall|x: int| 0 <= x < n ==> (visited@[x] <==> r@.contains(NodeIndex { index: x as usize })),
            forall|k: int| 0 < k < r.len() ==> #[trigger] dfs_next(a, r@, k),
            stack.len() == origin.len(),
            forall|p: int| 0 <= p < stack.len() ==> {
                &&& 0 <= (#[trigger] origin[p]).0 < r.len()
                &&& 0 <= origin[p].1 < a[r@[origin[p].0].index as int].len()
                &&& stack@[p] == a[r@[origin[p].0].index as int][origin[p].1]
            },
            forall|p1: int, p2: int| 0 <= p1 < p2 < stack.len() ==>
                (#[trigger] origin[p1]).0 < (#[trigger] origin[p2]).0
                || (origin[p1].0 == origin[p2].0 && origin[p1].1 > origin[p2].1),
            forall|m: int, q: int|
                0 <= m < r.len() && 0 <= q < a[r@[m].index as int].len()
                    && !r@.contains(#[trigger] a[r@[m].index as int][q])
                ==> exists|p: int| 0 <= p < stack.len() && origin[p] == (m, q),
        decreases n - r.len(), stack.len(),
    {
        proof {
            lemma_count_true_le(visited@);
        }
        let ghost st = stack@;
        let ghost full = origin;
        let x = stack.pop().unwrap();
        let ghost top = full.last();
        proof {
            origin = full.drop_last();
            assert(x == st[st.len() - 1]);
            assert(full =~= origin.push(top));
            assert(0 <= full[full.len() - 1].0);
        }
        if !visited[x.index] {
            // Visit `x`: it is the next node of depth-first order.
            let ghost old_r = r@;
            let ghost kn = old_r.len() as int;
            proof {
                lemma_count_true_set(visited@, x.index as int);
                lemma_count_true_le(visited@.update(x.index as int, true));
                assert(!old_r.contains(x));
            }
            visited.set(x.index, true);
            r.push(x);
            proof {
                let nr = r@;
                assert(nr.subrange(0, kn) =~= old_r);
                let (m, q) = top;
                assert(nr[m] == old_r[m]);
                assert forall|q2: int| 0 <= q2 < q implies nr.subrange(0, kn).contains(#[trigger] a[nr[m].index as int][q2]) by {
                    if !old_r.contains(a[old_r[m].index as int][q2]) {
                        let p = choose|p: int| 0 <= p < origin.len() && origin[p] == (m, q2);
                    }
                }
                assert forall|m2: int, q2: int| m < m2 < kn && 0 <= q2 < a[nr[m2].index as int].len()
                    implies nr.subrange(0, kn).contains(#[trigger] a[nr[m2].index as int][q2]) by {
                    assert(nr[m2] == old_r[m2]);
                    if !old_r.contains(a[old_r[m2].index as int][q2]) {
                        let p = choose|p: int| 0 <= p < origin.len() && origin[p] == (m2, q2);
                    }
                }
                assert(dfs_step(a, nr, kn, m, q));
                assert forall|k: int| 0 < k < nr.len() implies #[trigger] dfs_next(a, nr, k) by {
                    if k < kn {
                        assert(dfs_next(a, old_r, k));
                        let (m3, q3) = choose|m3: int, q3: int| #[trigger] dfs_step(a, old_r, k, m3, q3);
                        lemma_dfs_step_push(a, old_r, x, k, m3, q3);
                    } else {
                        assert(dfs_step(a, nr, kn, m, q));
                    }
                }
                assert forall|xx: int| 0 <= xx < n implies (visited@[xx] <==> nr.contains(NodeIndex { index: xx as usize })) by {
                    if xx == x.index {
                        assert(nr[kn] == NodeIndex { index: xx as usize });
                    } else {
                        if nr.contains(NodeIndex { index: xx as usize }) {
                            let w = choose|w: int| 0 <= w < nr.len() && nr[w] == NodeIndex { index: xx as usize };
                            assert(old_r[w] == NodeIndex { index: xx as usize });
                        }
                        if old_r.contains(NodeIndex { index: xx as usize }) {
                            let w = choose|w: int| 0 <= w < old_r.len() && old_r[w] == NodeIndex { index: xx as usize };
                            assert(nr[w] == NodeIndex { index: xx as usize });
                        }
                    }
                }
                assert forall|p: int| 0 <= p < stack.len() implies {
                    &&& 0 <= (#[trigger] origin[p]).0 < nr.len()
                    &&& 0 <= origin[p].1 < a[nr[origin[p].0].index as int].len()
                    &&& stack@[p] == a[nr[origin[p].0].index as int][origin[p].1]
                } by {
                    assert(nr[origin[p].0] == old_r[origin[p].0]);
                }
            }
            let ghost before = stack@;
            let Ghost(o) = push_frame(adj, &visited, &mut stack, Ghost(origin), x, Ghost(kn));
            proof {
                let old_origin = origin;
                origin = o;
                let nr = r@;
                assert forall|p: int| 0 <= p < stack.len() implies {
                    &&& 0 <= (#[trigger] origin[p]).0 < nr.len()
                    &&& 0 <= origin[p].1 < a[nr[origin[p].0].index as int].len()
                    &&& stack@[p] == a[nr[origin[p].0].index as int][origin[p].1]
                } by {
                    if p < before.len() {
                        assert(old_origin[p] == origin[p]);
                    } else {
                        assert(nr[kn] == x);
                    }
                }
                assert forall|p1: int, p2: int| 0 <= p1 < p2 < stack.len() implies
                    (#[trigger] origin[p1]).0 < (#[trigger] origin[p2]).0
                    || (origin[p1].0 == origin[p2].0 && origin[p1].1 > origin[p2].1) by {
                    if p2 < before.len() {
                        assert(old_origin[p1] == origin[p1]);
                        assert(old_origin[p2] == origin[p2]);
                    } else if p1 < before.len() {
                        assert(old_origin[p1] == origin[p1]);
                    }
                }
                assert forall|m: int, q: int|
                    0 <= m < nr.len() && 0 <= q < a[nr[m].index as int].len()
                        && !nr.contains(#[trigger] a[nr[m].index as int][q])
                    implies exists|p: int| 0 <= p < stack.len() && origin[p] == (m, q) by {
                    let y = a[nr[m].index as int][q];
                    assert(y.index < n);
                    assert(!visited@[y.index as int]);
                    if m < kn {
                        assert(nr[m] == old_r[m]);
                        if old_r.contains(y) {
                            let w = choose|w: int| 0 <= w < old_r.len() && old_r[w] == y;
                            assert(nr[w] == y);
                        }
                        let p = choose|p: int| 0 <= p < full.len() && full[p] == (m, q);
                        if p == old_origin.len() {
                            assert(y == x);
                            assert(nr[kn] == x);
                        } else {
                            assert(origin[p] == (m, q));
                        }
                    } else {
                        assert(adj@[x.index as int]@[q] == y);
                    }
                }
            }
        } else {
            proof {
                assert(r@.contains(NodeIndex { index: x.index }));
                let old_origin = full;
                assert forall|m: int, q: int|
                    0 <= m < r.len() && 0 <= q < a[r@[m].index as int].len()
                        && !r@.contains(#[trigger] a[r@[m].index as int][q])
                    implies exists|p: int| 0 <= p < stack.len() && origin[p] == (m, q) by {
                    let p = choose|p: int| 0 <= p < old_origin.len() && old_origin[p] == (m, q);
                    if p == origin.len() {
                        assert(a[r@[m].index as int][q] == x);
                    } else {
                        assert(origin[p] == old_origin[p]);
                    }
                }
                assert forall|p1: int, p2: int| 0 <= p1 < p2 < stack.len() implies
                    (#[trigger] origin[p1]).0 < (#[trigger] origin[p2]).0
                    || (origin[p1].0 == origin[p2].0 && origin[p1].1 > origin[p2].1) by {
                    assert(old_origin[p1] == origin[p1]);
                    assert(old_origin[p2] == origin[p2]);
                }
            }
        }
    }
    proof {
        assert forall|k: int, y: NodeIndex| 0 <= k < r.len() && #[trigger] edge(a, r@[k], y) implies r@.contains(y) by {
            let q = choose|q: int| 0 <= q < a[r@[k].index as int].len() && a[r@[k].index as int][q] == y;
            if !r@.contains(a[r@[k].index as int][q]) {
                let p = choose|p: int| 0 <= p < stack.len() && origin[p] == (k, q);
            }
        }
        assert forall|k: int| 0 < k < r.len() implies #[trigger] reached_from_earlier(a, r@, k) by {
            assert(dfs_next(a, r@, k));
            let (m, q) = choose|m: int, q: int| #[trigger] dfs_step(a, r@, k, m, q);
            assert(edge(a, r@[m], r@[k]));
        }
    }
    r
}

/// Where depth-first search goes next does not change when a node is appended.
proof fn lemma_dfs_step_push(a: Seq<Seq<NodeIndex>>, r: Seq<NodeIndex>, y: NodeIndex, k: int, m: int, q: int)
    requires
        0 <= k < r.len(),
        dfs_step(a, r, k, m, q),
    ensures
        dfs_step(a, r.push(y), k, m, q),
{
    let nr = r.push(y);
    assert(nr.subrange(0, k) =~= r.subrange(0, k));
    assert(nr[m] == r[m]);
    assert(nr[k] == r[k]);
    assert forall|m2: int, q2: int|
        m < m2 < k && 0 <= q2 < a[nr[m2].index as int].len()
            implies nr.subrange(0, k).contains(#[trigger] a[nr[m2].index as int][q2]) by {
        assert(nr[m2] == r[m2]);
    }
}

proof fn lemma_count_true_zero(s: Seq<bool>)
    requires
        forall|j: int| 0 <= j < s.len() ==> !s[j],
    ensures
        count_true(s) == 0,
    decreases s.len(),
{
    if s.len() > 0 {
        lemma_count_true_zero(s.drop_last());
    }
}

/// Where a listed node is first met does not change when a node is appended.
proof fn lemma_discovered_push(a: Seq<Seq<NodeIndex>>, r: Seq<NodeIndex>, y: NodeIndex, k: int, j: int, q: int)
    requires
        0 <= k < r.len(),
        0 <= j < r.len(),
    ensures
        discovered_at(a, r.push(y), k, j, q) == discovered_at(a, r, k, j, q),
{
    let nr = r.push(y);
    assert(nr[j] == r[j]);
    assert(nr[k] == r[k]);
    assert forall|j2: int| 0 <= j2 < j implies nr[j2] == r[j2] by {}
    if discovered_at(a, r, k, j, q) {
        assert forall|j2: int| 0 <= j2 < j implies !(#[trigger] a[nr[j2].index as int].contains(nr[k])) by {
            assert(nr[j2] == r[j2]);
        }
    }
    if discovered_at(a, nr, k, j, q) {
        assert forall|j2: int| 0 <= j2 < j implies !(#[trigger] a[r[j2].index as int].contains(r[k])) by {
            assert(nr[j2] == r[j2]);
        }
    }
}

/// The place where a node is first met is unique.
proof fn lemma_discovered_unique(a: Seq<Seq<NodeIndex>>, r: Seq<NodeIndex>, k: int, j1: int, q1: int, j2: int, q2: int)
    requires
        discovered_at(a, r, k, j1, q1),
        discovered_at(a, r, k, j2, q2),
    ensures
        j1 == j2,
        q1 == q2,
{
    if j1 < j2 {
        assert(a[r[j1].index as int][q1] == r[k]);
        assert(a[r[j1].index as int].contains(r[k]));
    } else if j2 < j1 {
        assert(a[r[j2].index as int][q2] == r[k]);
        assert(a[r[j2].index as int].contains(r[k]));
    } else {
        if q1 < q2 {
            assert(a[r[j2].index as int][q1] != r[k]);
        } else if q2 < q1 {
            assert(a[r[j1].index as int][q2] != r[k]);
        }
    }
}

/// `p` is a walk along `a`: consecutive nodes are joined by an edge.
pub open spec fn is_path(a: Seq<Seq<NodeIndex>>, p: Seq<NodeIndex>) -> bool {
    &&& p.len() > 0
    &&& forall|i: int| 0 <= i < p.len() - 1 ==> #[trigger] edge(a, p[i], p[i + 1])
}

/// Some walk along `a` leads from `s` to `y`.
pub open spec fn reachable(a: Seq<Seq<NodeIndex>>, s: NodeIndex, y: NodeIndex) -> bool {
    exists|p: Seq<NodeIndex>| #[trigger] is_path(a, p) && p[0] == s && p.last() == y
}

/// A walk from `s` to the node at position `k` of a traversal from `s`.
proof fn path_to(a: Seq<Seq<NodeIndex>>, s: NodeIndex, r: Seq<NodeIndex>, k: int) -> (p: Seq<NodeIndex>)
    requires
        is_traversal(a, s, r),
        0 <= k < r.len(),
    ensures
        is_path(a, p),
        p[0] == s,
        p.last() == r[k],
    decreases k,
{
    if k == 0 {
        seq![s]
    } else {
        assert(reached_from_earlier(a, r, k));
        let j = choose|j: int| 0 <= j < k && #[trigger] edge(a, r[j], r[k]);
        let q = path_to(a, s, r, j);
        let p = q.push(r[k]);
        assert forall|i: int| 0 <= i < p.len() - 1 implies #[trigger] edge(a, p[i], p[i + 1]) by {
            if i < q.len() - 1 {
                assert(p[i] == q[i] && p[i + 1] == q[i + 1]);
            } else {
                assert(p[i] == r[j]);
            }
        }
        p
    }
}

/// Every node of a walk from `s` is listed in a traversal from `s`.
proof fn lemma_path_in_traversal(a: Seq<Seq<NodeIndex>>, s: NodeIndex, r: Seq<NodeIndex>, p: Seq<NodeIndex>, i: int)
    requires
        is_traversal(a, s, r),
        is_path(a, p),
        p[0] == s,
        0 <= i < p.len(),
    ensures
        r.contains(p[i]),
    decreases i,
{
    if i == 0 {
        assert(r[0] == p[0]);
    } else {
        lemma_path_in_traversal(a, s, r, p, i - 1);
        assert(edge(a, p[i - 1], p[(i - 1) + 1]));
        let k = choose|k: int| 0 <= k < r.len() && r[k] == p[i - 1];
        assert(edge(a, r[k], p[i]));
    }
}

/// A traversal from `s` lists exactly the nodes reachable from `s`: the
/// breadth-first and the depth-first order visit every node that some walk
/// from the start leads to, and no other.
pub proof fn lemma_traversal_is_reachable_set(a: Seq<Seq<NodeIndex>>, s: NodeIndex, r: Seq<NodeIndex>)
    requires
        is_traversal(a, s, r),
    ensures
        forall|y: NodeIndex| r.contains(y) <==> reachable(a, s, y),
{
    assert forall|y: NodeIndex| r.contains(y) <==> reachable(a, s, y) by {
        if r.contains(y) {
            let k = choose|k: int| 0 <= k < r.len() && r[k] == y;
            let p = path_to(a, s, r, k);
            assert(is_path(a, p) && p[0] == s && p.last() == y);
        }
        if reachable(a, s, y) {
            let p = choose|p: Seq<NodeIndex>| #[trigger] is_path(a, p) && p[0] == s && p.last() == y;
            lemma_path_in_traversal(a, s, r, p, p.len() - 1);
        }
    }
}

/// Breadth-first and depth-first order from the same start list the same
/// nodes, the same number of them: they differ only in order.
pub proof fn lemma_bfs_dfs_same_nodes(a: Seq<Seq<NodeIndex>>, s: NodeIndex, b: Seq<NodeIndex>, d: Seq<NodeIndex>)
    requires
        is_bfs_order(a, s, b),
        is_dfs_order(a, s, d),
    ensures
        b.to_set() == d.to_set(),
        b.len() == d.len(),
{
    lemma_traversal_is_reachable_set(a, s, b);
    lemma_traversal_is_reachable_set(a, s, d);
    assert forall|y: NodeIndex| b.to_set().contains(y) <==> d.to_set().contains(y) by {
        assert(b.contains(y) == reachable(a, s, y));
        assert(d.contains(y) == reachable(a, s, y));
    }
    assert(b.to_set() =~= d.to_set());
    b.unique_seq_to_set();
    d.unique_seq_to_set();
}

/// Breadth-first order is determined: two sequences that are both the
/// breadth-first order from `s` are equal.
pub proof fn lemma_bfs_order_unique(a: Seq<Seq<NodeIndex>>, s: NodeIndex, r1: Seq<NodeIndex>, r2: Seq<NodeIndex>)
    requires
        is_bfs_order(a, s, r1),
        is_bfs_order(a, s, r2),
    ensures
        r1 == r2,
{
    lemma_traversals_same_size(a, s, r1, r2);
    lemma_bfs_prefix_equal(a, s, r1, r2, r1.len() as int);
    assert(r1 =~= r2);
}

/// Two traversals from the same start have the same length.
proof fn lemma_traversals_same_size(a: Seq<Seq<NodeIndex>>, s: NodeIndex, r1: Seq<NodeIndex>, r2: Seq<NodeIndex>)
    requires
        is_traversal(a, s, r1),
        is_traversal(a, s, r2),
    ensures
        r1.len() == r2.len(),
        r1.to_set() == r2.to_set(),
{
    lemma_traversal_is_reachable_set(a, s, r1);
    lemma_traversal_is_reachable_set(a, s, r2);
    assert forall|y: NodeIndex| r1.to_set().contains(y) <==> r2.to_set().contains(y) by {
        assert(r1.contains(y) == reachable(a, s, y));
        assert(r2.contains(y) == reachable(a, s, y));
    }
    assert(r1.to_set() =~= r2.to_set());
    r1.unique_seq_to_set();
    r2.unique_seq_to_set();
}

/// Two breadth-first orders from the same start agree on their first `m` nodes.
proof fn lemma_bfs_prefix_equal(a: Seq<Seq<NodeIndex>>, s: NodeIndex, r1: Seq<NodeIndex>, r2: Seq<NodeIndex>, m: int)
    requires
        is_bfs_order(a, s, r1),
        is_bfs_order(a, s, r2),
        r1.len() == r2.len(),
        0 <= m <= r1.len(),
    ensures
        forall|k: int| 0 <= k < m ==> r1[k] == r2[k],
    decreases m,
{
    if m > 0 {
        lemma_bfs_prefix_equal(a, s, r1, r2, m - 1);
        let k = m - 1;
        if k > 0 && r1[k] != r2[k] {
            // Where each is first met, in the other's order.
            assert(has_discovery(a, r1, k));
            let (j1, q1) = choose|j1: int, q1: int| j1 < k && #[trigger] discovered_at(a, r1, k, j1, q1);
            assert(has_discovery(a, r2, k));
            let (j2, q2) = choose|j2: int, q2: int| j2 < k && #[trigger] discovered_at(a, r2, k, j2, q2);
            // r1[k] is met at (j1, q1) in r2 too, so it comes after position k in r2.
            lemma_traversals_same_size(a, s, r1, r2);
            assert(r2.to_set().contains(r1[k]));
            let k2 = choose|k2: int| 0 <= k2 < r2.len() && r2[k2] == r1[k];
            let k1 = choose|k1: int| 0 <= k1 < r1.len() && r1[k1] == r2[k];
            assert(r1.to_set().contains(r2[k]));
            if k2 < k {
                assert(r1[k2] == r2[k2]);
                assert(r1[k2] == r1[k]);
            }
            if k1 < k {
                assert(r1[k1] == r2[k1]);
                assert(r2[k1] == r2[k]);
            }
            assert(k2 > k && k1 > k);
            lemma_discovered_transfer(a, r1, r2, k, j1, q1, k2);
            lemma_discovered_transfer(a, r2, r1, k, j2, q2, k1);
            // In r2: r2[k] at (j2, q2) before r1[k] at (j1, q1).
            assert(has_discovery(a, r2, k2));
            assert(has_discovery(a, r1, k1));
        }
    }
}

/// A node first met at `(j, q)` in `r` is first met there in `r2` too, when
/// `r` and `r2` agree before position `k` and `j < k`.
proof fn lemma_discovered_transfer(a: Seq<Seq<NodeIndex>>, r: Seq<NodeIndex>, r2: Seq<NodeIndex>, k: int, j: int, q: int, k2: int)
    requires
        discovered_at(a, r, k, j, q),
        j < k,
        k <= r2.len(),
        forall|i: int| 0 <= i < k ==> r[i] == r2[i],
        0 <= k2 < r2.len(),
        r2[k2] == r[k],
    ensures
        discovered_at(a, r2, k2, j, q),
{
    assert(r2[j] == r[j]);
    assert forall|j2: int| 0 <= j2 < j implies !(#[trigger] a[r2[j2].index as int].contains(r2[k2])) by {
        assert(r2[j2] == r[j2]);
    }
}

/// Depth-first order is determined: two sequences that are both the
/// depth-first order from `s` are equal.
pub proof fn lemma_dfs_order_unique(a: Seq<Seq<NodeIndex>>, s: NodeIndex, r1: Seq<NodeIndex>, r2: Seq<NodeIndex>)
    requires
        is_dfs_order(a, s, r1),
        is_dfs_order(a, s, r2),
    ensures
        r1 == r2,
{
    lemma_traversals_same_size(a, s, r1, r2);
    lemma_dfs_prefix_equal(a, s, r1, r2, r1.len() as int);
    assert(r1 =~= r2);
}

/// Two depth-first orders from the same start agree on their first `m` nodes.
proof fn lemma_dfs_prefix_equal(a: Seq<Seq<NodeIndex>>, s: NodeIndex, r1: Seq<NodeIndex>, r2: Seq<NodeIndex>, m: int)
    requires
        is_dfs_order(a, s, r1),
        is_dfs_order(a, s, r2),
        r1.len() == r2.len(),
        0 <= m <= r1.len(),
    ensures
        forall|k: int| 0 <= k < m ==> r1[k] == r2[k],
    decreases m,
{
    if m > 0 {
        lemma_dfs_prefix_equal(a, s, r1, r2, m - 1);
        let k = m - 1;
        if k > 0 {
            assert(dfs_next(a, r1, k));
            assert(dfs_next(a, r2, k));
            let (m1, q1) = choose|m1: int, q1: int| #[trigger] dfs_step(a, r1, k, m1, q1);
            let (m2, q2) = choose|m2: int, q2: int| #[trigger] dfs_step(a, r2, k, m2, q2);
            assert(r1.subrange(0, k) =~= r2.subrange(0, k));
            let pre = r1.subrange(0, k);
            assert(!pre.contains(r1[k])) by {
                if pre.contains(r1[k]) {
                    let w = choose|w: int| 0 <= w < pre.len() && pre[w] == r1[k];
                    assert(r1[w] == r1[k]);
                }
            }
            assert(!pre.contains(r2[k])) by {
                if pre.contains(r2[k]) {
                    let w = choose|w: int| 0 <= w < pre.len() && pre[w] == r2[k];
                    assert(r2[w] == r2[k]);
                }
            }
            assert(r1[m1] == r2[m1] && r1[m2] == r2[m2]);
            if m1 < m2 {
                assert(r1.subrange(0, k).contains(a[r1[m2].index as int][q2]));
            } else if m2 < m1 {
                assert(r2.subrange(0, k).contains(a[r2[m1].index as int][q1]));
            } else if q1 < q2 {
                assert(r2.subrange(0, k).contains(a[r2[m2].index as int][q1]));
            } else if q2 < q1 {
                assert(r1.subrange(0, k).contains(a[r1[m1].index as int][q2]));
            }
        }
    }
}

} // verus!
