use vstd::prelude::*;
use vstd::set_lib::{set_int_range, lemma_int_range, lemma_len_subset};
use crate::graph::{Graph, pos, pidx, in_grid};
use crate::maze::{lemma_idx_bounds, lemma_idx_injective};

verus! {

/// What a traversal found: which nodes it reached, and in what order.
pub struct Traversal {
    /// One flag per node of the graph, by index.
    pub visited: Vec<bool>,
    /// The indices of the reached nodes in the order they were visited.
    pub order: Vec<usize>,
    /// For each entry of `order` but the first, the position in `order` of the
    /// node it was reached from.
    pub parents: Ghost<Seq<int>>,
}

/// Node i has node j among its relations.
pub open spec fn edge(g: Graph, i: int, j: int) -> bool {
    &&& 0 <= i < g.nodes@.len()
    &&& 0 <= j < g.nodes@.len()
    &&& g.nodes@[i].relations@.contains(pos(g.nodes@[j]))
}

/// p is a sequence of node indices, each related to the next.
pub open spec fn is_walk(g: Graph, p: Seq<int>) -> bool {
    &&& p.len() > 0
    &&& forall|k: int| 0 <= k < p.len() ==> 0 <= #[trigger] p[k] < g.nodes@.len()
    &&& forall|k: int| 0 <= k < p.len() - 1 ==> edge(g, #[trigger] p[k], p[k + 1])
}

/// Node t can be reached from node s by following relations.
pub open spec fn reachable(g: Graph, s: int, t: int) -> bool {
    exists|p: Seq<int>| #[trigger] is_walk(g, p) && p[0] == s && p.last() == t
}

/// Every node reaches itself.
proof fn lemma_reach_start(g: Graph, s: int)
    requires
        0 <= s < g.nodes@.len(),
    ensures
        reachable(g, s, s),
{
    let p = seq![s];
    assert(is_walk(g, p));
}

/// What a node reaches, one more relation extends.
proof fn lemma_reach_step(g: Graph, s: int, u: int, j: int)
    requires
        reachable(g, s, u),
        edge(g, u, j),
    ensures
        reachable(g, s, j),
{
    let p = choose|p: Seq<int>| #[trigger] is_walk(g, p) && p[0] == s && p.last() == u;
    let q = p.push(j);
    assert forall|k: int| 0 <= k < q.len() - 1 implies edge(g, #[trigger] q[k], q[k + 1]) by {
        if k < p.len() - 1 {
            assert(q[k] == p[k] && q[k + 1] == p[k + 1]);
        }
    }
    assert(is_walk(g, q) && q[0] == s && q.last() == j);
}

/// A set of nodes that is closed under relations holds every node that a walk
/// from one of its members reaches.
proof fn lemma_closed_walk(g: Graph, visited: Seq<bool>, p: Seq<int>)
    requires
        visited.len() == g.nodes@.len(),
        is_walk(g, p),
        visited[p[0]],
        forall|i: int, j: int| 0 <= i < visited.len() && visited[i] && #[trigger] edge(g, i, j) ==> visited[j],
    ensures
        visited[p.last()],
    decreases p.len(),
{
    if p.len() > 1 {
        let q = p.drop_last();
        assert(is_walk(g, q)) by {
            assert forall|k: int| 0 <= k < q.len() - 1 implies edge(g, #[trigger] q[k], q[k + 1]) by {
                assert(q[k] == p[k] && q[k + 1] == p[k + 1]);
            }
        }
        lemma_closed_walk(g, visited, q);
        assert(edge(g, p[p.len() - 2], p[p.len() - 1]));
    }
}

/// The order is breadth-first: `parents[m]` is the position in `order` of the
/// node from which `order[m]` was reached, which is the earliest visited node
/// related to it, and these positions never decrease along `order`. So the
/// nodes are visited in non-decreasing distance from the first.
pub open spec fn breadth_first(g: Graph, order: Seq<usize>, parents: Seq<int>) -> bool {
    &&& parents.len() == order.len()
    &&& forall|m: int|
        0 < m < order.len() ==> 0 <= #[trigger] parents[m] < m && edge(
            g,
            order[parents[m]] as int,
            order[m] as int,
        )
    &&& forall|m: int, k: int|
        0 < m < order.len() && 0 <= k < parents[m] ==> !edge(
            g,
            #[trigger] order[k] as int,
            #[trigger] order[m] as int,
        )
    &&& forall|a: int, b: int|
        0 < a <= b < order.len() ==> #[trigger] parents[a] <= #[trigger] parents[b]
}

/// Node j waits in the queue at or after the head, put there while visiting
/// the node at position m of the order.
pub open spec fn queued_by(queue: Seq<usize>, from: Seq<int>, head: int, j: int, m: int) -> bool {
    exists|k: int| head <= k < queue.len() && queue[k] == j && from[k] == m
}

/// Walks the graph breadth-first from node `start`: a queue starts with it;
/// each node taken from the queue that is not yet visited is marked visited
/// and its unvisited related nodes join the queue. Exactly the nodes that
/// `start` can reach end up visited, each once, in breadth-first order.
pub fn traverse(graph: &Graph, start: usize) -> (t: Traversal)
    requires
        graph.wf(),
        start < graph.nodes@.len(),
    ensures
        t.visited@.len() == graph.nodes@.len(),
        forall|i: int|
            0 <= i < graph.nodes@.len() ==> (#[trigger] t.visited@[i] <==> reachable(
                *graph,
                start as int,
                i,
            )),
        forall|i: int|
            0 <= i < graph.nodes@.len() ==> (t.visited@[i] <==> #[trigger] t.order@.contains(
                i as usize,
            )),
        t.order@.no_duplicates(),
        t.order@.len() > 0 && t.order@[0] == start,
        breadth_first(*graph, t.order@, t.parents@),
{
    let ghost g = *graph;
    let n = graph.nodes.len();
    let mut visited: Vec<bool> = Vec::new();
    let mut i: usize = 0;
    while i < n
        invariant
            n == g.nodes@.len(),
            i <= n,
            visited@.len() == i,
            forall|k: int| 0 <= k < i ==> !#[trigger] visited@[k],
        decreases n - i,
    {
        visited.push(false);
        i = i + 1;
    }
    let mut queue: Vec<usize> = Vec::new();
    queue.push(start);
    let mut head: usize = 0;
    let mut order: Vec<usize> = Vec::new();
    let ghost mut vset: Set<int> = Set::empty();
    let ghost mut from: Seq<int> = seq![0];
    let ghost mut parents: Seq<int> = Seq::empty();
    proof {
        lemma_reach_start(g, start as int);
        lemma_int_range(0, n as int);
    }
    while head < queue.len()
        invariant
            g == *graph,
            graph.wf(),
            n == g.nodes@.len(),
            start < n,
            visited@.len() == n,
            head <= queue@.len(),
            queue@.len() > 0 && queue@[0] == start,
            head > 0 ==> visited@[start as int],
            head == 0 ==> order@.len() == 0,
            forall|k: int|
                0 <= k < queue@.len() ==> #[trigger] queue@[k] < n && reachable(
                    g,
                    start as int,
                    queue@[k] as int,
                ),
            forall|i: int| 0 <= i < n ==> #[trigger] visited@[i] ==> reachable(g, start as int, i),
            forall|i: int| 0 <= i < n ==> (visited@[i] <==> #[trigger] order@.contains(i as usize)),
            order@.no_duplicates(),
            order@.len() > 0 ==> order@[0] == start,
            head > 0 ==> order@.len() > 0,
            from.len() == queue@.len(),
            from[0] == 0,
            forall|a: int, b: int| 0 <= a <= b < from.len() ==> #[trigger] from[a] <= #[trigger] from[b],
            forall|k: int|
                0 < k < queue@.len() ==> 0 <= #[trigger] from[k] < order@.len() && edge(
                    g,
                    order@[from[k]] as int,
                    queue@[k] as int,
                ),
            breadth_first(g, order@, parents),
            order@.len() > 0 ==> forall|k: int|
                head <= k < queue@.len() ==> parents.last() <= #[trigger] from[k],
            forall|m: int, j: int|
                0 <= m < order@.len() && #[trigger] edge(g, order@[m] as int, j) && !visited@[j]
                    ==> queued_by(queue@, from, head as int, j, m),
            vset.subset_of(set_int_range(0, n as int)),
            set_int_range(0, n as int).finite(),
            set_int_range(0, n as int).len() == n,
            forall|i: int| 0 <= i < n ==> (visited@[i] <==> #[trigger] vset.contains(i)),
        decreases n - vset.len(), queue@.len() - head,
    {
        proof {
            lemma_len_subset(vset, set_int_range(0, n as int));
        }
        let u = queue[head];
        let ghost h0 = head as int;
        head = head + 1;
        if !visited[u] {
            let ghost o0 = order@;
            let ghost v0 = visited@;
            let ghost p0 = parents;
            let ghost lu = order@.len() as int;
            let ghost pu = from[h0];
            visited.set(u, true);
            order.push(u);
            proof {
                assert(!v0[u as int]);
                assert(!o0.contains((u as int) as usize));
                assert(!vset.contains(u as int));
                vset = vset.insert(u as int);
                lemma_len_subset(vset, set_int_range(0, n as int));
                parents = parents.push(pu);
                assert forall|i: int| 0 <= i < n implies (visited@[i] <==> #[trigger] order@.contains(i as usize)) by {
                    if i != u {
                        assert(visited@[i] == v0[i]);
                        if o0.contains(i as usize) {
                            let w = choose|w: int| 0 <= w < o0.len() && o0[w] == i as usize;
                            assert(order@[w] == i as usize);
                        }
                        if order@.contains(i as usize) {
                            let w = choose|w: int| 0 <= w < order@.len() && order@[w] == i as usize;
                            assert(w < o0.len());
                            assert(o0[w] == i as usize);
                        }
                    } else {
                        assert(order@[order@.len() - 1] == u);
                    }
                }
                assert forall|a: int, b: int| 0 <= a < b < order@.len() implies order@[a] != order@[b] by {
                    if b == o0.len() {
                        assert(o0.contains(o0[a]));
                    } else {
                        assert(o0[a] == order@[a] && o0[b] == order@[b]);
                    }
                }
                if o0.len() > 0 {
                    assert(order@[0] == o0[0]);
                } else {
                    assert(u == start);
                }
                // The new node's parent is the earliest visited node related to it.
                assert forall|k: int| 0 <= k < pu implies !edge(g, #[trigger] o0[k] as int, u as int) by {
                    if edge(g, o0[k] as int, u as int) {
                        let w = choose|w: int| h0 <= w < queue@.len() && queue@[w] == u && from[w] == k;
                        assert(from[h0] <= from[w]);
                    }
                }
                assert forall|m: int| 0 < m < order@.len() implies 0 <= #[trigger] parents[m] < m && edge(
                        g, order@[parents[m]] as int, order@[m] as int) by {
                    if m < lu {
                        assert(parents[m] == p0[m]);
                        assert(order@[p0[m]] == o0[p0[m]]);
                        assert(order@[m] == o0[m]);
                    } else {
                        assert(h0 > 0);
                        assert(order@[pu] == o0[pu]);
                    }
                }
                assert forall|m: int, k: int| 0 < m < order@.len() && 0 <= k < parents[m] implies !edge(
                        g, #[trigger] order@[k] as int, #[trigger] order@[m] as int) by {
                    assert(order@[k] == o0[k]);
                    if m < lu {
                        assert(parents[m] == p0[m]);
                        assert(order@[m] == o0[m]);
                    }
                }
                assert forall|a: int, b: int| 0 < a <= b < order@.len() implies #[trigger] parents[a] <= #[trigger] parents[b] by {
                    if b == lu && a < lu {
                        assert(p0[a] <= p0.last());
                    }
                }
                assert(breadth_first(g, order@, parents));
                assert forall|m: int, j: int|
                    0 <= m < lu && #[trigger] edge(g, order@[m] as int, j) && !visited@[j]
                        implies queued_by(queue@, from, head as int, j, m) by {
                    assert(order@[m] == o0[m]);
                    assert(!v0[j]);
                    let w = choose|w: int| h0 <= w < queue@.len() && queue@[w] == j && from[w] == m;
                    assert(w != h0);
                }
            }
            let rels = &graph.nodes[u].relations;
            let mut k: usize = 0;
            while k < rels.len()
                invariant
                    g == *graph,
                    graph.wf(),
                    n == g.nodes@.len(),
                    u < n,
                    visited@.len() == n,
                    visited@[u as int],
                    0 <= lu,
                    lu == order@.len() - 1,
                    order@[lu] == u,
                    *rels == g.nodes@[u as int].relations,
                    k <= rels@.len(),
                    head <= queue@.len(),
                    queue@.len() > 0 && queue@[0] == start,
                    reachable(g, start as int, u as int),
                    forall|m: int|
                        0 <= m < queue@.len() ==> #[trigger] queue@[m] < n && reachable(
                            g,
                            start as int,
                            queue@[m] as int,
                        ),
                    from.len() == queue@.len(),
                    from[0] == 0,
                    forall|a: int, b: int|
                        0 <= a <= b < from.len() ==> #[trigger] from[a] <= #[trigger] from[b],
                    forall|kk: int|
                        0 < kk < queue@.len() ==> 0 <= #[trigger] from[kk] < order@.len() && edge(
                            g,
                            order@[from[kk]] as int,
                            queue@[kk] as int,
                        ),
                    forall|kk: int| 0 <= kk < queue@.len() ==> #[trigger] from[kk] <= lu,
                    forall|kk: int| head <= kk < queue@.len() ==> parents.last() <= #[trigger] from[kk],
                    parents.last() <= lu,
                    forall|m: int, j: int|
                        0 <= m < lu && #[trigger] edge(g, order@[m] as int, j) && !visited@[j]
                            ==> queued_by(queue@, from, head as int, j, m),
                    forall|mm: int|
                        0 <= mm < k ==> {
                            let j = graph.slots@[pidx(graph.width as int, #[trigger] rels@[mm])]->0 as int;
                            visited@[j] || queued_by(queue@, from, head as int, j, lu)
                        },
                decreases rels@.len() - k,
            {
                let (qx, qy) = rels[k];
                proof {
                    assert(in_grid(graph.width as int, graph.height as int, rels@[k as int]));
                }
                let j = match graph.node_index(qx, qy) {
                    Some(j) => j,
                    None => {
                        proof {
                            assert(false);
                        }
                        0
                    },
                };
                proof {
                    let c = pidx(graph.width as int, (qx, qy));
                    lemma_idx_bounds(graph.width as int, graph.height as int, qx as int, qy as int);
                    assert(graph.slots@[c] == Some(j));
                    assert(j < n);
                    let pj = pos(g.nodes@[j as int]);
                    assert(in_grid(graph.width as int, graph.height as int, pj));
                    assert(pidx(graph.width as int, pj) == c);
                    lemma_idx_injective(graph.width as int, pj.0 as int, pj.1 as int, qx as int, qy as int);
                    assert(pos(g.nodes@[j as int]) == (qx, qy));
                    assert(g.nodes@[u as int].relations@.contains(pos(g.nodes@[j as int])));
                    lemma_reach_step(g, start as int, u as int, j as int);
                }
                let ghost qprev = queue@;
                let ghost fprev = from;
                if !visited[j] {
                    queue.push(j);
                    proof {
                        from = from.push(lu);
                    }
                }
                proof {
                    assert forall|jj: int, m: int| queued_by(qprev, fprev, head as int, jj, m) implies queued_by(
                        queue@, from, head as int, jj, m) by {
                        let w = choose|w: int| head <= w < qprev.len() && qprev[w] == jj && fprev[w] == m;
                        assert(queue@[w] == jj && from[w] == m);
                    }
                    if !visited@[j as int] {
                        assert(queue@[queue@.len() - 1] == j && from[from.len() - 1] == lu);
                    }
                    assert forall|m: int| 0 <= m < queue@.len() implies #[trigger] queue@[m] < n && reachable(
                            g, start as int, queue@[m] as int) by {
                        if m < qprev.len() {
                            assert(queue@[m] == qprev[m]);
                        }
                    }
                    assert forall|kk: int| 0 < kk < queue@.len() implies 0 <= #[trigger] from[kk] < order@.len() && edge(
                            g, order@[from[kk]] as int, queue@[kk] as int) by {
                        if kk < qprev.len() {
                            assert(queue@[kk] == qprev[kk] && from[kk] == fprev[kk]);
                        }
                    }
                    assert forall|a: int, b: int| 0 <= a <= b < from.len() implies #[trigger] from[a] <= #[trigger] from[b] by {
                        if b >= fprev.len() && a < fprev.len() {
                            assert(fprev[a] <= lu);
                        }
                    }
                    assert forall|kk: int| head <= kk < queue@.len() implies parents.last() <= #[trigger] from[kk] by {
                        if kk < qprev.len() {
                            assert(from[kk] == fprev[kk]);
                        }
                    }
                    assert forall|kk: int| 0 <= kk < queue@.len() implies #[trigger] from[kk] <= lu by {
                        if kk < qprev.len() {
                            assert(from[kk] == fprev[kk]);
                        }
                    }
                }
                k = k + 1;
            }
            proof {
                assert forall|m: int, j: int|
                    0 <= m < order@.len() && #[trigger] edge(g, order@[m] as int, j) && !visited@[j]
                        implies queued_by(queue@, from, head as int, j, m) by {
                    if m == lu {
                        let pj = pos(g.nodes@[j]);
                        let mm = choose|mm: int| 0 <= mm < rels@.len() && rels@[mm] == pj;
                        assert(graph.slots@[pidx(graph.width as int, rels@[mm])] == Some(j as usize));
                    }
                }
            }
        } else {
            proof {
                if order@.len() == 0 {
                    assert(visited@[u as int]);
                    assert(order@.contains((u as int) as usize));
                }
                assert forall|m: int, j: int|
                    0 <= m < order@.len() && #[trigger] edge(g, order@[m] as int, j) && !visited@[j]
                        implies queued_by(queue@, from, head as int, j, m) by {
                    let w = choose|w: int| h0 <= w < queue@.len() && queue@[w] == j && from[w] == m;
                    assert(w != h0);
                }
            }
        }
    }
    proof {
        assert(visited@[start as int]);
        assert forall|i: int, j: int| 0 <= i < visited@.len() && visited@[i] && #[trigger] edge(g, i, j) implies visited@[j] by {
            assert(order@.contains(i as usize));
            let m = choose|m: int| 0 <= m < order@.len() && order@[m] == i as usize;
            assert(edge(g, order@[m] as int, j));
            if !visited@[j] {
                assert(queued_by(queue@, from, head as int, j, m));
            }
        }
        assert forall|i: int| 0 <= i < n implies (#[trigger] visited@[i] <==> reachable(g, start as int, i)) by {
            if reachable(g, start as int, i) {
                let p = choose|p: Seq<int>| #[trigger] is_walk(g, p) && p[0] == start && p.last() == i;
                lemma_closed_walk(g, visited@, p);
            }
        }
    }
    Traversal { visited, order, parents: Ghost(parents) }
}

/// Walks the graph breadth-first from the first terminal node; `None` when the
/// graph has no terminal node.
pub fn run(graph: &Graph) -> (r: Option<Traversal>)
    requires
        graph.wf(),
    ensures
        graph.terminal_nodes@.len() == 0 <==> r is None,
        r matches Some(t) ==> {
            let s = graph.slots@[pidx(graph.width as int, graph.terminal_nodes@[0])]->0 as int;
            &&& t.visited@.len() == graph.nodes@.len()
            &&& forall|i: int|
                0 <= i < graph.nodes@.len() ==> (#[trigger] t.visited@[i] <==> reachable(*graph, s, i))
            &&& forall|i: int|
                0 <= i < graph.nodes@.len() ==> (t.visited@[i] <==> #[trigger] t.order@.contains(
                    i as usize,
                ))
            &&& t.order@.no_duplicates()
            &&& t.order@.len() > 0 && t.order@[0] as int == s
            &&& breadth_first(*graph, t.order@, t.parents@)
        },
{
    if graph.terminal_nodes.len() == 0 {
        return None;
    }
    let (x, y) = graph.terminal_nodes[0];
    proof {
        assert(in_grid(graph.width as int, graph.height as int, graph.terminal_nodes@[0]));
        lemma_idx_bounds(graph.width as int, graph.height as int, x as int, y as int);
    }
    match graph.node_index(x, y) {
        Some(start) => Some(traverse(graph, start)),
        None => {
            proof {
                assert(false);
            }
            None
        },
    }
}

impl Traversal {
    /// The indices of the nodes that the walk did not reach, in increasing order.
    pub fn unvisited(&self) -> (r: Vec<usize>)
        ensures
            forall|i: int|
                0 <= i < self.visited@.len() ==> (!self.visited@[i] <==> #[trigger] r@.contains(
                    i as usize,
                )),
            forall|k: int| 0 <= k < r@.len() ==> #[trigger] r@[k] < self.visited@.len(),
            forall|a: int, b: int| 0 <= a < b < r@.len() ==> #[trigger] r@[a] < #[trigger] r@[b],
    {
        let mut r: Vec<usize> = Vec::new();
        let mut i: usize = 0;
        while i < self.visited.len()
            invariant
                i <= self.visited@.len(),
                forall|k: int|
                    0 <= k < i ==> (!self.visited@[k] <==> #[trigger] r@.contains(k as usize)),
                forall|k: int| 0 <= k < r@.len() ==> #[trigger] r@[k] < i,
                forall|a: int, b: int| 0 <= a < b < r@.len() ==> #[trigger] r@[a] < #[trigger] r@[b],
            decreases self.visited@.len() - i,
        {
            let ghost r0 = r@;
            if !self.visited[i] {
                r.push(i);
            }
            proof {
                assert forall|k: int| 0 <= k < i + 1 implies (!self.visited@[k] <==> #[trigger] r@.contains(k as usize)) by {
                    if r0.contains(k as usize) {
                        let w = choose|w: int| 0 <= w < r0.len() && r0[w] == k as usize;
                        assert(r@[w] == k as usize);
                    }
                    if r@.contains(k as usize) {
                        let w = choose|w: int| 0 <= w < r@.len() && r@[w] == k as usize;
                        if w < r0.len() {
                            assert(r0[w] == k as usize);
                        }
                    }
                    if k == i && !self.visited@[k] {
                        assert(r@[r@.len() - 1] == i);
                    }
                }
            }
            i = i + 1;
        }
        r
    }
}

} // verus!
