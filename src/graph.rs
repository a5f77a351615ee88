use vstd::prelude::*;
use crate::maze::{CellType, Maze, idx, coords_to_index, lemma_idx_bounds, lemma_idx_injective, lemma_idx_order};

verus! {

/// A node of the graph: its position and the positions of the nodes it is
/// directly joined to.
pub struct GraphNode {
    pub x: u32,
    pub y: u32,
    pub relations: Vec<(u32, u32)>,
}

/// The nodes of a classified grid, in row-major order, with the edges between
/// them and the nodes that lie on the grid's border.
pub struct Graph {
    pub width: u32,
    pub height: u32,
    /// Every node, ordered by position in the row-major scan.
    pub nodes: Vec<GraphNode>,
    /// For each cell, the index in `nodes` of the node standing there.
    pub slots: Vec<Option<usize>>,
    /// Positions of the nodes on the border, in row-major order.
    pub terminal_nodes: Vec<(u32, u32)>,
}

pub open spec fn pos(n: GraphNode) -> (u32, u32) {
    (n.x, n.y)
}

pub open spec fn pidx(w: int, p: (u32, u32)) -> int {
    idx(w, p.0 as int, p.1 as int)
}

pub open spec fn in_grid(w: int, h: int, p: (u32, u32)) -> bool {
    p.0 < w && p.1 < h
}

pub open spec fn on_border(w: int, h: int, p: (u32, u32)) -> bool {
    p.0 == 0 || p.1 == 0 || p.0 == w - 1 || p.1 == h - 1
}

/// Every cell of row y strictly between columns a and b is a path.
pub open spec fn clear_row(cells: Seq<CellType>, w: int, y: int, a: int, b: int) -> bool {
    forall|k: int| a < k < b ==> #[trigger] cells[idx(w, k, y)] == CellType::Path
}

/// Every cell of column x strictly between rows a and b is a path.
pub open spec fn clear_column(cells: Seq<CellType>, w: int, x: int, a: int, b: int) -> bool {
    forall|k: int| a < k < b ==> #[trigger] cells[idx(w, x, k)] == CellType::Path
}

/// Nodes at (a, y) and (b, y), with a < b, joined by an unbroken run of paths.
pub open spec fn corridor_row(cells: Seq<CellType>, w: int, h: int, y: int, a: int, b: int) -> bool {
    &&& 0 <= a < b < w
    &&& 0 <= y < h
    &&& cells[idx(w, a, y)] == CellType::Node
    &&& cells[idx(w, b, y)] == CellType::Node
    &&& clear_row(cells, w, y, a, b)
}

/// Nodes at (x, a) and (x, b), with a < b, joined by an unbroken run of paths.
pub open spec fn corridor_column(cells: Seq<CellType>, w: int, h: int, x: int, a: int, b: int) -> bool {
    &&& 0 <= a < b < h
    &&& 0 <= x < w
    &&& cells[idx(w, x, a)] == CellType::Node
    &&& cells[idx(w, x, b)] == CellType::Node
    &&& clear_column(cells, w, x, a, b)
}

/// The nodes at p and q are directly joined: they share a row or a column and
/// only paths lie between them.
pub open spec fn linked(cells: Seq<CellType>, w: int, h: int, p: (u32, u32), q: (u32, u32)) -> bool {
    (p.1 == q.1 && (corridor_row(cells, w, h, p.1 as int, q.0 as int, p.0 as int) || corridor_row(
        cells,
        w,
        h,
        p.1 as int,
        p.0 as int,
        q.0 as int,
    ))) || (p.0 == q.0 && (corridor_column(cells, w, h, p.0 as int, q.1 as int, p.1 as int)
        || corridor_column(cells, w, h, p.0 as int, p.1 as int, q.1 as int)))
}

/// The nodes of `cells` whose row-major positions lie below r, and no others,
/// stand in `g.nodes` in row-major order, and `g.slots` indexes them.
pub open spec fn skeleton(g: Graph, cells: Seq<CellType>, w: int, h: int, r: int) -> bool {
    &&& g.width as int == w
    &&& g.height as int == h
    &&& cells.len() == w * h
    &&& cells.len() <= usize::MAX
    &&& g.slots@.len() == w * h
    &&& forall|i: int|
        0 <= i < g.nodes@.len() ==> {
            &&& in_grid(w, h, #[trigger] pos(g.nodes@[i]))
            &&& cells[pidx(w, pos(g.nodes@[i]))] == CellType::Node
            &&& pidx(w, pos(g.nodes@[i])) < r
            &&& g.slots@[pidx(w, pos(g.nodes@[i]))] == Some(i as usize)
        }
    &&& forall|i: int, j: int|
        0 <= i < j < g.nodes@.len() ==> pidx(w, #[trigger] pos(g.nodes@[i])) < pidx(
            w,
            #[trigger] pos(g.nodes@[j]),
        )
    &&& forall|c: int|
        0 <= c < w * h ==> match #[trigger] g.slots@[c] {
            Some(i) => i < g.nodes@.len() && pidx(w, pos(g.nodes@[i as int])) == c,
            None => true,
        }
    &&& forall|c: int|
        0 <= c < w * h ==> ((#[trigger] g.slots@[c]) is Some <==> (cells[c] == CellType::Node && c
            < r))
}

/// The relations of every node are exactly its links to nodes below r.
pub open spec fn relations_upto(g: Graph, cells: Seq<CellType>, w: int, h: int, r: int) -> bool {
    &&& forall|i: int|
        0 <= i < g.nodes@.len() ==> (#[trigger] g.nodes@[i].relations@).no_duplicates()
    &&& forall|i: int, q: (u32, u32)|
        0 <= i < g.nodes@.len() ==> (#[trigger] g.nodes@[i].relations@.contains(q) <==> (linked(
            cells,
            w,
            h,
            pos(g.nodes@[i]),
            q,
        ) && pidx(w, q) < r))
}

/// The terminal list holds, in row-major order, the border nodes below r.
pub open spec fn terminals_upto(g: Graph, cells: Seq<CellType>, w: int, h: int, r: int) -> bool {
    &&& forall|p: (u32, u32)|
        #[trigger] g.terminal_nodes@.contains(p) <==> (in_grid(w, h, p) && cells[pidx(w, p)]
            == CellType::Node && on_border(w, h, p) && pidx(w, p) < r)
    &&& forall|a: int, b: int|
        0 <= a < b < g.terminal_nodes@.len() ==> pidx(w, #[trigger] g.terminal_nodes@[a]) < pidx(
            w,
            #[trigger] g.terminal_nodes@[b],
        )
}

/// The graph of the nodes of `cells` whose row-major positions lie below r.
pub open spec fn built_upto(g: Graph, cells: Seq<CellType>, w: int, h: int, r: int) -> bool {
    &&& skeleton(g, cells, w, h, r)
    &&& relations_upto(g, cells, w, h, r)
    &&& terminals_upto(g, cells, w, h, r)
}

/// Two row corridors that end at the same node start at the same node.
pub proof fn lemma_corridor_row_unique(cells: Seq<CellType>, w: int, h: int, y: int, a1: int, a2: int, b: int)
    requires
        corridor_row(cells, w, h, y, a1, b),
        corridor_row(cells, w, h, y, a2, b),
    ensures
        a1 == a2,
{
    if a1 < a2 {
        assert(cells[idx(w, a2, y)] == CellType::Path);
    } else if a2 < a1 {
        assert(cells[idx(w, a1, y)] == CellType::Path);
    }
}

/// Two column corridors that end at the same node start at the same node.
pub proof fn lemma_corridor_column_unique(cells: Seq<CellType>, w: int, h: int, x: int, a1: int, a2: int, b: int)
    requires
        corridor_column(cells, w, h, x, a1, b),
        corridor_column(cells, w, h, x, a2, b),
    ensures
        a1 == a2,
{
    if a1 < a2 {
        assert(cells[idx(w, x, a2)] == CellType::Path);
    } else if a2 < a1 {
        assert(cells[idx(w, x, a1)] == CellType::Path);
    }
}

/// A node linked to p that comes before p in the scan lies to its left or above it.
pub proof fn lemma_linked_earlier(cells: Seq<CellType>, w: int, h: int, p: (u32, u32), q: (u32, u32))
    requires
        in_grid(w, h, p),
        linked(cells, w, h, p, q),
        pidx(w, q) < pidx(w, p),
    ensures
        (q.1 == p.1 && corridor_row(cells, w, h, p.1 as int, q.0 as int, p.0 as int)) || (q.0 == p.0
            && corridor_column(cells, w, h, p.0 as int, q.1 as int, p.1 as int)),
{
    lemma_idx_order(w, q.0 as int, q.1 as int, p.0 as int, p.1 as int);
}

/// Looks left of (x, y) for the nearest node that only paths separate from it.
fn scan_left(maze: &Maze, x: u32, y: u32) -> (r: Option<u32>)
    requires
        maze.wf(),
        x < maze.width,
        y < maze.height,
        maze.cells@[idx(maze.width as int, x as int, y as int)] == CellType::Node,
    ensures
        r matches Some(a) ==> corridor_row(
            maze.cells@,
            maze.width as int,
            maze.height as int,
            y as int,
            a as int,
            x as int,
        ),
        r is None ==> forall|a: int|
            !corridor_row(
                maze.cells@,
                maze.width as int,
                maze.height as int,
                y as int,
                a,
                x as int,
            ),
{
    let ghost w = maze.width as int;
    let mut k: u32 = x;
    while k > 0
        invariant
            maze.wf(),
            k <= x < maze.width,
            y < maze.height,
            w == maze.width,
            clear_row(maze.cells@, w, y as int, k as int - 1, x as int),
            maze.cells@[idx(w, x as int, y as int)] == CellType::Node,
        decreases k,
    {
        let c = maze.cell(k - 1, y);
        match c {
            CellType::Wall => {
                assert forall|a: int| !corridor_row(maze.cells@, w, maze.height as int, y as int, a, x as int) by {
                    if 0 <= a < k - 1 {
                        assert(maze.cells@[idx(w, k - 1, y as int)] == CellType::Wall);
                    }
                }
                return None;
            },
            CellType::Path => {
                k = k - 1;
            },
            CellType::Node => {
                return Some(k - 1);
            },
        }
    }
    None
}

/// Looks above (x, y) for the nearest node that only paths separate from it.
fn scan_up(maze: &Maze, x: u32, y: u32) -> (r: Option<u32>)
    requires
        maze.wf(),
        x < maze.width,
        y < maze.height,
        maze.cells@[idx(maze.width as int, x as int, y as int)] == CellType::Node,
    ensures
        r matches Some(a) ==> corridor_column(
            maze.cells@,
            maze.width as int,
            maze.height as int,
            x as int,
            a as int,
            y as int,
        ),
        r is None ==> forall|a: int|
            !corridor_column(
                maze.cells@,
                maze.width as int,
                maze.height as int,
                x as int,
                a,
                y as int,
            ),
{
    let ghost w = maze.width as int;
    let mut k: u32 = y;
    while k > 0
        invariant
            maze.wf(),
            x < maze.width,
            k <= y < maze.height,
            w == maze.width,
            clear_column(maze.cells@, w, x as int, k as int - 1, y as int),
            maze.cells@[idx(w, x as int, y as int)] == CellType::Node,
        decreases k,
    {
        let c = maze.cell(x, k - 1);
        match c {
            CellType::Wall => {
                assert forall|a: int| !corridor_column(maze.cells@, w, maze.height as int, x as int, a, y as int) by {
                    if 0 <= a < k - 1 {
                        assert(maze.cells@[idx(w, x as int, k - 1)] == CellType::Wall);
                    }
                }
                return None;
            },
            CellType::Path => {
                k = k - 1;
            },
            CellType::Node => {
                return Some(k - 1);
            },
        }
    }
    None
}

/// The graph's nodes and slots are the same in both, and so are the relations
/// of every node but `j`, which gained p.
pub open spec fn gained(g0: Graph, g1: Graph, j: int, p: (u32, u32)) -> bool {
    &&& g1.width == g0.width
    &&& g1.height == g0.height
    &&& g1.slots@ == g0.slots@
    &&& g1.terminal_nodes@ == g0.terminal_nodes@
    &&& g1.nodes@.len() == g0.nodes@.len()
    &&& forall|i: int| 0 <= i < g0.nodes@.len() ==> #[trigger] pos(g1.nodes@[i]) == pos(g0.nodes@[i])
    &&& forall|i: int|
        0 <= i < g0.nodes@.len() && i != j ==> (#[trigger] g1.nodes@[i].relations)@ == g0.nodes@[i].relations@
    &&& g1.nodes@[j].relations@ == g0.nodes@[j].relations@.push(p)
}

/// Joins the node at (x, y), not yet in the graph, to the nearest node on its
/// left that only paths separate from it, if there is one: each gains the
/// other's position. Returns that node's column.
fn join_cell_to_the_left(x: u32, y: u32, maze: &Maze, graph: &mut Graph, node: &mut GraphNode) -> (r: Option<u32>)
    requires
        maze.wf(),
        x < maze.width,
        y < maze.height,
        maze.cells@[idx(maze.width as int, x as int, y as int)] == CellType::Node,
        skeleton(*old(graph), maze.cells@, maze.width as int, maze.height as int, idx(maze.width as int, x as int, y as int)),
    ensures
        pos(*final(node)) == pos(*old(node)),
        match r {
            Some(a) => {
                &&& corridor_row(maze.cells@, maze.width as int, maze.height as int, y as int, a as int, x as int)
                &&& old(graph).slots@[idx(maze.width as int, a as int, y as int)] matches Some(j)
                    && gained(*old(graph), *final(graph), j as int, (x, y))
                &&& final(node).relations@ == old(node).relations@.push((a, y))
            },
            None => {
                &&& forall|a: int| !corridor_row(maze.cells@, maze.width as int, maze.height as int, y as int, a, x as int)
                &&& *final(graph) == *old(graph)
                &&& *final(node) == *old(node)
            },
        },
{
    let ghost w = maze.width as int;
    let ghost h = maze.height as int;
    match scan_left(maze, x, y) {
        None => None,
        Some(a) => {
            proof {
                lemma_idx_bounds(w, h, a as int, y as int);
                lemma_idx_order(w, a as int, y as int, x as int, y as int);
            }
            let c = coords_to_index(maze.width, maze.height, a, y);
            let j = match graph.slots[c] {
                Some(j) => j,
                None => {
                    proof {
                        assert(false);
                    }
                    return None;
                },
            };
            let ghost g0 = *graph;
            graph.nodes[j].relations.push((x, y));
            node.relations.push((a, y));
            proof {
                assert(gained(g0, *graph, j as int, (x, y)));
            }
            Some(a)
        },
    }
}

/// Joins the node at (x, y), not yet in the graph, to the nearest node above it
/// that only paths separate from it, if there is one: each gains the other's
/// position. Returns that node's row.
fn join_cell_to_the_top(x: u32, y: u32, maze: &Maze, graph: &mut Graph, node: &mut GraphNode) -> (r: Option<u32>)
    requires
        maze.wf(),
        x < maze.width,
        y < maze.height,
        maze.cells@[idx(maze.width as int, x as int, y as int)] == CellType::Node,
        skeleton(*old(graph), maze.cells@, maze.width as int, maze.height as int, idx(maze.width as int, x as int, y as int)),
    ensures
        pos(*final(node)) == pos(*old(node)),
        match r {
            Some(b) => {
                &&& corridor_column(maze.cells@, maze.width as int, maze.height as int, x as int, b as int, y as int)
                &&& old(graph).slots@[idx(maze.width as int, x as int, b as int)] matches Some(j)
                    && gained(*old(graph), *final(graph), j as int, (x, y))
                &&& final(node).relations@ == old(node).relations@.push((x, b))
            },
            None => {
                &&& forall|b: int| !corridor_column(maze.cells@, maze.width as int, maze.height as int, x as int, b, y as int)
                &&& *final(graph) == *old(graph)
                &&& *final(node) == *old(node)
            },
        },
{
    let ghost w = maze.width as int;
    let ghost h = maze.height as int;
    match scan_up(maze, x, y) {
        None => None,
        Some(b) => {
            proof {
                lemma_idx_bounds(w, h, x as int, b as int);
                lemma_idx_order(w, x as int, b as int, x as int, y as int);
            }
            let c = coords_to_index(maze.width, maze.height, x, b);
            let j = match graph.slots[c] {
                Some(j) => j,
                None => {
                    proof {
                        assert(false);
                    }
                    return None;
                },
            };
            let ghost g0 = *graph;
            graph.nodes[j].relations.push((x, y));
            node.relations.push((x, b));
            proof {
                assert(gained(g0, *graph, j as int, (x, y)));
            }
            Some(b)
        },
    }
}

/// A cell that is not a node adds nothing to a graph built up to it.
proof fn lemma_step_plain(g: Graph, cells: Seq<CellType>, w: int, h: int, x: int, y: int)
    requires
        0 <= x < w,
        0 <= y < h,
        cells[idx(w, x, y)] != CellType::Node,
        built_upto(g, cells, w, h, idx(w, x, y)),
    ensures
        built_upto(g, cells, w, h, idx(w, x, y) + 1),
{
    let r = idx(w, x, y);
    assert forall|i: int, q: (u32, u32)| 0 <= i < g.nodes@.len() implies (
        #[trigger] g.nodes@[i].relations@.contains(q) <==> (linked(cells, w, h, pos(g.nodes@[i]), q) && pidx(w, q) < r + 1)) by {
        if linked(cells, w, h, pos(g.nodes@[i]), q) && pidx(w, q) == r {
            lemma_idx_injective(w, q.0 as int, q.1 as int, x, y);
        }
    }
    assert forall|p: (u32, u32)| #[trigger] g.terminal_nodes@.contains(p) <==> (in_grid(w, h, p) && cells[pidx(w, p)]
            == CellType::Node && on_border(w, h, p) && pidx(w, p) < r + 1) by {
        if in_grid(w, h, p) && pidx(w, p) == r {
            lemma_idx_injective(w, p.0 as int, p.1 as int, x, y);
        }
    }
}

/// Builds the graph of a classified grid: one node per node cell, in
/// row-major order; an edge, recorded on both sides, between every two nodes
/// that share a row or a column with only paths between them; and the list of
/// the nodes on the grid's border.
pub fn create_graph(maze: &Maze) -> (g: Graph)
    requires
        maze.wf(),
    ensures
        g.built_from(maze.cells@, maze.width as int, maze.height as int),
{
    let ghost cells = maze.cells@;
    let ghost w = maze.width as int;
    let ghost h = maze.height as int;
    let n = maze.cells.len();
    let mut slots: Vec<Option<usize>> = Vec::new();
    let mut i: usize = 0;
    while i < n
        invariant
            n == cells.len(),
            i <= n,
            slots@.len() == i,
            forall|c: int| 0 <= c < i ==> #[trigger] slots@[c] is None,
        decreases n - i,
    {
        slots.push(None);
        i = i + 1;
    }
    let mut graph = Graph {
        width: maze.width,
        height: maze.height,
        nodes: Vec::new(),
        slots,
        terminal_nodes: Vec::new(),
    };
    assert(built_upto(graph, cells, w, h, 0));
    let mut y: u32 = 0;
    while y < maze.height
        invariant
            maze.wf(),
            maze.cells@ == cells,
            maze.width as int == w,
            maze.height as int == h,
            0 <= y <= h,
            built_upto(graph, cells, w, h, idx(w, 0, y as int)),
        decreases h - y,
    {
        let mut x: u32 = 0;
        while x < maze.width
            invariant
                maze.wf(),
                maze.cells@ == cells,
                maze.width as int == w,
                maze.height as int == h,
                0 <= y < h,
                0 <= x <= w,
                built_upto(graph, cells, w, h, idx(w, x as int, y as int)),
            decreases w - x,
        {
            let ghost r = idx(w, x as int, y as int);
            proof {
                lemma_idx_bounds(w, h, x as int, y as int);
            }
            if maze.cell(x, y) == CellType::Node {
                let ghost g0 = graph;
                let mut node = GraphNode { x, y, relations: Vec::new() };
                let left = join_cell_to_the_left(x, y, maze, &mut graph, &mut node);
                let ghost g1 = graph;
                assert(skeleton(g1, cells, w, h, r));
                let top = join_cell_to_the_top(x, y, maze, &mut graph, &mut node);
                let ghost g2 = graph;
                let k = graph.nodes.len();
                let c = coords_to_index(maze.width, maze.height, x, y);
                graph.nodes.push(node);
                graph.slots.set(c, Some(k));
                if x == 0 || y == 0 || x == maze.width - 1 || y == maze.height - 1 {
                    graph.terminal_nodes.push((x, y));
                }
                proof {
                    assert(g2.nodes@.len() == g0.nodes@.len());
                    assert(graph.nodes@[k as int].relations@ =~= first_relations(left, top, x, y));
                    assert(node_step(g0, g1, g2, graph, cells, w, h, x, y, left, top));
                    lemma_step_skeleton(g0, g1, g2, graph, cells, w, h, x, y, left, top);
                    lemma_step_relations(g0, g1, g2, graph, cells, w, h, x, y, left, top);
                    lemma_step_terminals(g0, g1, g2, graph, cells, w, h, x, y, left, top);
                }
            } else {
                proof {
                    lemma_step_plain(graph, cells, w, h, x as int, y as int);
                }
            }
            x = x + 1;
        }
        assert(idx(w, w, y as int) == idx(w, 0, y + 1)) by (nonlinear_arith);
        y = y + 1;
    }
    proof {
        assert(idx(w, 0, h) == w * h) by (nonlinear_arith);
        lemma_built_wf(graph, cells, w, h);
    }
    graph
}

/// The relations that a new node at (x, y) starts with, from what its two
/// join scans found.
pub open spec fn first_relations(left: Option<u32>, top: Option<u32>, x: u32, y: u32) -> Seq<(u32, u32)> {
    let l = match left {
        Some(a) => seq![(a, y)],
        None => Seq::<(u32, u32)>::empty(),
    };
    let t = match top {
        Some(b) => seq![(x, b)],
        None => Seq::<(u32, u32)>::empty(),
    };
    l + t
}

/// The outcome of one join scan: g0 becomes g1.
pub open spec fn join_outcome(g0: Graph, g1: Graph, slot: int, found: bool, p: (u32, u32)) -> bool {
    if found {
        g0.slots@[slot] matches Some(j) && gained(g0, g1, j as int, p)
    } else {
        g1 == g0
    }
}

/// One node step of the builder: g0 is the graph before the node at (x, y),
/// g1 and g2 follow its two joins, and g3 holds the node itself.
pub open spec fn node_step(
    g0: Graph,
    g1: Graph,
    g2: Graph,
    g3: Graph,
    cells: Seq<CellType>,
    w: int,
    h: int,
    x: u32,
    y: u32,
    left: Option<u32>,
    top: Option<u32>,
) -> bool {
    &&& x < w
    &&& y < h
    &&& cells[idx(w, x as int, y as int)] == CellType::Node
    &&& built_upto(g0, cells, w, h, idx(w, x as int, y as int))
    &&& left matches Some(a) ==> corridor_row(cells, w, h, y as int, a as int, x as int)
    &&& left is None ==> forall|a: int| !corridor_row(cells, w, h, y as int, a, x as int)
    &&& top matches Some(b) ==> corridor_column(cells, w, h, x as int, b as int, y as int)
    &&& top is None ==> forall|b: int| !corridor_column(cells, w, h, x as int, b, y as int)
    &&& join_outcome(g0, g1, match left { Some(a) => idx(w, a as int, y as int), None => 0 }, left is Some, (x, y))
    &&& join_outcome(g1, g2, match top { Some(b) => idx(w, x as int, b as int), None => 0 }, top is Some, (x, y))
    &&& g3.width == g2.width
    &&& g3.height == g2.height
    &&& g3.nodes@.len() == g2.nodes@.len() + 1
    &&& g2.nodes@.len() <= usize::MAX
    &&& forall|i: int| 0 <= i < g2.nodes@.len() ==> #[trigger] g3.nodes@[i] == g2.nodes@[i]
    &&& pos(g3.nodes@[g2.nodes@.len() as int]) == (x, y)
    &&& g3.nodes@[g2.nodes@.len() as int].relations@ == first_relations(left, top, x, y)
    &&& g3.slots@ == g2.slots@.update(idx(w, x as int, y as int), Some(g2.nodes@.len() as usize))
    &&& g3.terminal_nodes@ == if on_border(w, h, (x, y)) { g2.terminal_nodes@.push((x, y)) } else { g2.terminal_nodes@ }
}

/// In a node step, the earlier nodes keep their positions, and those linked
/// to the new node gain its position.
proof fn lemma_step_earlier(
    g0: Graph,
    g1: Graph,
    g2: Graph,
    g3: Graph,
    cells: Seq<CellType>,
    w: int,
    h: int,
    x: u32,
    y: u32,
    left: Option<u32>,
    top: Option<u32>,
)
    requires
        node_step(g0, g1, g2, g3, cells, w, h, x, y, left, top),
    ensures
        g2.nodes@.len() == g0.nodes@.len(),
        g2.slots@ == g0.slots@,
        g2.terminal_nodes@ == g0.terminal_nodes@,
        forall|i: int| 0 <= i < g0.nodes@.len() ==> #[trigger] pos(g3.nodes@[i]) == pos(g0.nodes@[i]),
        forall|i: int|
            0 <= i < g0.nodes@.len() ==> (#[trigger] g3.nodes@[i].relations@) == (if linked(
                cells,
                w,
                h,
                pos(g0.nodes@[i]),
                (x, y),
            ) {
                g0.nodes@[i].relations@.push((x, y))
            } else {
                g0.nodes@[i].relations@
            }),
{
    let r = idx(w, x as int, y as int);
    let k = g0.nodes@.len() as int;
    let p = (x, y);
    lemma_idx_bounds(w, h, x as int, y as int);
    let jl: int = match left {
        Some(a) => match g0.slots@[idx(w, a as int, y as int)] { Some(j) => j as int, None => -1 },
        None => -1,
    };
    let jt: int = match top {
        Some(b) => match g1.slots@[idx(w, x as int, b as int)] { Some(j) => j as int, None => -1 },
        None => -1,
    };
    assert(g1.slots@ == g0.slots@);
    if let Some(a) = left {
        let c = idx(w, a as int, y as int);
        lemma_idx_bounds(w, h, a as int, y as int);
        lemma_idx_order(w, a as int, y as int, x as int, y as int);
        assert(g0.slots@[c] is Some);
        let pj = pos(g0.nodes@[jl]);
        assert(pidx(w, pj) == c);
        lemma_idx_injective(w, pj.0 as int, pj.1 as int, a as int, y as int);
    }
    if let Some(b) = top {
        let c = idx(w, x as int, b as int);
        lemma_idx_bounds(w, h, x as int, b as int);
        lemma_idx_order(w, x as int, b as int, x as int, y as int);
        assert(g0.slots@[c] is Some);
        let pj = pos(g0.nodes@[jt]);
        assert(pidx(w, pj) == c);
        lemma_idx_injective(w, pj.0 as int, pj.1 as int, x as int, b as int);
    }
    assert(0 <= jl ==> jl < k && pos(g0.nodes@[jl]) == (left.unwrap(), y));
    assert(0 <= jt ==> jt < k && pos(g0.nodes@[jt]) == (x, top.unwrap()));
    assert forall|i: int| 0 <= i < g0.nodes@.len() implies pos(g3.nodes@[i]) == pos(g0.nodes@[i])
        && (#[trigger] g3.nodes@[i].relations@) == (if linked(cells, w, h, pos(g0.nodes@[i]), (x, y)) {
            g0.nodes@[i].relations@.push((x, y))
        } else {
            g0.nodes@[i].relations@
        }) by {
        let pi = pos(g0.nodes@[i]);
        assert(pidx(w, pi) < r);
        assert(g3.nodes@[i] == g2.nodes@[i]);
        assert(pos(g1.nodes@[i]) == pi);
        if left is None {
            assert(g1.nodes@[i] == g0.nodes@[i]);
        }
        if top is None {
            assert(g2.nodes@[i] == g1.nodes@[i]);
        }
        if jl >= 0 && jt >= 0 {
            assert(jl != jt);
        }
        if i != jl {
            assert(g1.nodes@[i].relations@ == g0.nodes@[i].relations@);
        }
        if i != jt {
            assert(g2.nodes@[i].relations@ == g1.nodes@[i].relations@);
        }
        if linked(cells, w, h, pi, p) {
            lemma_linked_earlier(cells, w, h, p, pi);
            if pi.1 == y && corridor_row(cells, w, h, y as int, pi.0 as int, x as int) {
                lemma_corridor_row_unique(cells, w, h, y as int, pi.0 as int, left.unwrap() as int, x as int);
                if i != jl {
                    assert(g0.slots@[pidx(w, pi)] == Some(i as usize));
                }
            } else {
                lemma_corridor_column_unique(cells, w, h, x as int, pi.1 as int, top.unwrap() as int, y as int);
                if i != jt {
                    assert(g0.slots@[pidx(w, pi)] == Some(i as usize));
                }
            }
        } else {
            assert(i != jl && i != jt);
        }
    }
}

/// A node step keeps the nodes and the slots in step with the grid.
proof fn lemma_step_skeleton(
    g0: Graph,
    g1: Graph,
    g2: Graph,
    g3: Graph,
    cells: Seq<CellType>,
    w: int,
    h: int,
    x: u32,
    y: u32,
    left: Option<u32>,
    top: Option<u32>,
)
    requires
        node_step(g0, g1, g2, g3, cells, w, h, x, y, left, top),
    ensures
        skeleton(g3, cells, w, h, idx(w, x as int, y as int) + 1),
{
    let r = idx(w, x as int, y as int);
    let k = g0.nodes@.len() as int;
    let p = (x, y);
    lemma_idx_bounds(w, h, x as int, y as int);
    lemma_step_earlier(g0, g1, g2, g3, cells, w, h, x, y, left, top);
    assert forall|i: int| 0 <= i < g3.nodes@.len() implies {
            &&& in_grid(w, h, #[trigger] pos(g3.nodes@[i]))
            &&& cells[pidx(w, pos(g3.nodes@[i]))] == CellType::Node
            &&& pidx(w, pos(g3.nodes@[i])) < r + 1
            &&& g3.slots@[pidx(w, pos(g3.nodes@[i]))] == Some(i as usize)
        } by {
        if i < k {
            assert(pos(g0.nodes@[i]) == pos(g3.nodes@[i]));
        }
    }
    assert forall|i: int, j: int|
        0 <= i < j < g3.nodes@.len() implies pidx(w, #[trigger] pos(g3.nodes@[i])) < pidx(w, #[trigger] pos(g3.nodes@[j])) by {
        assert(pos(g0.nodes@[i]) == pos(g3.nodes@[i]));
        if j < k {
            assert(pos(g0.nodes@[j]) == pos(g3.nodes@[j]));
        }
    }
    assert forall|c: int| 0 <= c < w * h implies match #[trigger] g3.slots@[c] {
            Some(i) => i < g3.nodes@.len() && pidx(w, pos(g3.nodes@[i as int])) == c,
            None => true,
        } by {
        if c != r {
            assert(g3.slots@[c] == g0.slots@[c]);
            if let Some(i) = g0.slots@[c] {
                assert(pos(g0.nodes@[i as int]) == pos(g3.nodes@[i as int]));
            }
        } else {
            assert(g3.slots@[c] == Some(k as usize));
            assert(pos(g3.nodes@[k]) == p);
            assert(pidx(w, pos(g3.nodes@[k])) == c);
            assert(k < g3.nodes@.len());
        }
    }
    assert forall|c: int| 0 <= c < w * h implies ((#[trigger] g3.slots@[c]) is Some <==> (cells[c] == CellType::Node && c < r + 1)) by {
        if c != r {
            assert(g3.slots@[c] == g0.slots@[c]);
        }
    }
}

/// A node step keeps every node's relations equal to its links to the nodes
/// placed so far.
proof fn lemma_step_relations(
    g0: Graph,
    g1: Graph,
    g2: Graph,
    g3: Graph,
    cells: Seq<CellType>,
    w: int,
    h: int,
    x: u32,
    y: u32,
    left: Option<u32>,
    top: Option<u32>,
)
    requires
        node_step(g0, g1, g2, g3, cells, w, h, x, y, left, top),
    ensures
        relations_upto(g3, cells, w, h, idx(w, x as int, y as int) + 1),
{
    let r = idx(w, x as int, y as int);
    let k = g0.nodes@.len() as int;
    let p = (x, y);
    lemma_idx_bounds(w, h, x as int, y as int);
    lemma_step_earlier(g0, g1, g2, g3, cells, w, h, x, y, left, top);
    assert forall|i: int| 0 <= i < g3.nodes@.len() implies (#[trigger] g3.nodes@[i].relations@).no_duplicates() by {
        if i < k {
            let s0 = g0.nodes@[i].relations@;
            assert(pos(g3.nodes@[i]) == pos(g0.nodes@[i]));
            if linked(cells, w, h, pos(g0.nodes@[i]), p) {
                assert(!s0.contains(p)) by {
                    if s0.contains(p) {
                        assert(pidx(w, p) < r);
                    }
                }
                assert forall|m: int, n: int| 0 <= m < n < s0.push(p).len() implies s0.push(p)[m] != s0.push(p)[n] by {
                    if n == s0.len() {
                        assert(s0.contains(s0[m]));
                    }
                }
            }
        } else {
            if left is Some && top is Some {
                assert(first_relations(left, top, x, y)[0] != first_relations(left, top, x, y)[1]);
            }
        }
    }
    assert forall|i: int, q: (u32, u32)| 0 <= i < g3.nodes@.len() implies (#[trigger] g3.nodes@[i].relations@.contains(q) <==> (linked(
            cells, w, h, pos(g3.nodes@[i]), q) && pidx(w, q) < r + 1)) by {
        if in_grid(w, h, q) {
            lemma_idx_bounds(w, h, q.0 as int, q.1 as int);
        }
        if linked(cells, w, h, pos(g3.nodes@[i]), q) && pidx(w, q) == r {
            lemma_idx_injective(w, q.0 as int, q.1 as int, x as int, y as int);
        }
        if i < k {
            let s0 = g0.nodes@[i].relations@;
            let pi = pos(g0.nodes@[i]);
            assert(pos(g3.nodes@[i]) == pi);
            assert(s0.contains(q) <==> (linked(cells, w, h, pi, q) && pidx(w, q) < r));
            if linked(cells, w, h, pi, p) {
                if q == p {
                    assert(g3.nodes@[i].relations@.last() == q);
                } else {
                    if g3.nodes@[i].relations@.contains(q) {
                        let m = choose|m: int| 0 <= m < s0.push(p).len() && s0.push(p)[m] == q;
                        assert(s0[m] == q);
                    }
                    if s0.contains(q) {
                        let m = choose|m: int| 0 <= m < s0.len() && s0[m] == q;
                        assert(s0.push(p)[m] == q);
                    }
                }
            }
        } else {
            let fr = first_relations(left, top, x, y);
            if linked(cells, w, h, p, q) && pidx(w, q) < r {
                lemma_linked_earlier(cells, w, h, p, q);
                if q.1 == y && corridor_row(cells, w, h, y as int, q.0 as int, x as int) {
                    lemma_corridor_row_unique(cells, w, h, y as int, q.0 as int, left.unwrap() as int, x as int);
                    assert(fr[0] == q);
                } else {
                    lemma_corridor_column_unique(cells, w, h, x as int, q.1 as int, top.unwrap() as int, y as int);
                    assert(fr[fr.len() - 1] == q);
                }
            }
            if fr.contains(q) {
                if let Some(a) = left {
                    lemma_idx_order(w, a as int, y as int, x as int, y as int);
                }
                if let Some(b) = top {
                    lemma_idx_order(w, x as int, b as int, x as int, y as int);
                }
            }
        }
    }
}

/// A node step keeps the terminal list equal to the border nodes placed so
/// far, in order.
proof fn lemma_step_terminals(
    g0: Graph,
    g1: Graph,
    g2: Graph,
    g3: Graph,
    cells: Seq<CellType>,
    w: int,
    h: int,
    x: u32,
    y: u32,
    left: Option<u32>,
    top: Option<u32>,
)
    requires
        node_step(g0, g1, g2, g3, cells, w, h, x, y, left, top),
    ensures
        terminals_upto(g3, cells, w, h, idx(w, x as int, y as int) + 1),
{
    let r = idx(w, x as int, y as int);
    let p = (x, y);
    lemma_idx_bounds(w, h, x as int, y as int);
    lemma_step_earlier(g0, g1, g2, g3, cells, w, h, x, y, left, top);
    assert forall|q: (u32, u32)| #[trigger] g3.terminal_nodes@.contains(q) <==> (in_grid(w, h, q) && cells[pidx(w, q)]
            == CellType::Node && on_border(w, h, q) && pidx(w, q) < r + 1) by {
        if in_grid(w, h, q) && pidx(w, q) == r {
            lemma_idx_injective(w, q.0 as int, q.1 as int, x as int, y as int);
        }
        if on_border(w, h, p) {
            if g3.terminal_nodes@.contains(q) && q != p {
                let m = choose|m: int| 0 <= m < g3.terminal_nodes@.len() && g3.terminal_nodes@[m] == q;
                assert(g0.terminal_nodes@[m] == q);
            }
            if g0.terminal_nodes@.contains(q) {
                let m = choose|m: int| 0 <= m < g0.terminal_nodes@.len() && g0.terminal_nodes@[m] == q;
                assert(g3.terminal_nodes@[m] == q);
            }
            assert(g3.terminal_nodes@.last() == p);
        }
    }
    assert forall|a: int, b: int|
        0 <= a < b < g3.terminal_nodes@.len() implies pidx(w, #[trigger] g3.terminal_nodes@[a]) < pidx(w, #[trigger] g3.terminal_nodes@[b]) by {
        if b == g0.terminal_nodes@.len() {
            assert(g0.terminal_nodes@.contains(g0.terminal_nodes@[a]));
        }
    }
}

/// A complete graph satisfies the structural invariant.
proof fn lemma_built_wf(g: Graph, cells: Seq<CellType>, w: int, h: int)
    requires
        built_upto(g, cells, w, h, w * h),
    ensures
        g.wf(),
{
    assert forall|i: int, k: int|
        0 <= i < g.nodes@.len() && 0 <= k < g.nodes@[i].relations@.len() implies {
            &&& in_grid(w, h, #[trigger] g.nodes@[i].relations@[k])
            &&& g.slots@[pidx(w, g.nodes@[i].relations@[k])] is Some
        } by {
        let q = g.nodes@[i].relations@[k];
        assert(g.nodes@[i].relations@.contains(q));
        lemma_idx_bounds(w, h, q.0 as int, q.1 as int);
    }
    assert forall|k: int| 0 <= k < g.terminal_nodes@.len() implies {
            &&& in_grid(w, h, #[trigger] g.terminal_nodes@[k])
            &&& g.slots@[pidx(w, g.terminal_nodes@[k])] is Some
        } by {
        let q = g.terminal_nodes@[k];
        assert(g.terminal_nodes@.contains(q));
        lemma_idx_bounds(w, h, q.0 as int, q.1 as int);
    }
}

/// In a built graph, a node's position is in the terminal list exactly when
/// it lies on the grid's border.
pub proof fn lemma_terminal_iff_border(g: Graph, cells: Seq<CellType>, w: int, h: int, a: int)
    requires
        g.built_from(cells, w, h),
        0 <= a < g.nodes@.len(),
    ensures
        g.terminal_nodes@.contains(pos(g.nodes@[a])) <==> on_border(w, h, pos(g.nodes@[a])),
{
    let pa = pos(g.nodes@[a]);
    lemma_idx_bounds(w, h, pa.0 as int, pa.1 as int);
    assert(g.terminal_nodes@.contains(pa) <==> (in_grid(w, h, pa) && cells[pidx(w, pa)]
        == CellType::Node && on_border(w, h, pa) && pidx(w, pa) < w * h));
}

/// In a built graph, A has B among its relations exactly when B has A.
pub proof fn lemma_edge_symmetry(g: Graph, cells: Seq<CellType>, w: int, h: int, a: int, b: int)
    requires
        g.built_from(cells, w, h),
        0 <= a < g.nodes@.len(),
        0 <= b < g.nodes@.len(),
    ensures
        g.nodes@[a].relations@.contains(pos(g.nodes@[b])) <==> g.nodes@[b].relations@.contains(
            pos(g.nodes@[a]),
        ),
{
    let pa = pos(g.nodes@[a]);
    let pb = pos(g.nodes@[b]);
    lemma_idx_bounds(w, h, pa.0 as int, pa.1 as int);
    lemma_idx_bounds(w, h, pb.0 as int, pb.1 as int);
    assert(g.nodes@[a].relations@.contains(pb) <==> linked(cells, w, h, pa, pb));
    assert(g.nodes@[b].relations@.contains(pa) <==> linked(cells, w, h, pb, pa));
}

impl Graph {
    /// The slots and the nodes agree, and every relation names a node.
    pub open spec fn wf(&self) -> bool {
        let w = self.width as int;
        let h = self.height as int;
        &&& self.slots@.len() == w * h
        &&& self.slots@.len() <= usize::MAX
        &&& forall|i: int|
            0 <= i < self.nodes@.len() ==> {
                &&& in_grid(w, h, #[trigger] pos(self.nodes@[i]))
                &&& self.slots@[pidx(w, pos(self.nodes@[i]))] == Some(i as usize)
            }
        &&& forall|c: int|
            0 <= c < w * h ==> match #[trigger] self.slots@[c] {
                Some(i) => i < self.nodes@.len() && pidx(w, pos(self.nodes@[i as int])) == c,
                None => true,
            }
        &&& forall|k: int|
            0 <= k < self.terminal_nodes@.len() ==> {
                &&& in_grid(w, h, #[trigger] self.terminal_nodes@[k])
                &&& self.slots@[pidx(w, self.terminal_nodes@[k])] is Some
            }
        &&& forall|i: int, k: int|
            0 <= i < self.nodes@.len() && 0 <= k < self.nodes@[i].relations@.len() ==> {
                &&& in_grid(w, h, #[trigger] self.nodes@[i].relations@[k])
                &&& self.slots@[pidx(w, self.nodes@[i].relations@[k])] is Some
            }
    }

    /// The index of the node at (x, y), if there is one.
    pub fn node_index(&self, x: u32, y: u32) -> (r: Option<usize>)
        requires
            self.wf(),
        ensures
            in_grid(self.width as int, self.height as int, (x, y)) ==> r == self.slots@[pidx(
                self.width as int,
                (x, y),
            )],
            !in_grid(self.width as int, self.height as int, (x, y)) ==> r is None,
    {
        if x >= self.width || y >= self.height {
            return None;
        }
        let c = coords_to_index(self.width, self.height, x, y);
        self.slots[c]
    }

    /// This is the graph of the classified grid `cells` of width w and height h.
    pub open spec fn built_from(&self, cells: Seq<CellType>, w: int, h: int) -> bool {
        &&& self.wf()
        &&& built_upto(*self, cells, w, h, w * h)
    }
}

} // verus!
