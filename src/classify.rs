use vstd::prelude::*;
use crate::maze::{CellType, Maze, idx, coords_to_index, lemma_idx_bounds, lemma_idx_injective, lemma_idx_split};

verus! {

/// (x, y) lies inside the grid and is not a wall.
pub open spec fn open_at(cells: Seq<CellType>, w: int, h: int, x: int, y: int) -> bool {
    0 <= x < w && 0 <= y < h && cells[idx(w, x, y)] != CellType::Wall
}

/// 1 for true, 0 for false.
pub open spec fn one_if(b: bool) -> int {
    if b {
        1
    } else {
        0
    }
}

/// How many of the four neighbours (top, right, bottom, left) are inside the
/// grid and not walls.
pub open spec fn open_count(cells: Seq<CellType>, w: int, h: int, x: int, y: int) -> int {
    one_if(open_at(cells, w, h, x, y - 1)) + one_if(open_at(cells, w, h, x + 1, y)) + one_if(
        open_at(cells, w, h, x, y + 1),
    ) + one_if(open_at(cells, w, h, x - 1, y))
}

/// The open neighbours include both horizontal ones or both vertical ones.
pub open spec fn straight(cells: Seq<CellType>, w: int, h: int, x: int, y: int) -> bool {
    (open_at(cells, w, h, x - 1, y) && open_at(cells, w, h, x + 1, y)) || (open_at(
        cells,
        w,
        h,
        x,
        y - 1,
    ) && open_at(cells, w, h, x, y + 1))
}

/// A dead-end, a corner or a junction.
pub open spec fn qualifies(cells: Seq<CellType>, w: int, h: int, x: int, y: int) -> bool {
    let n = open_count(cells, w, h, x, y);
    n == 1 || (n == 2 && !straight(cells, w, h, x, y)) || n >= 3
}

/// What one pass of the classifier makes of the cell at (x, y).
pub open spec fn classify_cell(cells: Seq<CellType>, w: int, h: int, x: int, y: int) -> CellType {
    if cells[idx(w, x, y)] != CellType::Wall && qualifies(cells, w, h, x, y) {
        CellType::Node
    } else {
        cells[idx(w, x, y)]
    }
}

/// The whole grid after one pass of the classifier.
pub open spec fn classified(cells: Seq<CellType>, w: int, h: int) -> Seq<CellType> {
    Seq::new(cells.len(), |i: int| classify_cell(cells, w, h, i % w, i / w))
}

/// Whether the neighbour of (x, y) at offset (dx, dy) is in the grid and open.
fn is_open(maze: &Maze, x: u32, y: u32, dx: i8, dy: i8) -> (r: bool)
    requires
        maze.wf(),
        x < maze.width,
        y < maze.height,
        -1 <= dx <= 1,
        -1 <= dy <= 1,
    ensures
        r == open_at(
            maze.cells@,
            maze.width as int,
            maze.height as int,
            x + dx,
            y + dy,
        ),
{
    if (dx < 0 && x == 0) || (dy < 0 && y == 0) {
        return false;
    }
    let nx: u32 = if dx < 0 { x - 1 } else if dx > 0 { x + 1 } else { x };
    let ny: u32 = if dy < 0 { y - 1 } else if dy > 0 { y + 1 } else { y };
    if nx >= maze.width || ny >= maze.height {
        return false;
    }
    maze.cell(nx, ny) != CellType::Wall
}

/// Promotes every non-wall cell that is a dead-end (one open neighbour), a
/// corner (two open neighbours that are not opposite each other) or a junction
/// (three or four) to a node. Neighbours outside the grid are not counted.
///
/// Opposite neighbours are recognised on both axes within the grid's own
/// bounds: the horizontal pair within the width, the vertical pair within the
/// height. Walls never change, so the result does not depend on scan order.
pub fn find_nodes(maze: &mut Maze)
    requires
        old(maze).wf(),
    ensures
        final(maze).wf(),
        final(maze).width == old(maze).width,
        final(maze).height == old(maze).height,
        final(maze).cells@ == classified(
            old(maze).cells@,
            old(maze).width as int,
            old(maze).height as int,
        ),
{
    let ghost c0 = maze.cells@;
    let ghost w = maze.width as int;
    let ghost h = maze.height as int;
    let mut y: u32 = 0;
    while y < maze.height
        invariant
            maze.wf(),
            maze.width as int == w,
            maze.height as int == h,
            0 <= y <= h,
            c0.len() == w * h,
            forall|i: int| 0 <= i < w * h ==> (#[trigger] maze.cells@[i] == CellType::Wall) == (c0[i] == CellType::Wall),
            forall|xx: int, yy: int|
                0 <= xx < w && 0 <= yy < y ==> #[trigger] maze.cells@[idx(w, xx, yy)]
                    == classify_cell(c0, w, h, xx, yy),
            forall|xx: int, yy: int|
                0 <= xx < w && y <= yy < h ==> #[trigger] maze.cells@[idx(w, xx, yy)]
                    == c0[idx(w, xx, yy)],
        decreases h - y,
    {
        let mut x: u32 = 0;
        while x < maze.width
            invariant
                maze.wf(),
                maze.width as int == w,
                maze.height as int == h,
                0 <= y < h,
                0 <= x <= w,
                c0.len() == w * h,
                forall|i: int| 0 <= i < w * h ==> (#[trigger] maze.cells@[i] == CellType::Wall) == (c0[i] == CellType::Wall),
                forall|xx: int, yy: int|
                    0 <= xx < w && 0 <= yy < h && (yy < y || (yy == y && xx < x))
                        ==> #[trigger] maze.cells@[idx(w, xx, yy)] == classify_cell(c0, w, h, xx, yy),
                forall|xx: int, yy: int|
                    0 <= xx < w && 0 <= yy < h && (yy > y || (yy == y && xx >= x))
                        ==> #[trigger] maze.cells@[idx(w, xx, yy)] == c0[idx(w, xx, yy)],
            decreases w - x,
        {
            let ghost cur = maze.cells@;
            proof {
                assert forall|xx: int, yy: int| open_at(cur, w, h, xx, yy) == open_at(c0, w, h, xx, yy) by {
                    if 0 <= xx < w && 0 <= yy < h {
                        lemma_idx_bounds(w, h, xx, yy);
                    }
                }
                lemma_idx_bounds(w, h, x as int, y as int);
            }
            let here = maze.cell(x, y);
            if here != CellType::Wall {
                let top = is_open(maze, x, y, 0, -1);
                let right = is_open(maze, x, y, 1, 0);
                let bottom = is_open(maze, x, y, 0, 1);
                let left = is_open(maze, x, y, -1, 0);
                let mut path_count: u8 = 0;
                if top {
                    path_count += 1;
                }
                if right {
                    path_count += 1;
                }
                if bottom {
                    path_count += 1;
                }
                if left {
                    path_count += 1;
                }
                let promote = path_count == 1 || (path_count == 2 && !((left && right) || (top
                    && bottom))) || path_count > 2;
                assert(promote == qualifies(c0, w, h, x as int, y as int));
                if promote {
                    let i = coords_to_index(maze.width, maze.height, x, y);
                    maze.cells.set(i, CellType::Node);
                }
            }
            proof {
                assert forall|xx: int, yy: int| 0 <= xx < w && 0 <= yy < h && (xx != x || yy != y)
                    implies #[trigger] maze.cells@[idx(w, xx, yy)] == cur[idx(w, xx, yy)] by {
                    lemma_idx_bounds(w, h, xx, yy);
                    if idx(w, xx, yy) == idx(w, x as int, y as int) {
                        lemma_idx_injective(w, xx, yy, x as int, y as int);
                    }
                }
            }
            x = x + 1;
        }
        y = y + 1;
    }
    proof {
        assert forall|i: int| 0 <= i < c0.len() implies maze.cells@[i] == classified(c0, w, h)[i] by {
            lemma_idx_split(w, h, i);
            assert(maze.cells@[idx(w, i % w, i / w)] == classify_cell(c0, w, h, i % w, i / w));
        }
        assert(maze.cells@ =~= classified(c0, w, h));
    }
}

/// Classifying an already classified grid changes nothing: one pass reaches
/// a fixed point, since promotion never turns a cell into a wall or back.
pub proof fn lemma_classify_idempotent(cells: Seq<CellType>, w: int, h: int)
    requires
        0 <= w,
        0 <= h,
        cells.len() == w * h,
    ensures
        classified(classified(cells, w, h), w, h) == classified(cells, w, h),
{
    let c1 = classified(cells, w, h);
    if w > 0 {
        assert forall|i: int| 0 <= i < w * h implies (#[trigger] c1[i] == CellType::Wall) == (cells[i]
            == CellType::Wall) by {
            lemma_idx_split(w, h, i);
        }
        assert forall|xx: int, yy: int|
            open_at(c1, w, h, xx, yy) == open_at(cells, w, h, xx, yy) by {
            if 0 <= xx < w && 0 <= yy < h {
                lemma_idx_bounds(w, h, xx, yy);
            }
        }
        assert forall|i: int| 0 <= i < c1.len() implies classified(c1, w, h)[i] == c1[i] by {
            lemma_idx_split(w, h, i);
        }
    }
    assert(classified(c1, w, h) =~= c1);
}

} // verus!
