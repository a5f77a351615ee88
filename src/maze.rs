use vstd::prelude::*;

verus! {

/// Intensities at or below this value are walls; above it, paths.
pub const WALL_THRESHOLD: u8 = 125;

/// The classification of one grid position.
#[derive(Clone, Copy, Debug, PartialEq, Eq, Structural)]
pub enum CellType {
    Path,
    Wall,
    Node,
}

/// A rectangular grid of cells stored row by row.
pub struct Maze {
    pub height: u32,
    pub width: u32,
    pub cells: Vec<CellType>,
}

/// Why a grid could not be built from a pixel buffer.
#[derive(Clone, Copy, Debug, PartialEq, Eq, Structural)]
pub enum MazeError {
    /// The width or the height is zero.
    EmptyGrid,
    /// The buffer does not hold exactly width * height intensities.
    SizeMismatch,
}

/// Position of cell (x, y) in the row-major cell sequence.
pub open spec fn idx(w: int, x: int, y: int) -> int {
    y * w + x
}

/// The cell type that an intensity maps to.
pub open spec fn cell_of_intensity(v: u8) -> CellType {
    if v > WALL_THRESHOLD {
        CellType::Path
    } else {
        CellType::Wall
    }
}

/// The position of an in-grid cell lies inside the cell sequence.
pub proof fn lemma_idx_bounds(w: int, h: int, x: int, y: int)
    requires
        0 <= x < w,
        0 <= y < h,
    ensures
        0 <= idx(w, x, y) < w * h,
        idx(w, x, y) + 1 <= w * h,
{
    assert(y * w + x < w * h) by (nonlinear_arith)
        requires
            0 <= x < w,
            0 <= y < h,
    ;
    assert(0 <= y * w) by (nonlinear_arith)
        requires
            0 <= y,
            0 <= w,
    ;
}

/// Distinct in-grid cells have distinct positions.
pub proof fn lemma_idx_injective(w: int, x1: int, y1: int, x2: int, y2: int)
    requires
        0 <= x1 < w,
        0 <= x2 < w,
        0 <= y1,
        0 <= y2,
        idx(w, x1, y1) == idx(w, x2, y2),
    ensures
        x1 == x2,
        y1 == y2,
{
    if y1 < y2 {
        assert(y1 * w + w <= y2 * w) by (nonlinear_arith)
            requires
                y1 < y2,
                0 <= w,
        ;
    } else if y2 < y1 {
        assert(y2 * w + w <= y1 * w) by (nonlinear_arith)
            requires
                y2 < y1,
                0 <= w,
        ;
    }
}

/// Raster order: a cell earlier in the row-major scan has a smaller index.
pub proof fn lemma_idx_order(w: int, x1: int, y1: int, x2: int, y2: int)
    requires
        0 <= x1 < w,
        0 <= x2 < w,
        0 <= y1,
        0 <= y2,
    ensures
        (idx(w, x1, y1) < idx(w, x2, y2)) == (y1 < y2 || (y1 == y2 && x1 < x2)),
{
    if y1 < y2 {
        assert(y1 * w + w <= y2 * w) by (nonlinear_arith)
            requires
                y1 < y2,
                0 <= w,
        ;
    } else if y2 < y1 {
        assert(y2 * w + w <= y1 * w) by (nonlinear_arith)
            requires
                y2 < y1,
                0 <= w,
        ;
    }
}

/// Every position of a w by h grid is the index of exactly the cell (i % w, i / w).
pub proof fn lemma_idx_split(w: int, h: int, i: int)
    requires
        0 < w,
        0 <= i < w * h,
    ensures
        0 <= i % w < w,
        0 <= i / w < h,
        idx(w, i % w, i / w) == i,
{
    vstd::arithmetic::div_mod::lemma_fundamental_div_mod(i, w);
    vstd::arithmetic::div_mod::lemma_div_pos_is_pos(i, w);
    vstd::arithmetic::div_mod::lemma_mod_pos_bound(i, w);
    let q = i / w;
    let r = i % w;
    assert(i == q * w + r) by (nonlinear_arith)
        requires
            i == w * q + r,
    ;
    if q >= h {
        assert(q * w >= h * w) by (nonlinear_arith)
            requires
                q >= h,
                0 < w,
        ;
        assert(h * w == w * h) by (nonlinear_arith);
    }
}

/// The sole addressing function from coordinates to a cell's position.
pub fn coords_to_index(width: u32, height: u32, x: u32, y: u32) -> (r: usize)
    requires
        x < width,
        y < height,
        width as int * height as int <= usize::MAX,
    ensures
        r as int == idx(width as int, x as int, y as int),
        (r as int) < width as int * height as int,
{
    proof {
        lemma_idx_bounds(width as int, height as int, x as int, y as int);
    }
    y as usize * width as usize + x as usize
}

impl Maze {
    /// The cell count matches the dimensions.
    pub open spec fn wf(&self) -> bool {
        &&& self.cells@.len() == self.width as int * self.height as int
        &&& self.cells@.len() <= usize::MAX
    }

    /// Builds a grid from one intensity per pixel in row-major order: a pixel
    /// brighter than the threshold is a path, any other a wall.
    pub fn from_intensities(width: u32, height: u32, intensities: &Vec<u8>) -> (r: Result<
        Maze,
        MazeError,
    >)
        ensures
            (width == 0 || height == 0) ==> r == Err::<Maze, MazeError>(MazeError::EmptyGrid),
            (width != 0 && height != 0 && intensities@.len() != width as int * height as int)
                ==> r == Err::<Maze, MazeError>(MazeError::SizeMismatch),
            (width != 0 && height != 0 && intensities@.len() == width as int * height as int)
                ==> r is Ok,
            r matches Ok(m) ==> {
                &&& m.wf()
                &&& m.width == width
                &&& m.height == height
                &&& forall|i: int|
                    0 <= i < m.cells@.len() ==> m.cells@[i] == cell_of_intensity(
                        #[trigger] intensities@[i],
                    )
            },
    {
        if width == 0 || height == 0 {
            return Err(MazeError::EmptyGrid);
        }
        assert(width as int * height as int <= u64::MAX) by (nonlinear_arith)
            requires
                width <= u32::MAX,
                height <= u32::MAX,
        ;
        let total: u64 = width as u64 * height as u64;
        if intensities.len() as u64 != total {
            return Err(MazeError::SizeMismatch);
        }
        let mut cells: Vec<CellType> = Vec::new();
        let mut i: usize = 0;
        while i < intensities.len()
            invariant
                i <= intensities@.len(),
                cells@.len() == i,
                forall|k: int|
                    0 <= k < i ==> cells@[k] == cell_of_intensity(#[trigger] intensities@[k]),
            decreases intensities@.len() - i,
        {
            if intensities[i] > WALL_THRESHOLD {
                cells.push(CellType::Path);
            } else {
                cells.push(CellType::Wall);
            }
            i = i + 1;
        }
        Ok(Maze { height, width, cells })
    }

    /// The cell at (x, y).
    pub fn cell(&self, x: u32, y: u32) -> (r: CellType)
        requires
            self.wf(),
            x < self.width,
            y < self.height,
        ensures
            r == self.cells@[idx(self.width as int, x as int, y as int)],
    {
        let i = coords_to_index(self.width, self.height, x, y);
        self.cells[i]
    }
}

/// The colour (red, green, blue) in which a cell is drawn: paths white,
/// walls black, nodes red.
pub fn cell_color(c: CellType) -> (r: (u8, u8, u8))
    ensures
        c == CellType::Path ==> r == (255u8, 255u8, 255u8),
        c == CellType::Wall ==> r == (0u8, 0u8, 0u8),
        c == CellType::Node ==> r == (255u8, 0u8, 0u8),
{
    match c {
        CellType::Path => (255, 255, 255),
        CellType::Wall => (0, 0, 0),
        CellType::Node => (255, 0, 0),
    }
}

} // verus!
