use maze_solver::breadth_first_search::{run, traverse};
use maze_solver::classify::find_nodes;
use maze_solver::graph::{create_graph, Graph};
use maze_solver::maze::{cell_color, coords_to_index, CellType, Maze, MazeError};

const P: u8 = 255;
const W: u8 = 0;

fn grid(width: u32, height: u32, pixels: Vec<u8>) -> Maze {
    Maze::from_intensities(width, height, &pixels).unwrap()
}

fn classified(width: u32, height: u32, pixels: Vec<u8>) -> Maze {
    let mut m = grid(width, height, pixels);
    find_nodes(&mut m);
    m
}

fn node_cells(m: &Maze) -> Vec<usize> {
    (0..m.cells.len()).filter(|&i| m.cells[i] == CellType::Node).collect()
}

fn index_of(g: &Graph, x: u32, y: u32) -> usize {
    g.node_index(x, y).unwrap()
}

#[test]
fn straight_corridor_has_two_end_nodes() {
    let m = classified(5, 1, vec![P, P, P, P, P]);
    assert_eq!(node_cells(&m), vec![0, 4]);
    assert_eq!(m.cells[2], CellType::Path);
}

#[test]
fn t_junction_center_is_node() {
    let m = classified(3, 3, vec![
        W, P, W,
        P, P, P,
        W, W, W,
    ]);
    assert_eq!(m.cells[4], CellType::Node);
    assert_eq!(m.cells[0], CellType::Wall);
    // The three arms are dead-ends.
    assert_eq!(node_cells(&m), vec![1, 3, 4, 5]);
}

#[test]
fn isolated_dead_end_graph() {
    let m = classified(5, 1, vec![P, P, P, P, P]);
    let g = create_graph(&m);
    assert_eq!(g.nodes.len(), 2);
    assert_eq!(g.nodes[0].relations, vec![(4, 0)]);
    assert_eq!(g.nodes[1].relations, vec![(0, 0)]);
    for start in 0..2 {
        let t = traverse(&g, start);
        assert_eq!(t.visited, vec![true, true]);
        assert_eq!(t.order.len(), 2);
        assert_eq!(t.order[0], start);
    }
}

#[test]
fn disconnected_node_stays_unvisited() {
    // A node enclosed by walls has no relations.
    let m = Maze {
        width: 3,
        height: 1,
        cells: vec![CellType::Node, CellType::Wall, CellType::Node],
    };
    let g = create_graph(&m);
    assert_eq!(g.nodes.len(), 2);
    assert!(g.nodes[1].relations.is_empty());
    let t = traverse(&g, 0);
    assert_eq!(t.visited, vec![true, false]);
    assert_eq!(t.unvisited(), vec![1]);
}

#[test]
fn two_components_after_classification() {
    let m = classified(5, 1, vec![P, P, W, P, P]);
    assert_eq!(node_cells(&m), vec![0, 1, 3, 4]);
    let g = create_graph(&m);
    let t = run(&g).unwrap();
    assert_eq!(t.visited, vec![true, true, false, false]);
    assert_eq!(t.order, vec![0, 1]);
    assert_eq!(t.unvisited(), vec![2, 3]);
}

#[test]
fn classification_is_idempotent() {
    let mut m = classified(5, 5, vec![
        W, P, W, W, W,
        W, P, P, P, W,
        W, P, W, P, W,
        W, P, P, P, P,
        W, W, W, W, W,
    ]);
    let once = m.cells.clone();
    find_nodes(&mut m);
    assert_eq!(m.cells, once);
}

#[test]
fn relations_are_symmetric() {
    let m = classified(5, 5, vec![
        W, P, W, W, W,
        W, P, P, P, W,
        W, P, W, P, W,
        W, P, P, P, P,
        W, W, W, W, W,
    ]);
    let g = create_graph(&m);
    for a in &g.nodes {
        for &(x, y) in &a.relations {
            let b = &g.nodes[index_of(&g, x, y)];
            assert!(b.relations.contains(&(a.x, a.y)));
        }
    }
}

#[test]
fn loop_maze_graph_and_traversal() {
    let m = classified(5, 5, vec![
        W, P, W, W, W,
        W, P, P, P, W,
        W, P, W, P, W,
        W, P, P, P, P,
        W, W, W, W, W,
    ]);
    // Entrance at (1,0), corners at (1,1),(3,1),(1,3), junction at (3,3), exit at (4,3).
    let positions: Vec<(u32, u32)> = create_graph(&m).nodes.iter().map(|n| (n.x, n.y)).collect();
    assert_eq!(positions, vec![(1, 0), (1, 1), (3, 1), (1, 3), (3, 3), (4, 3)]);
    let g = create_graph(&m);
    assert_eq!(g.nodes[index_of(&g, 1, 1)].relations, vec![(1, 0), (3, 1), (1, 3)]);
    assert_eq!(g.nodes[index_of(&g, 3, 3)].relations, vec![(1, 3), (3, 1), (4, 3)]);
    assert_eq!(g.terminal_nodes, vec![(1, 0), (4, 3)]);
    let t = run(&g).unwrap();
    assert_eq!(t.visited, vec![true; 6]);
    // Breadth-first: the entrance, its neighbour, both of that one's other
    // neighbours, the junction, then the exit.
    assert_eq!(t.order, vec![0, 1, 2, 3, 4, 5]);
}

#[test]
fn terminals_are_border_nodes() {
    let m = classified(4, 4, vec![
        P, P, P, W,
        W, P, W, W,
        W, P, P, P,
        W, W, W, W,
    ]);
    let g = create_graph(&m);
    for n in &g.nodes {
        let border = n.x == 0 || n.y == 0 || n.x == 3 || n.y == 3;
        assert_eq!(g.terminal_nodes.contains(&(n.x, n.y)), border);
    }
    assert_eq!(g.terminal_nodes, vec![(0, 0), (1, 0), (2, 0), (3, 2)]);
}

#[test]
fn no_terminal_means_no_traversal() {
    let m = Maze {
        width: 3,
        height: 3,
        cells: vec![
            CellType::Wall, CellType::Wall, CellType::Wall,
            CellType::Wall, CellType::Node, CellType::Wall,
            CellType::Wall, CellType::Wall, CellType::Wall,
        ],
    };
    let g = create_graph(&m);
    assert_eq!(g.nodes.len(), 1);
    assert!(g.terminal_nodes.is_empty());
    assert!(run(&g).is_none());
}

#[test]
fn vertical_corridor_in_wide_grid_stays_path() {
    let m = classified(4, 3, vec![
        W, W, W, P,
        W, W, W, P,
        W, W, W, P,
    ]);
    assert_eq!(node_cells(&m), vec![3, 11]);
    assert_eq!(m.cells[7], CellType::Path);
}

#[test]
fn vertical_corridor_in_tall_grid_stays_path() {
    let m = classified(1, 4, vec![P, P, P, P]);
    assert_eq!(node_cells(&m), vec![0, 3]);
}

#[test]
fn corner_is_node_and_isolated_pixel_stays_path() {
    let m = classified(3, 3, vec![
        P, P, W,
        P, W, W,
        W, W, P,
    ]);
    assert_eq!(m.cells[0], CellType::Node);
    assert_eq!(m.cells[1], CellType::Node);
    assert_eq!(m.cells[3], CellType::Node);
    assert_eq!(m.cells[8], CellType::Path);
}

#[test]
fn threshold_splits_walls_from_paths() {
    let m = grid(4, 1, vec![0, 125, 126, 255]);
    assert_eq!(
        m.cells,
        vec![CellType::Wall, CellType::Wall, CellType::Path, CellType::Path]
    );
    assert_eq!(m.cell(2, 0), CellType::Path);
}

#[test]
fn empty_grid_is_rejected() {
    assert_eq!(Maze::from_intensities(0, 3, &vec![]).err(), Some(MazeError::EmptyGrid));
    assert_eq!(Maze::from_intensities(3, 0, &vec![]).err(), Some(MazeError::EmptyGrid));
}

#[test]
fn mismatched_buffer_is_rejected() {
    assert_eq!(
        Maze::from_intensities(2, 2, &vec![255, 255, 255]).err(),
        Some(MazeError::SizeMismatch)
    );
}

#[test]
fn addressing_is_row_major() {
    assert_eq!(coords_to_index(7, 3, 2, 1), 9);
    assert_eq!(coords_to_index(7, 3, 6, 2), 20);
}

#[test]
fn cells_have_distinct_colors() {
    assert_eq!(cell_color(CellType::Path), (255, 255, 255));
    assert_eq!(cell_color(CellType::Wall), (0, 0, 0));
    assert_eq!(cell_color(CellType::Node), (255, 0, 0));
}
