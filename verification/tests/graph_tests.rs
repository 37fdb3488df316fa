use maze_bench::graph::{build_petgraph, graph_size};
use maze_bench::maze::Maze;
use maze_bench::text::load_maze;
use petgraph::graph::NodeIndex;

fn open_grid(cols: usize, rows: usize) -> Maze {
    Maze {
        cols,
        rows,
        tiles: vec![false; cols * rows],
    }
}

#[test]
fn test_node_count_equals_cols_times_rows() {
    let m = load_maze(b"#.#\r\n...\r\n###").unwrap();
    let g = build_petgraph(&m);
    assert_eq!(graph_size(&g), 9);
    assert_eq!(g.node_count(), m.cols * m.rows);
}

#[test]
fn test_node_count_all_open() {
    let m = open_grid(4, 5);
    let g = build_petgraph(&m);
    assert_eq!(graph_size(&g), 20);
    assert_eq!(g.node_count(), 20);
}

#[test]
fn test_adjacent_open_cells_have_edges() {
    let m = open_grid(3, 3);
    let g = build_petgraph(&m);
    // origin (1,1) = node 4 links to its four neighbors
    assert!(g.contains_edge(NodeIndex::new(4), NodeIndex::new(1)));
    assert!(g.contains_edge(NodeIndex::new(4), NodeIndex::new(7)));
    assert!(g.contains_edge(NodeIndex::new(4), NodeIndex::new(3)));
    assert!(g.contains_edge(NodeIndex::new(4), NodeIndex::new(5)));
    // undirected: both directions hold
    assert!(g.contains_edge(NodeIndex::new(1), NodeIndex::new(4)));
}

#[test]
fn test_boundary_scan_rule_leaves_corner_isolated() {
    // the scan starts at column 1 and row 1, so the top-left corner of an
    // open grid gets no edge at all
    let m = open_grid(3, 3);
    let g = build_petgraph(&m);
    assert_eq!(g.neighbors(NodeIndex::new(0)).count(), 0);
    // top row cells keep only their vertical edges
    assert!(g.contains_edge(NodeIndex::new(1), NodeIndex::new(4)));
    assert!(!g.contains_edge(NodeIndex::new(1), NodeIndex::new(2)));
}

#[test]
fn test_wall_cell_has_no_edges() {
    let m = load_maze(b"...\r\n.#.\r\n...").unwrap();
    let g = build_petgraph(&m);
    // the wall at (1,1) = node 4 is isolated
    assert_eq!(g.neighbors(NodeIndex::new(4)).count(), 0);
    // no edge from an open neighbor into the wall either
    assert!(!g.contains_edge(NodeIndex::new(5), NodeIndex::new(4)));
}

#[test]
fn test_build_revisits_pairs_without_crash() {
    // neighboring interior origins see each other from both sides; building
    // must survive that and keep the adjacency intact
    let m = open_grid(3, 3);
    let g = build_petgraph(&m);
    assert!(g.contains_edge(NodeIndex::new(4), NodeIndex::new(5)));
    assert!(g.contains_edge(NodeIndex::new(5), NodeIndex::new(4)));
}
