use maze_bench::graph::build_petgraph;
use maze_bench::maze::Maze;
use maze_bench::search::{find_path_astar, find_path_astar_inner};
use maze_bench::text::load_maze;

fn open_grid(cols: usize, rows: usize) -> Maze {
    Maze {
        cols,
        rows,
        tiles: vec![false; cols * rows],
    }
}

#[test]
fn test_shortest_path_across_open_grid() {
    // diagonal corners that the scan rule connects: Manhattan distance 4,
    // so the shortest path holds exactly 5 nodes
    let m = open_grid(3, 3);
    let g = build_petgraph(&m);
    let path = find_path_astar((2, 0), (0, 2), &m, &g).unwrap();
    assert_eq!(path.len(), 5);
    assert_eq!(path[0], 2);
    assert_eq!(path[path.len() - 1], 6);
}

#[test]
fn test_top_left_corner_unreachable_by_scan_rule() {
    // the scan never treats row 0 or column 0 as origins, so the top-left
    // corner of an all-open grid has no edges and no path reaches it
    let m = open_grid(3, 3);
    let g = build_petgraph(&m);
    assert_eq!(find_path_astar((0, 0), (2, 2), &m, &g), None);
    assert_eq!(find_path_astar((2, 2), (0, 0), &m, &g), None);
}

#[test]
fn test_out_of_bounds_returns_no_path() {
    let m = open_grid(3, 3);
    let g = build_petgraph(&m);
    assert_eq!(find_path_astar((3, 0), (1, 1), &m, &g), None);
    assert_eq!(find_path_astar((0, 3), (1, 1), &m, &g), None);
    assert_eq!(find_path_astar((1, 1), (3, 0), &m, &g), None);
    assert_eq!(find_path_astar((1, 1), (0, 3), &m, &g), None);
}

#[test]
fn test_walled_row_blocks_path() {
    let m = load_maze(b"...\r\n###\r\n...").unwrap();
    let g = build_petgraph(&m);
    assert_eq!(find_path_astar((1, 0), (1, 2), &m, &g), None);
}

#[test]
fn test_detour_around_wall_is_optimal() {
    // a wall at (2,1) forces the path from (1,1) to (3,1) down through
    // row 2: four edges instead of the direct two
    let m = load_maze(b".....\r\n..#..\r\n.....").unwrap();
    let g = build_petgraph(&m);
    let path = find_path_astar((1, 1), (3, 1), &m, &g).unwrap();
    assert_eq!(path.len(), 5);
}

#[test]
fn test_same_cell_path_has_one_node() {
    let m = load_maze(b"...\r\n.#.\r\n...").unwrap();
    let g = build_petgraph(&m);
    let path = find_path_astar((2, 2), (2, 2), &m, &g).unwrap();
    assert_eq!(path, vec![8]);
    // the search reports the trivial path even for a wall cell, matching
    // the immediate goal test on the start node
    let wall = find_path_astar((1, 1), (1, 1), &m, &g).unwrap();
    assert_eq!(wall, vec![4]);
}

fn bfs_distance(g: &maze_bench::graph::CellGraph, from: usize, to: usize) -> Option<usize> {
    let mut dist = vec![None; g.node_count()];
    let mut queue = std::collections::VecDeque::new();
    dist[from] = Some(0usize);
    queue.push_back(from);
    while let Some(node) = queue.pop_front() {
        if node == to {
            return dist[node];
        }
        for n in g.neighbors(petgraph::graph::NodeIndex::new(node)) {
            if dist[n.index()].is_none() {
                dist[n.index()] = Some(dist[node].unwrap() + 1);
                queue.push_back(n.index());
            }
        }
    }
    None
}

#[test]
fn test_path_length_matches_independent_bfs() {
    let m = load_maze(b".....\r\n.#.#.\r\n.....\r\n.###.\r\n.....").unwrap();
    let g = build_petgraph(&m);
    for from in [(1usize, 1usize), (2, 2), (4, 4), (1, 2)] {
        for to in [(3usize, 2usize), (2, 4), (4, 0), (2, 0)] {
            let fi = from.1 * m.cols + from.0;
            let ti = to.1 * m.cols + to.0;
            let expected = bfs_distance(&g, fi, ti);
            let found = find_path_astar(from, to, &m, &g);
            match (expected, found) {
                (None, None) => {}
                (Some(d), Some(path)) => assert_eq!(path.len(), d + 1),
                (e, f) => panic!("search and reference disagree: {:?} vs {:?}", e, f),
            }
        }
    }
}

#[test]
fn test_inner_and_flattened_paths_agree() {
    let m = open_grid(3, 3);
    let g = build_petgraph(&m);
    let raw = find_path_astar_inner((2, 0), (0, 2), &m, &g).unwrap();
    let flat = find_path_astar((2, 0), (0, 2), &m, &g).unwrap();
    let raw_indices: Vec<usize> = raw.into_iter().map(|n| n.index()).collect();
    assert_eq!(raw_indices, flat);
}
