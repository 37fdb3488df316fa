use maze_bench::maze::Maze;
use maze_bench::text::{load_maze, MazeError};

#[test]
fn test_load_basic() {
    let m = load_maze(b"#.#\r\n...\r\n###").unwrap();
    assert_eq!(m.cols, 3);
    assert_eq!(m.rows, 3);
    assert_eq!(
        m.tiles,
        vec![true, false, true, false, false, false, true, true, true]
    );
}

#[test]
fn test_load_empty_is_error() {
    assert_eq!(load_maze(b""), Err(MazeError::MalformedInput));
}

#[test]
fn test_load_blank_lines_only_is_error() {
    assert_eq!(load_maze(b"\r\n  \r\n\t\r\n"), Err(MazeError::MalformedInput));
}

#[test]
fn test_load_ragged_rows_is_error() {
    assert_eq!(load_maze(b"##\r\n###"), Err(MazeError::MalformedInput));
}

#[test]
fn test_load_drops_blank_lines_and_mixed_endings() {
    let m = load_maze(b"##\n\n#.\n").unwrap();
    assert_eq!(m.cols, 2);
    assert_eq!(m.rows, 2);
    assert_eq!(m.tiles, vec![true, true, true, false]);
}

#[test]
fn test_load_any_non_wall_byte_is_open() {
    let m = load_maze(b"#a\r\n.#").unwrap();
    assert_eq!(m.tiles, vec![true, false, false, true]);
}

#[test]
fn test_get_index() {
    let m = load_maze(b"#.#\r\n...\r\n###").unwrap();
    assert_eq!(m.get_index(1, 2), Some(7));
    assert_eq!(m.get_index(0, 0), Some(0));
    assert_eq!(m.get_index(3, 0), None);
    assert_eq!(m.get_index(0, 3), None);
}

#[test]
fn test_get_index_with_tile() {
    let m = load_maze(b"#.#\r\n...\r\n###").unwrap();
    assert_eq!(m.get_index_with_tile(0, 0), Some((0, true)));
    assert_eq!(m.get_index_with_tile(1, 1), Some((4, false)));
    assert_eq!(m.get_index_with_tile(5, 5), None);
}

#[test]
fn test_to_text_exact() {
    let m = load_maze(b"#.\r\n.#").unwrap();
    assert_eq!(m.to_text(), b"# \r\n #\r\n".to_vec());
}

#[test]
fn test_round_trip_tiles() {
    let first = load_maze(b"#.#\n#..\n###").unwrap();
    let text = first.to_text();
    let second = load_maze(&text).unwrap();
    assert_eq!(second.cols, first.cols);
    assert_eq!(second.rows, first.rows);
    assert_eq!(second.tiles, first.tiles);
    // serialization is stable from then on
    assert_eq!(second.to_text(), text);
}

#[test]
fn test_direct_construction_matches_load() {
    let m = Maze {
        cols: 2,
        rows: 1,
        tiles: vec![true, false],
    };
    let loaded = load_maze(b"#.").unwrap();
    assert_eq!(loaded.cols, m.cols);
    assert_eq!(loaded.rows, m.rows);
    assert_eq!(loaded.tiles, m.tiles);
}
