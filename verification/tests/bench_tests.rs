use maze_bench::bench::{benchmark_petgraph, BenchmarkReport};
use maze_bench::maze::Maze;

fn open_grid(cols: usize, rows: usize) -> Maze {
    Maze {
        cols,
        rows,
        tiles: vec![false; cols * rows],
    }
}

#[test]
fn test_explicit_mode_collects_one_sample_per_try() {
    let m = open_grid(3, 3);
    let points = vec![((2usize, 0usize), (0usize, 2usize))];
    let report = benchmark_petgraph(&m, Some(points), 1, 3, 1);
    match report {
        BenchmarkReport::Explicit(pairs) => {
            assert_eq!(pairs.len(), 1);
            let pr = &pairs[0];
            assert_eq!(pr.from, (2, 0));
            assert_eq!(pr.to, (0, 2));
            assert_eq!(pr.records.len(), 3);
            for (j, rec) in pr.records.iter().enumerate() {
                assert_eq!(rec.try_index, j);
                assert_eq!(rec.path_len, 5);
                assert_eq!(rec.attempts, 1);
            }
            let st = pr.stats.as_ref().unwrap();
            let durations: Vec<u64> = pr.records.iter().map(|r| r.duration_nanos).collect();
            let min = *durations.iter().min().unwrap();
            let max = *durations.iter().max().unwrap();
            assert_eq!(st.min_nanos, min);
            assert_eq!(st.max_nanos, max);
            // the reported average is the midpoint of min and max, not a
            // true mean over all samples
            assert_eq!(st.avg_nanos, (min + max) / 2);
            assert_eq!(st.diff_nanos, max - min);
        }
        BenchmarkReport::Random(_) => panic!("expected explicit mode"),
    }
}

#[test]
fn test_explicit_mode_unreachable_pair_yields_no_records() {
    // the top-left corner is isolated under the scan rule
    let m = open_grid(3, 3);
    let points = vec![((0usize, 0usize), (2usize, 2usize))];
    let report = benchmark_petgraph(&m, Some(points), 2, 3, 1);
    match report {
        BenchmarkReport::Explicit(pairs) => {
            assert_eq!(pairs.len(), 1);
            assert_eq!(pairs[0].records.len(), 0);
            assert!(pairs[0].stats.is_none());
        }
        BenchmarkReport::Random(_) => panic!("expected explicit mode"),
    }
}

#[test]
fn test_explicit_mode_zero_attempts_records_nothing() {
    // a timed block of zero searches never yields a path to record
    let m = open_grid(3, 3);
    let points = vec![((2usize, 0usize), (0usize, 2usize))];
    let report = benchmark_petgraph(&m, Some(points), 0, 2, 1);
    match report {
        BenchmarkReport::Explicit(pairs) => {
            assert_eq!(pairs[0].records.len(), 0);
            assert!(pairs[0].stats.is_none());
        }
        BenchmarkReport::Random(_) => panic!("expected explicit mode"),
    }
}

#[test]
fn test_explicit_mode_multiple_pairs_and_attempts() {
    let m = open_grid(4, 4);
    let points = vec![
        ((1usize, 1usize), (2usize, 2usize)),
        ((1usize, 0usize), (1usize, 3usize)),
    ];
    let report = benchmark_petgraph(&m, Some(points), 3, 2, 1);
    match report {
        BenchmarkReport::Explicit(pairs) => {
            assert_eq!(pairs.len(), 2);
            assert_eq!(pairs[0].records.len(), 2);
            assert_eq!(pairs[0].records[0].path_len, 3);
            assert_eq!(pairs[0].records[0].attempts, 3);
            assert_eq!(pairs[1].records.len(), 2);
            assert_eq!(pairs[1].records[0].path_len, 4);
        }
        BenchmarkReport::Random(_) => panic!("expected explicit mode"),
    }
}

#[test]
fn test_random_mode_reports_at_most_searches() {
    let m = open_grid(3, 3);
    let report = benchmark_petgraph(&m, None, 1, 1, 2);
    match report {
        BenchmarkReport::Random(records) => {
            assert!(records.len() <= 2);
            for (j, rec) in records.iter().enumerate() {
                assert_eq!(rec.try_index, j);
                assert!(rec.from.0 < 3 && rec.from.1 < 3);
                assert!(rec.to.0 < 3 && rec.to.1 < 3);
                assert!(rec.path_len >= 1);
                assert_eq!(rec.attempts, 1);
            }
        }
        BenchmarkReport::Explicit(_) => panic!("expected random mode"),
    }
}

#[test]
fn test_random_mode_zero_searches_is_empty() {
    let m = open_grid(3, 3);
    let report = benchmark_petgraph(&m, None, 1, 1, 0);
    match report {
        BenchmarkReport::Random(records) => assert!(records.is_empty()),
        BenchmarkReport::Explicit(_) => panic!("expected random mode"),
    }
}
