//! The benchmark harness: drives the shortest-path search repeatedly under
//! two mutually exclusive modes — explicit coordinate pairs, or random
//! sampling of endpoints — times each block, and aggregates per-pair
//! min/max/midpoint statistics. It prints nothing; it returns structured
//! records for the caller to format.

use vstd::prelude::*;
use crate::graph::{build_edges, build_petgraph, edge_pairs, node_total, CellGraph};
use crate::maze::Maze;
use crate::search::{find_path_astar, is_shortest_path, reachable, usize_seq};
use crate::time::{clock_now, elapsed_nanos};

verus! {

/// One completed, timed search block.
pub struct BenchmarkRecord {
    /// Index of the record within its pair (explicit mode) or within the
    /// successful draws (random mode).
    pub try_index: usize,
    pub from: (usize, usize),
    pub to: (usize, usize),
    /// Node count of the found path.
    pub path_len: usize,
    /// Elapsed wall-clock time of the whole timed block.
    pub duration_nanos: u64,
    /// How many search calls the timed block ran.
    pub attempts: usize,
}

/// Aggregated duration statistics of one coordinate pair: minimum, maximum,
/// their midpoint (not a true mean), and their difference.
pub struct PairStats {
    pub min_nanos: u64,
    pub max_nanos: u64,
    pub avg_nanos: u64,
    pub diff_nanos: u64,
}

/// All records of one explicit coordinate pair, with statistics when at
/// least one try found a path.
pub struct PairReport {
    pub from: (usize, usize),
    pub to: (usize, usize),
    pub records: Vec<BenchmarkRecord>,
    pub stats: Option<PairStats>,
}

/// What one benchmark run produced.
pub enum BenchmarkReport {
    Explicit(Vec<PairReport>),
    Random(Vec<BenchmarkRecord>),
}

/// Relies on rand::random: a machine-word value from the thread-local
/// generator. Nothing is assumed of which value comes back.
#[verifier::external_body]
fn random_usize() -> usize {
    rand::random::<u64>() as usize
}

/// The search finds a path for this pair: both endpoints in bounds and
/// joined by a chain of edges of the built graph.
pub open spec fn pair_found(m: Maze, from: (usize, usize), to: (usize, usize)) -> bool {
    &&& m.in_bounds(from.0 as int, from.1 as int)
    &&& m.in_bounds(to.0 as int, to.1 as int)
    &&& reachable(
        build_edges(m),
        m.spec_index_of(from.0 as int, from.1 as int),
        m.spec_index_of(to.0 as int, to.1 as int),
    )
}

/// `n` is the node count of a shortest path of the built graph between the
/// two cells.
pub open spec fn shortest_len(m: Maze, from: (usize, usize), to: (usize, usize), n: int) -> bool {
    exists|p: Seq<int>|
        is_shortest_path(
            build_edges(m),
            p,
            m.spec_index_of(from.0 as int, from.1 as int),
            m.spec_index_of(to.0 as int, to.1 as int),
        ) && p.len() == n
}

/// A record of one explicit pair is sound: it names its pair and position,
/// the pair was found, and the reported length is the shortest-path node
/// count.
pub open spec fn record_ok(
    m: Maze,
    rec: BenchmarkRecord,
    from: (usize, usize),
    to: (usize, usize),
    j: int,
    attempts: usize,
) -> bool {
    &&& rec.from == from
    &&& rec.to == to
    &&& rec.try_index == j
    &&& rec.attempts == attempts
    &&& pair_found(m, from, to)
    &&& shortest_len(m, from, to, rec.path_len as int)
}

/// A record of a random draw is sound: its endpoints lie in bounds, the
/// pair was found, and the reported length is the shortest-path node count.
pub open spec fn random_record_ok(m: Maze, rec: BenchmarkRecord, j: int, attempts: usize) -> bool {
    &&& rec.try_index == j
    &&& rec.attempts == attempts
    &&& pair_found(m, rec.from, rec.to)
    &&& shortest_len(m, rec.from, rec.to, rec.path_len as int)
}

/// The durations of a run of records.
pub open spec fn durations_of(s: Seq<BenchmarkRecord>) -> Seq<u64> {
    s.map_values(|r: BenchmarkRecord| r.duration_nanos)
}

/// The least value of a nonempty sequence.
pub open spec fn seq_min(s: Seq<u64>) -> u64
    decreases s.len(),
{
    if s.len() <= 1 {
        s[0]
    } else {
        let m = seq_min(s.drop_last());
        if s.last() < m {
            s.last()
        } else {
            m
        }
    }
}

/// The greatest value of a nonempty sequence.
pub open spec fn seq_max(s: Seq<u64>) -> u64
    decreases s.len(),
{
    if s.len() <= 1 {
        s[0]
    } else {
        let m = seq_max(s.drop_last());
        if s.last() > m {
            s.last()
        } else {
            m
        }
    }
}

/// The statistics of a pair hold of its durations: exact minimum and
/// maximum, the midpoint formula for the average, and their difference.
pub open spec fn stats_ok(st: PairStats, durs: Seq<u64>) -> bool {
    &&& st.min_nanos == seq_min(durs)
    &&& st.max_nanos == seq_max(durs)
    &&& st.avg_nanos == (st.min_nanos + st.max_nanos) as int / 2
    &&& st.diff_nanos == st.max_nanos - st.min_nanos
}

/// The whole report of one explicit pair is sound: `tries` records exactly
/// when the pair is found (and the timed block runs at least one search),
/// statistics exactly when a record exists, and the statistics hold of the
/// recorded durations.
pub open spec fn pair_report_ok(
    m: Maze,
    pr: PairReport,
    from: (usize, usize),
    to: (usize, usize),
    tries: usize,
    attempts: usize,
) -> bool {
    &&& pr.from == from
    &&& pr.to == to
    &&& pr.records@.len() == (
    if attempts >= 1 && pair_found(m, from, to) {
        tries as int
    } else {
        0
    })
    &&& forall|j: int|
        0 <= j < pr.records@.len() ==> record_ok(m, #[trigger] pr.records@[j], from, to, j, attempts)
    &&& (pr.stats is Some <==> pr.records@.len() > 0)
    &&& (pr.stats matches Some(st) ==> stats_ok(st, durations_of(pr.records@)))
}

/// Minimum and maximum duration over a nonempty run of records.
fn min_max_nanos(records: &Vec<BenchmarkRecord>) -> (r: (u64, u64))
    requires
        records@.len() > 0,
    ensures
        r.0 == seq_min(durations_of(records@)),
        r.1 == seq_max(durations_of(records@)),
        r.0 <= r.1,
{
    let ghost durs = durations_of(records@);
    let mut mn: u64 = records[0].duration_nanos;
    let mut mx: u64 = mn;
    let mut j: usize = 1;
    proof {
        assert(durs.take(1) =~= seq![durs[0]]);
    }
    while j < records.len()
        invariant
            durs == durations_of(records@),
            1 <= j <= records@.len(),
            mn == seq_min(durs.take(j as int)),
            mx == seq_max(durs.take(j as int)),
            mn <= mx,
        decreases records@.len() - j,
    {
        let d = records[j].duration_nanos;
        proof {
            assert(durs.take(j as int + 1).drop_last() =~= durs.take(j as int));
            assert(durs.take(j as int + 1).last() == d);
        }
        if d < mn {
            mn = d;
        }
        if d > mx {
            mx = d;
        }
        j = j + 1;
    }
    proof {
        assert(durs.take(records@.len() as int) =~= durs);
    }
    (mn, mx)
}

/// Statistics of a nonempty run of records: minimum, maximum, midpoint
/// average, and difference of the durations.
fn compute_stats(records: &Vec<BenchmarkRecord>) -> (st: PairStats)
    requires
        records@.len() > 0,
    ensures
        stats_ok(st, durations_of(records@)),
{
    let (mn, mx) = min_max_nanos(records);
    proof {
        assert((mn + mx) as int / 2 <= mx as int) by (nonlinear_arith)
            requires
                mn <= mx,
        ;
    }
    let avg: u64 = (((mn as u128) + (mx as u128)) / 2) as u64;
    PairStats { min_nanos: mn, max_nanos: mx, avg_nanos: avg, diff_nanos: mx - mn }
}

/// Runs the benchmark over a built graph of the maze.
///
/// With explicit points, every pair is timed `tries` times, each timed block
/// running the search `attempts` times and keeping the last result; a try
/// is recorded only when a path was found, and a found pair yields exact
/// min/max/midpoint statistics. Without points, endpoints are drawn
/// uniformly at random until `searches` paths were found or the draw budget
/// of `searches * 10` iterations runs out, each found draw timed over
/// `attempts` searches.
#[verifier::rlimit(60)]
pub fn benchmark_petgraph(
    maze: &Maze,
    points: Option<Vec<((usize, usize), (usize, usize))>>,
    attempts: usize,
    tries: usize,
    searches: usize,
) -> (r: BenchmarkReport)
    requires
        maze.wf(),
        maze.cols >= 1,
        maze.rows >= 1,
        searches <= usize::MAX / 10,
    ensures
        points matches Some(ps) ==> (r matches BenchmarkReport::Explicit(prs) && {
            &&& prs@.len() == ps@.len()
            &&& forall|k: int|
                0 <= k < ps@.len() ==> pair_report_ok(
                    *maze,
                    #[trigger] prs@[k],
                    ps@[k].0,
                    ps@[k].1,
                    tries,
                    attempts,
                )
        }),
        points is None ==> (r matches BenchmarkReport::Random(recs) && {
            &&& recs@.len() <= searches
            &&& forall|j: int|
                0 <= j < recs@.len() ==> random_record_ok(*maze, #[trigger] recs@[j], j, attempts)
        }),
{
    let graph = build_petgraph(maze);
    if let Some(points) = points {
        let mut reports: Vec<PairReport> = Vec::new();
        let mut pi: usize = 0;
        while pi < points.len()
            invariant
                maze.wf(),
                maze.cols >= 1,
                maze.rows >= 1,
                node_total(graph) == maze.cols * maze.rows,
                edge_pairs(graph) == build_edges(*maze),
                pi <= points@.len(),
                reports@.len() == pi,
                forall|k: int|
                    0 <= k < pi ==> pair_report_ok(
                        *maze,
                        #[trigger] reports@[k],
                        points@[k].0,
                        points@[k].1,
                        tries,
                        attempts,
                    ),
            decreases points@.len() - pi,
        {
            let (from, to) = points[pi];
            let pr = run_pair(maze, &graph, from, to, attempts, tries);
            reports.push(pr);
            pi = pi + 1;
        }
        BenchmarkReport::Explicit(reports)
    } else {
        let mut records: Vec<BenchmarkRecord> = Vec::new();
        let budget: usize = searches * 10;
        let mut found: usize = 0;
        let mut i: usize = 0;
        while i < budget && found < searches
            invariant
                i <= budget,
                maze.wf(),
                maze.cols >= 1,
                maze.rows >= 1,
                node_total(graph) == maze.cols * maze.rows,
                edge_pairs(graph) == build_edges(*maze),
                found == records@.len(),
                found <= searches,
                forall|j: int|
                    0 <= j < records@.len() ==> random_record_ok(
                        *maze,
                        #[trigger] records@[j],
                        j,
                        attempts,
                    ),
            decreases budget - i,
        {
            let from = (random_usize() % maze.cols, random_usize() % maze.rows);
            let to = (random_usize() % maze.cols, random_usize() % maze.rows);
            let timer = clock_now();
            if let Some(first) = find_path_astar(from, to, maze, &graph) {
                let mut path = first;
                let mut k: usize = 1;
                while k < attempts
                    invariant
                        maze.wf(),
                        node_total(graph) == maze.cols * maze.rows,
                        edge_pairs(graph) == build_edges(*maze),
                        maze.in_bounds(from.0 as int, from.1 as int),
                        maze.in_bounds(to.0 as int, to.1 as int),
                        pair_found(*maze, from, to),
                        is_shortest_path(
                            build_edges(*maze),
                            usize_seq(path@),
                            maze.spec_index_of(from.0 as int, from.1 as int),
                            maze.spec_index_of(to.0 as int, to.1 as int),
                        ),
                    decreases attempts - k,
                {
                    path = find_path_astar(from, to, maze, &graph).unwrap();
                    k = k + 1;
                }
                let elapsed = elapsed_nanos(&timer);
                proof {
                    lemma_shortest_len_from_path(*maze, from, to, path@);
                }
                records.push(
                    BenchmarkRecord {
                        try_index: found,
                        from,
                        to,
                        path_len: path.len(),
                        duration_nanos: elapsed,
                        attempts,
                    },
                );
                found = found + 1;
            }
            i = i + 1;
        }
        BenchmarkReport::Random(records)
    }
}

/// Times one explicit coordinate pair `tries` times and aggregates its
/// statistics.
fn run_pair(
    maze: &Maze,
    graph: &CellGraph,
    from: (usize, usize),
    to: (usize, usize),
    attempts: usize,
    tries: usize,
) -> (pr: PairReport)
    requires
        maze.wf(),
        node_total(*graph) == maze.cols * maze.rows,
        edge_pairs(*graph) == build_edges(*maze),
    ensures
        pair_report_ok(*maze, pr, from, to, tries, attempts),
{
    let mut records: Vec<BenchmarkRecord> = Vec::new();
    let mut ti: usize = 0;
    while ti < tries
        invariant
            maze.wf(),
            node_total(*graph) == maze.cols * maze.rows,
            edge_pairs(*graph) == build_edges(*maze),
            ti <= tries,
            records@.len() == (
            if attempts >= 1 && pair_found(*maze, from, to) {
                ti as int
            } else {
                0
            }),
            forall|j: int|
                0 <= j < records@.len() ==> record_ok(
                    *maze,
                    #[trigger] records@[j],
                    from,
                    to,
                    j,
                    attempts,
                ),
        decreases tries - ti,
    {
        let mut path: Option<Vec<usize>> = None;
        let timer = clock_now();
        let mut a: usize = 0;
        while a < attempts
            invariant
                maze.wf(),
                node_total(*graph) == maze.cols * maze.rows,
                edge_pairs(*graph) == build_edges(*maze),
                a <= attempts,
                a >= 1 ==> (path is Some <==> pair_found(*maze, from, to)),
                a == 0 ==> path is None,
                path matches Some(p) ==> (pair_found(*maze, from, to) && is_shortest_path(
                    build_edges(*maze),
                    usize_seq(p@),
                    maze.spec_index_of(from.0 as int, from.1 as int),
                    maze.spec_index_of(to.0 as int, to.1 as int),
                )),
            decreases attempts - a,
        {
            path = find_path_astar(from, to, maze, graph);
            a = a + 1;
        }
        let elapsed = elapsed_nanos(&timer);
        if let Some(p) = path {
            proof {
                lemma_shortest_len_from_path(*maze, from, to, p@);
            }
            records.push(
                BenchmarkRecord {
                    try_index: ti,
                    from,
                    to,
                    path_len: p.len(),
                    duration_nanos: elapsed,
                    attempts,
                },
            );
        }
        ti = ti + 1;
    }
    if records.len() > 0 {
        let st = compute_stats(&records);
        PairReport { from, to, records, stats: Some(st) }
    } else {
        PairReport { from, to, records, stats: None }
    }
}

/// A found shortest path witnesses its own node count as the shortest-path
/// length of its pair.
proof fn lemma_shortest_len_from_path(m: Maze, from: (usize, usize), to: (usize, usize), p: Seq<usize>)
    requires
        is_shortest_path(
            build_edges(m),
            usize_seq(p),
            m.spec_index_of(from.0 as int, from.1 as int),
            m.spec_index_of(to.0 as int, to.1 as int),
        ),
    ensures
        shortest_len(m, from, to, p.len() as int),
{
    assert(usize_seq(p).len() == p.len());
}

} // verus!
