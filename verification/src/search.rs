//! Shortest-path search between two grid coordinates, run as a best-first
//! search with unit edge costs and a zero (admissible but uninformed)
//! heuristic, which makes it a uniform-cost search.

use vstd::prelude::*;
use crate::graph::{edge_pairs, node_ix, node_total, node_index_value, CellGraph};
use crate::maze::Maze;
use petgraph::algo::astar;
use petgraph::graph::NodeIndex;

verus! {

/// `p` walks the edge set from `from` to `to`: nonempty, endpoints as given,
/// every consecutive pair an edge.
pub open spec fn is_path(edges: Set<(int, int)>, p: Seq<int>, from: int, to: int) -> bool {
    &&& p.len() > 0
    &&& p[0] == from
    &&& p[p.len() - 1] == to
    &&& forall|i: int| 0 <= i < p.len() - 1 ==> edges.contains((#[trigger] p[i], p[i + 1]))
}

/// Some path walks the edge set from `from` to `to`. A cell always reaches
/// itself by the one-node path.
pub open spec fn reachable(edges: Set<(int, int)>, from: int, to: int) -> bool {
    exists|p: Seq<int>| is_path(edges, p, from, to)
}

/// `p` is a path from `from` to `to` and no path between them has fewer
/// nodes.
pub open spec fn is_shortest_path(edges: Set<(int, int)>, p: Seq<int>, from: int, to: int) -> bool {
    &&& is_path(edges, p, from, to)
    &&& forall|q: Seq<int>| #[trigger] is_path(edges, q, from, to) ==> p.len() <= q.len()
}

/// The plain index values of a sequence of node indices.
pub open spec fn index_seq(s: Seq<NodeIndex<usize>>) -> Seq<int> {
    s.map_values(|n: NodeIndex<usize>| node_ix(n))
}

/// The values of a sequence of `usize`s, as mathematical integers.
pub open spec fn usize_seq(s: Seq<usize>) -> Seq<int> {
    s.map_values(|x: usize| x as int)
}

/// Relies on petgraph::algo::astar, called with unit edge costs and a zero
/// heuristic: a uniform-cost (Dijkstra) search. It returns a path exactly
/// when some node chain of graph edges joins the two endpoints, and a
/// returned path is one with the fewest nodes; when start equals goal it
/// returns the one-node path at once.
#[verifier::external_body]
fn astar_unit_cost(g: &CellGraph, from: usize, to: usize) -> (r: Option<Vec<NodeIndex<usize>>>)
    requires
        from < node_total(*g),
        to < node_total(*g),
    ensures
        r is Some <==> reachable(edge_pairs(*g), from as int, to as int),
        r is Some ==> is_shortest_path(
            edge_pairs(*g),
            index_seq(r->Some_0@),
            from as int,
            to as int,
        ),
{
    let start = NodeIndex::new(from);
    let goal = NodeIndex::new(to);
    Some(astar(g, start, |finish| finish == goal, |_| 1usize, |_| 0usize)?.1)
}

/// Shortest path between two grid coordinates, as raw graph node indices.
/// Out-of-bounds endpoints give "no path", never an error.
pub fn find_path_astar_inner(
    from: (usize, usize),
    to: (usize, usize),
    maze: &Maze,
    graph: &CellGraph,
) -> (r: Option<Vec<NodeIndex<usize>>>)
    requires
        maze.wf(),
        node_total(*graph) == maze.cols * maze.rows,
    ensures
        ({
            let fi = maze.spec_index_of(from.0 as int, from.1 as int);
            let ti = maze.spec_index_of(to.0 as int, to.1 as int);
            let inb = maze.in_bounds(from.0 as int, from.1 as int) && maze.in_bounds(
                to.0 as int,
                to.1 as int,
            );
            &&& !inb ==> r is None
            &&& inb ==> (r is Some <==> reachable(edge_pairs(*graph), fi, ti))
            &&& (inb && r is Some) ==> is_shortest_path(
                edge_pairs(*graph),
                index_seq(r->Some_0@),
                fi,
                ti,
            )
        }),
{
    if from.0 >= maze.cols || from.1 >= maze.rows || to.0 >= maze.cols || to.1 >= maze.rows {
        return None;
    }
    let _n: usize = maze.tiles.len();
    proof {
        maze.lemma_index_in_range(from.0 as int, from.1 as int);
        maze.lemma_index_in_range(to.0 as int, to.1 as int);
    }
    let f: usize = from.1 * maze.cols + from.0;
    let t: usize = to.1 * maze.cols + to.0;
    astar_unit_cost(graph, f, t)
}

/// Shortest path between two grid coordinates, flattened to plain linear
/// cell indices. Out-of-bounds endpoints give "no path", never an error.
pub fn find_path_astar(
    from: (usize, usize),
    to: (usize, usize),
    maze: &Maze,
    graph: &CellGraph,
) -> (r: Option<Vec<usize>>)
    requires
        maze.wf(),
        node_total(*graph) == maze.cols * maze.rows,
    ensures
        ({
            let fi = maze.spec_index_of(from.0 as int, from.1 as int);
            let ti = maze.spec_index_of(to.0 as int, to.1 as int);
            let inb = maze.in_bounds(from.0 as int, from.1 as int) && maze.in_bounds(
                to.0 as int,
                to.1 as int,
            );
            &&& !inb ==> r is None
            &&& inb ==> (r is Some <==> reachable(edge_pairs(*graph), fi, ti))
            &&& (inb && r is Some) ==> is_shortest_path(
                edge_pairs(*graph),
                usize_seq(r->Some_0@),
                fi,
                ti,
            )
        }),
{
    match find_path_astar_inner(from, to, maze, graph) {
        None => None,
        Some(path) => {
            let mut out: Vec<usize> = Vec::new();
            let mut i: usize = 0;
            while i < path.len()
                invariant
                    i <= path.len(),
                    out@.len() == i,
                    forall|j: int| 0 <= j < i ==> out@[j] == node_ix(path@[j]),
                decreases path.len() - i,
            {
                out.push(node_index_value(path[i]));
                i = i + 1;
            }
            proof {
                assert(usize_seq(out@) =~= index_seq(path@));
            }
            Some(out)
        },
    }
}

} // verus!
