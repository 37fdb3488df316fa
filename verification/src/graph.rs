//! The adjacency graph over maze cells, kept in a `petgraph` undirected
//! graph. One node per tile, node id equal to the tile's linear index; an
//! edge joins two 4-directionally adjacent open cells, generated by a scan of
//! the interior origins (column and row both at least 1).
//!
//! The graph itself is `petgraph`'s; what it holds is named by the
//! uninterpreted functions [`node_total`] and [`edge_pairs`], and the methods
//! the builder calls are wrapped in trusted items whose contracts speak over
//! those names.

use vstd::prelude::*;
use crate::maze::Maze;
use petgraph::Undirected;
use petgraph::graph::{Graph, NodeIndex, UnGraph};

verus! {

#[verifier::external_type_specification]
#[verifier::external_body]
#[verifier::reject_recursive_types(N)]
#[verifier::reject_recursive_types(E)]
#[verifier::reject_recursive_types(Ty)]
#[verifier::reject_recursive_types(Ix)]
pub struct ExGraph<N, E, Ty, Ix>(Graph<N, E, Ty, Ix>);

#[verifier::external_type_specification]
#[verifier::external_body]
pub struct ExUndirected(Undirected);

#[verifier::external_type_specification]
#[verifier::external_body]
#[verifier::reject_recursive_types(Ix)]
pub struct ExNodeIndex<Ix>(NodeIndex<Ix>);

/// The graph built over a maze: node weight is the cell's linear index, edge
/// weight the pair of endpoint indices, and node ids are plain `usize`s.
pub type CellGraph = UnGraph<usize, (usize, usize), usize>;

/// How many nodes the graph holds.
pub uninterp spec fn node_total(g: CellGraph) -> nat;

/// The adjacency the graph holds, as a set of ordered index pairs closed
/// under swapping: an undirected edge {a, b} appears as both (a, b) and
/// (b, a).
pub uninterp spec fn edge_pairs(g: CellGraph) -> Set<(int, int)>;

/// The plain value of a node index.
pub uninterp spec fn node_ix(n: NodeIndex<usize>) -> int;

/// Relies on petgraph::graph::Graph::with_capacity: the new graph holds no
/// nodes and no edges.
#[verifier::external_body]
pub(crate) fn graph_with_capacity(nodes: usize, edges: usize) -> (g: CellGraph)
    ensures
        node_total(g) == 0,
        edge_pairs(g) == Set::<(int, int)>::empty(),
{
    UnGraph::with_capacity(nodes, edges)
}

/// Relies on petgraph::graph::Graph::add_node: appends one node and returns
/// its index, which equals the node count before the call. With a `usize`
/// index type the call does not fail.
#[verifier::external_body]
pub(crate) fn graph_add_node(g: &mut CellGraph, weight: usize) -> (r: NodeIndex<usize>)
    ensures
        node_total(*final(g)) == node_total(*old(g)) + 1,
        edge_pairs(*final(g)) == edge_pairs(*old(g)),
        node_ix(r) == node_total(*old(g)),
{
    g.add_node(weight)
}

/// Relies on petgraph::graph::Graph::add_edge on an undirected graph: adds
/// an edge between `a` and `b`. The call panics when an endpoint is not a
/// node, so the endpoints are required to be in range.
#[verifier::external_body]
pub(crate) fn graph_add_edge(g: &mut CellGraph, a: usize, b: usize)
    requires
        a < node_total(*old(g)),
        b < node_total(*old(g)),
    ensures
        node_total(*final(g)) == node_total(*old(g)),
        edge_pairs(*final(g)) == edge_pairs(*old(g)).insert((a as int, b as int)).insert(
            (b as int, a as int),
        ),
{
    g.add_edge(NodeIndex::new(a), NodeIndex::new(b), (a, b));
}

/// Relies on petgraph::graph::Graph::node_count: the number of nodes.
#[verifier::external_body]
pub(crate) fn graph_node_count(g: &CellGraph) -> (r: usize)
    ensures
        r == node_total(*g),
{
    g.node_count()
}

/// Relies on petgraph::graph::NodeIndex::index: the plain value of the
/// index.
#[verifier::external_body]
pub(crate) fn node_index_value(n: NodeIndex<usize>) -> (r: usize)
    ensures
        r == node_ix(n),
{
    n.index()
}

/// The number of nodes of a built graph, as a verified entry point.
pub fn graph_size(g: &CellGraph) -> (r: usize)
    ensures
        r == node_total(*g),
{
    graph_node_count(g)
}

/// Cells `(col, row)` and `(nc, nr)` are 4-directionally adjacent.
pub open spec fn neighbor4(col: int, row: int, nc: int, nr: int) -> bool {
    ||| (nc == col && nr == row - 1)
    ||| (nc == col && nr == row + 1)
    ||| (nc == col - 1 && nr == row)
    ||| (nc == col + 1 && nr == row)
}

/// The scan at interior origin `(col, row)` generates the ordered pair
/// `(a, b)`: the origin is open and inside the scan range, and the pair
/// joins it (in either order) with an open in-bounds 4-neighbor.
pub open spec fn origin_links(m: Maze, col: int, row: int, a: int, b: int) -> bool {
    &&& 1 <= col < m.cols
    &&& 1 <= row < m.rows
    &&& !m.tile_at(col, row)
    &&& exists|nc: int, nr: int|
        {
            &&& #[trigger] neighbor4(col, row, nc, nr)
            &&& m.in_bounds(nc, nr)
            &&& !m.tile_at(nc, nr)
            &&& ((a == m.spec_index_of(col, row) && b == m.spec_index_of(nc, nr)) || (a
                == m.spec_index_of(nc, nr) && b == m.spec_index_of(col, row)))
        }
}

/// The ordered pairs generated by one origin.
pub open spec fn links_of(m: Maze, col: int, row: int) -> Set<(int, int)> {
    Set::new(|p: (int, int)| origin_links(m, col, row, p.0, p.1))
}

/// Some origin of the scan generates the pair `(a, b)`.
pub open spec fn has_build_edge(m: Maze, a: int, b: int) -> bool {
    exists|col: int, row: int| #[trigger] origin_links(m, col, row, a, b)
}

/// The whole edge set of the built graph.
pub open spec fn build_edges(m: Maze) -> Set<(int, int)> {
    Set::new(|p: (int, int)| has_build_edge(m, p.0, p.1))
}

/// Origin `(col, row)` comes before position `(pcol, prow)` in the row-major
/// scan order.
pub open spec fn origin_scanned(col: int, row: int, pcol: int, prow: int) -> bool {
    row < prow || (row == prow && col < pcol)
}

/// The pairs generated by the origins that the scan has passed when it
/// stands at `(pcol, prow)`.
pub open spec fn build_edges_upto(m: Maze, pcol: int, prow: int) -> Set<(int, int)> {
    Set::new(
        |p: (int, int)|
            exists|col: int, row: int|
                origin_scanned(col, row, pcol, prow) && #[trigger] origin_links(
                    m,
                    col,
                    row,
                    p.0,
                    p.1,
                ),
    )
}

/// The edge set after one conditional insert in direction `(nc, nr)`: both
/// ordered pairs when that neighbor is in bounds and open, unchanged
/// otherwise.
pub open spec fn insert_dir(
    e: Set<(int, int)>,
    m: Maze,
    col: int,
    row: int,
    nc: int,
    nr: int,
) -> Set<(int, int)> {
    if m.in_bounds(nc, nr) && !m.tile_at(nc, nr) {
        e.insert((m.spec_index_of(col, row), m.spec_index_of(nc, nr))).insert(
            (m.spec_index_of(nc, nr), m.spec_index_of(col, row)),
        )
    } else {
        e
    }
}

/// Adds the edges of one open interior origin: one to each open in-bounds
/// 4-neighbor.
fn add_origin_edges(g: &mut CellGraph, maze: &Maze, col: usize, row: usize)
    requires
        maze.wf(),
        1 <= col < maze.cols,
        1 <= row < maze.rows,
        !maze.tile_at(col as int, row as int),
        node_total(*old(g)) == maze.cols * maze.rows,
    ensures
        node_total(*final(g)) == node_total(*old(g)),
        edge_pairs(*final(g)) == edge_pairs(*old(g)).union(links_of(*maze, col as int, row as int)),
{
    let ghost e0 = edge_pairs(*g);
    let (ci, _cv) = maze.get_index_with_tile(col, row).unwrap();
    proof {
        maze.lemma_index_in_range(col as int, row as int);
    }
    if let Some((i, v)) = maze.get_index_with_tile(col, row - 1) {
        if !v {
            proof {
                maze.lemma_index_in_range(col as int, row as int - 1);
            }
            graph_add_edge(g, ci, i);
        }
    }
    if let Some((i, v)) = maze.get_index_with_tile(col, row + 1) {
        if !v {
            proof {
                maze.lemma_index_in_range(col as int, row as int + 1);
            }
            graph_add_edge(g, ci, i);
        }
    }
    if let Some((i, v)) = maze.get_index_with_tile(col - 1, row) {
        if !v {
            proof {
                maze.lemma_index_in_range(col as int - 1, row as int);
            }
            graph_add_edge(g, ci, i);
        }
    }
    if let Some((i, v)) = maze.get_index_with_tile(col + 1, row) {
        if !v {
            proof {
                maze.lemma_index_in_range(col as int + 1, row as int);
            }
            graph_add_edge(g, ci, i);
        }
    }
    proof {
        lemma_origin_edges(*maze, col as int, row as int, e0, edge_pairs(*g));
    }
}

/// After the four conditional inserts of one open origin, the edge set has
/// grown by exactly the pairs that origin generates.
proof fn lemma_origin_edges(m: Maze, col: int, row: int, e0: Set<(int, int)>, e1: Set<(int, int)>)
    requires
        m.wf(),
        1 <= col < m.cols,
        1 <= row < m.rows,
        !m.tile_at(col, row),
        e1 == insert_dir(
            insert_dir(
                insert_dir(insert_dir(e0, m, col, row, col, row - 1), m, col, row, col, row + 1),
                m,
                col,
                row,
                col - 1,
                row,
            ),
            m,
            col,
            row,
            col + 1,
            row,
        ),
    ensures
        e1 == e0.union(links_of(m, col, row)),
{
    let ci = m.spec_index_of(col, row);
    let up = insert_dir(e0, m, col, row, col, row - 1);
    let down = insert_dir(up, m, col, row, col, row + 1);
    let left = insert_dir(down, m, col, row, col - 1, row);
    assert forall|p: (int, int)| e1.contains(p) implies e0.union(
        links_of(m, col, row),
    ).contains(p) by {
        if !e0.contains(p) {
            if m.in_bounds(col, row - 1) && !m.tile_at(col, row - 1) && (p == ((
                ci,
                m.spec_index_of(col, row - 1),
            )) || p == ((m.spec_index_of(col, row - 1), ci))) {
                assert(neighbor4(col, row, col, row - 1));
                assert(origin_links(m, col, row, p.0, p.1));
            } else if m.in_bounds(col, row + 1) && !m.tile_at(col, row + 1) && (p == ((
                ci,
                m.spec_index_of(col, row + 1),
            )) || p == ((m.spec_index_of(col, row + 1), ci))) {
                assert(neighbor4(col, row, col, row + 1));
                assert(origin_links(m, col, row, p.0, p.1));
            } else if m.in_bounds(col - 1, row) && !m.tile_at(col - 1, row) && (p == ((
                ci,
                m.spec_index_of(col - 1, row),
            )) || p == ((m.spec_index_of(col - 1, row), ci))) {
                assert(neighbor4(col, row, col - 1, row));
                assert(origin_links(m, col, row, p.0, p.1));
            } else if m.in_bounds(col + 1, row) && !m.tile_at(col + 1, row) && (p == ((
                ci,
                m.spec_index_of(col + 1, row),
            )) || p == ((m.spec_index_of(col + 1, row), ci))) {
                assert(neighbor4(col, row, col + 1, row));
                assert(origin_links(m, col, row, p.0, p.1));
            } else {
                assert(false);
            }
            assert(links_of(m, col, row).contains(p));
        }
    }
    assert forall|p: (int, int)| e0.union(links_of(m, col, row)).contains(p) implies e1.contains(
        p,
    ) by {
        if e0.contains(p) {
            assert(up.contains(p));
            assert(down.contains(p));
            assert(left.contains(p));
            assert(e1.contains(p));
        } else {
            assert(origin_links(m, col, row, p.0, p.1));
            let (nc, nr) = choose|nc: int, nr: int|
                {
                    &&& #[trigger] neighbor4(col, row, nc, nr)
                    &&& m.in_bounds(nc, nr)
                    &&& !m.tile_at(nc, nr)
                    &&& ((p.0 == m.spec_index_of(col, row) && p.1 == m.spec_index_of(nc, nr)) || (
                    p.0 == m.spec_index_of(nc, nr) && p.1 == m.spec_index_of(col, row)))
                };
            if nc == col && nr == row - 1 {
                assert(up.contains(p));
                assert(down.contains(p));
                assert(left.contains(p));
            } else if nc == col && nr == row + 1 {
                assert(down.contains(p));
                assert(left.contains(p));
            } else if nc == col - 1 && nr == row {
                assert(left.contains(p));
            } else {
                assert(nc == col + 1 && nr == row);
            }
            assert(e1.contains(p));
        }
    }
    assert(e1 =~= e0.union(links_of(m, col, row)));
}

/// Builds the adjacency graph of a maze: one node per tile, node id equal
/// to the tile's linear index, and an edge between every open interior-scan
/// origin and each of its open in-bounds 4-neighbors.
pub fn build_petgraph(maze: &Maze) -> (g: CellGraph)
    requires
        maze.wf(),
        maze.cols >= 1,
        maze.rows >= 1,
    ensures
        node_total(g) == maze.cols * maze.rows,
        edge_pairs(g) == build_edges(*maze),
{
    let n: usize = maze.tiles.len();
    let cap: usize = match (maze.cols - 1).checked_mul(maze.rows - 1) {
        Some(c) => c.checked_mul(4).unwrap_or(usize::MAX),
        None => usize::MAX,
    };
    let mut graph = graph_with_capacity(n, cap);
    let mut i: usize = 0;
    while i < n
        invariant
            n == maze.tiles@.len(),
            i <= n,
            node_total(graph) == i,
            edge_pairs(graph) == Set::<(int, int)>::empty(),
        decreases n - i,
    {
        graph_add_node(&mut graph, i);
        i = i + 1;
    }
    proof {
        lemma_upto_start(*maze);
    }
    let mut row: usize = 1;
    while row < maze.rows
        invariant
            maze.wf(),
            maze.cols >= 1,
            1 <= row <= maze.rows,
            node_total(graph) == maze.cols * maze.rows,
            edge_pairs(graph) == build_edges_upto(*maze, 1, row as int),
        decreases maze.rows - row,
    {
        let mut col: usize = 1;
        while col < maze.cols
            invariant
                maze.wf(),
                1 <= row < maze.rows,
                1 <= col <= maze.cols,
                node_total(graph) == maze.cols * maze.rows,
                edge_pairs(graph) == build_edges_upto(*maze, col as int, row as int),
            decreases maze.cols - col,
        {
            if let Some((_ci, cv)) = maze.get_index_with_tile(col, row) {
                if !cv {
                    add_origin_edges(&mut graph, maze, col, row);
                }
            }
            proof {
                lemma_upto_step(*maze, col as int, row as int);
                if maze.tile_at(col as int, row as int) {
                    assert(links_of(*maze, col as int, row as int) =~= Set::<(int, int)>::empty());
                }
                assert(edge_pairs(graph) =~= build_edges_upto(*maze, col as int + 1, row as int));
            }
            col = col + 1;
        }
        proof {
            lemma_upto_row_end(*maze, row as int);
        }
        row = row + 1;
    }
    proof {
        lemma_upto_all(*maze, row as int);
    }
    graph
}

/// Adjacency of the built graph, one way: an open interior-scan origin and
/// an open in-bounds 4-neighbor are joined by an edge, in both orders.
pub proof fn lemma_adjacent_open_cells_linked(m: Maze, col: int, row: int, nc: int, nr: int)
    requires
        m.wf(),
        1 <= col < m.cols,
        1 <= row < m.rows,
        !m.tile_at(col, row),
        neighbor4(col, row, nc, nr),
        m.in_bounds(nc, nr),
        !m.tile_at(nc, nr),
    ensures
        build_edges(m).contains((m.spec_index_of(col, row), m.spec_index_of(nc, nr))),
        build_edges(m).contains((m.spec_index_of(nc, nr), m.spec_index_of(col, row))),
{
    assert(origin_links(m, col, row, m.spec_index_of(col, row), m.spec_index_of(nc, nr)));
    assert(origin_links(m, col, row, m.spec_index_of(nc, nr), m.spec_index_of(col, row)));
}

/// Adjacency of the built graph, the other way: a wall cell has no incident
/// edge at all.
pub proof fn lemma_wall_cell_isolated(m: Maze, col: int, row: int)
    requires
        m.wf(),
        m.in_bounds(col, row),
        m.tile_at(col, row),
    ensures
        forall|a: int|
            !build_edges(m).contains((m.spec_index_of(col, row), a)) && !build_edges(m).contains(
                (a, m.spec_index_of(col, row)),
            ),
{
    let w = m.spec_index_of(col, row);
    assert forall|a: int|
        !build_edges(m).contains((w, a)) && !build_edges(m).contains((a, w)) by {
        if build_edges(m).contains((w, a)) || build_edges(m).contains((a, w)) {
            let p: (int, int) = if build_edges(m).contains((w, a)) {
                (w, a)
            } else {
                (a, w)
            };
            assert(has_build_edge(m, p.0, p.1));
            let (c, r) = choose|c: int, r: int| #[trigger] origin_links(m, c, r, p.0, p.1);
            let (nc, nr) = choose|nc: int, nr: int|
                {
                    &&& #[trigger] neighbor4(c, r, nc, nr)
                    &&& m.in_bounds(nc, nr)
                    &&& !m.tile_at(nc, nr)
                    &&& ((p.0 == m.spec_index_of(c, r) && p.1 == m.spec_index_of(nc, nr)) || (p.0
                        == m.spec_index_of(nc, nr) && p.1 == m.spec_index_of(c, r)))
                };
            if w == m.spec_index_of(c, r) {
                m.lemma_index_injective(col, row, c, r);
                assert(false);
            } else {
                assert(w == m.spec_index_of(nc, nr));
                m.lemma_index_injective(col, row, nc, nr);
                assert(false);
            }
        }
    }
}

/// Before the scan's first origin nothing is generated.
proof fn lemma_upto_start(m: Maze)
    ensures
        build_edges_upto(m, 1, 1) == Set::<(int, int)>::empty(),
{
    assert forall|p: (int, int)| !build_edges_upto(m, 1, 1).contains(p) by {
        if build_edges_upto(m, 1, 1).contains(p) {
            let (c, r) = choose|c: int, r: int|
                origin_scanned(c, r, 1, 1) && #[trigger] origin_links(m, c, r, p.0, p.1);
            assert(r >= 1 && c >= 1);
            assert(false);
        }
    }
    assert(build_edges_upto(m, 1, 1) =~= Set::<(int, int)>::empty());
}

/// Passing one origin grows the scanned set by that origin's pairs.
proof fn lemma_upto_step(m: Maze, col: int, row: int)
    ensures
        build_edges_upto(m, col + 1, row) == build_edges_upto(m, col, row).union(
            links_of(m, col, row),
        ),
{
    assert forall|p: (int, int)| build_edges_upto(m, col + 1, row).contains(p) implies
        build_edges_upto(m, col, row).union(links_of(m, col, row)).contains(p) by {
        let (c, r) = choose|c: int, r: int|
            origin_scanned(c, r, col + 1, row) && #[trigger] origin_links(m, c, r, p.0, p.1);
        if r == row && c == col {
            assert(links_of(m, col, row).contains(p));
        } else {
            assert(origin_scanned(c, r, col, row));
            assert(build_edges_upto(m, col, row).contains(p));
        }
    }
    assert forall|p: (int, int)|
        build_edges_upto(m, col, row).union(links_of(m, col, row)).contains(p) implies
        build_edges_upto(m, col + 1, row).contains(p) by {
        if build_edges_upto(m, col, row).contains(p) {
            let (c, r) = choose|c: int, r: int|
                origin_scanned(c, r, col, row) && #[trigger] origin_links(m, c, r, p.0, p.1);
            assert(origin_scanned(c, r, col + 1, row));
        } else {
            assert(origin_links(m, col, row, p.0, p.1));
            assert(origin_scanned(col, row, col + 1, row));
        }
    }
    assert(build_edges_upto(m, col + 1, row) =~= build_edges_upto(m, col, row).union(
        links_of(m, col, row),
    ));
}

/// Standing past the last column of a row is the same as standing at the
/// start of the next row.
proof fn lemma_upto_row_end(m: Maze, row: int)
    ensures
        build_edges_upto(m, m.cols as int, row) == build_edges_upto(m, 1, row + 1),
{
    assert forall|p: (int, int)| build_edges_upto(m, m.cols as int, row).contains(p) implies
        build_edges_upto(m, 1, row + 1).contains(p) by {
        let (c, r) = choose|c: int, r: int|
            origin_scanned(c, r, m.cols as int, row) && #[trigger] origin_links(m, c, r, p.0, p.1);
        assert(origin_scanned(c, r, 1, row + 1));
    }
    assert forall|p: (int, int)| build_edges_upto(m, 1, row + 1).contains(p) implies
        build_edges_upto(m, m.cols as int, row).contains(p) by {
        let (c, r) = choose|c: int, r: int|
            origin_scanned(c, r, 1, row + 1) && #[trigger] origin_links(m, c, r, p.0, p.1);
        assert(c < m.cols);
        assert(origin_scanned(c, r, m.cols as int, row));
    }
    assert(build_edges_upto(m, m.cols as int, row) =~= build_edges_upto(m, 1, row + 1));
}

/// Standing past the last row, the scan has generated the whole edge set.
proof fn lemma_upto_all(m: Maze, row: int)
    requires
        row >= m.rows,
    ensures
        build_edges_upto(m, 1, row) == build_edges(m),
{
    assert forall|p: (int, int)| build_edges_upto(m, 1, row).contains(p) implies build_edges(
        m,
    ).contains(p) by {
        let (c, r) = choose|c: int, r: int|
            origin_scanned(c, r, 1, row) && #[trigger] origin_links(m, c, r, p.0, p.1);
        assert(has_build_edge(m, p.0, p.1));
    }
    assert forall|p: (int, int)| build_edges(m).contains(p) implies build_edges_upto(
        m,
        1,
        row,
    ).contains(p) by {
        let (c, r) = choose|c: int, r: int| #[trigger] origin_links(m, c, r, p.0, p.1);
        assert(r < m.rows <= row);
        assert(origin_scanned(c, r, 1, row));
    }
    assert(build_edges_upto(m, 1, row) =~= build_edges(m));
}

} // verus!
