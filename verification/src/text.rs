//! The maze text format: one line per row, `#` for a wall, any other byte
//! for an open cell. Lines split on `\r` or `\n` (so `\r\n` works too), and
//! blank lines — empty or all whitespace — are discarded. Serialization
//! writes `#` and space with `\r\n` after every row.

use vstd::prelude::*;
use vstd::seq_lib::*;
use vstd::slice::slice_index_get;
use crate::maze::Maze;

verus! {

/// A line-ending byte: carriage return or line feed.
pub open spec fn is_sep(b: u8) -> bool {
    b == 13 || b == 10
}

/// An ASCII whitespace byte, as the blank-line filter sees it.
pub open spec fn is_blank_byte(b: u8) -> bool {
    b == 9 || b == 10 || b == 11 || b == 12 || b == 13 || b == 32
}

/// A line of nothing but whitespace; the empty line is blank.
pub open spec fn is_blank_line(l: Seq<u8>) -> bool {
    forall|k: int| 0 <= k < l.len() ==> is_blank_byte(#[trigger] l[k])
}

/// The predicate that keeps a line: it is not blank.
pub open spec fn nonblank() -> spec_fn(Seq<u8>) -> bool {
    |l: Seq<u8>| !is_blank_line(l)
}

/// The raw segments of a text split at every line-ending byte, empty
/// segments included; there is always at least one segment.
pub open spec fn split_raw(t: Seq<u8>) -> Seq<Seq<u8>>
    decreases t.len(),
{
    if t.len() == 0 {
        seq![Seq::<u8>::empty()]
    } else {
        let rest = split_raw(t.drop_last());
        if is_sep(t.last()) {
            rest.push(Seq::<u8>::empty())
        } else {
            rest.update(rest.len() - 1, rest.last().push(t.last()))
        }
    }
}

/// The lines of a maze text: raw segments with the blank ones discarded.
pub open spec fn lines_of(t: Seq<u8>) -> Seq<Seq<u8>> {
    split_raw(t).filter(nonblank())
}

/// The tiles of one line: `true` exactly at `#`.
pub open spec fn parse_line(l: Seq<u8>) -> Seq<bool> {
    l.map_values(|b: u8| b == 35)
}

/// The tiles of a list of lines, in row-major order.
pub open spec fn tiles_of(ls: Seq<Seq<u8>>) -> Seq<bool>
    decreases ls.len(),
{
    if ls.len() == 0 {
        Seq::<bool>::empty()
    } else {
        tiles_of(ls.drop_last()) + parse_line(ls.last())
    }
}

/// All lines have the length of the first.
pub open spec fn rows_consistent(ls: Seq<Seq<u8>>) -> bool {
    forall|i: int| 0 <= i < ls.len() ==> (#[trigger] ls[i]).len() == ls[0].len()
}

/// The text loads: at least one non-blank line, all of one length.
pub open spec fn load_ok(t: Seq<u8>) -> bool {
    lines_of(t).len() > 0 && rows_consistent(lines_of(t))
}

/// `m` is the maze the text describes.
pub open spec fn loaded_from(m: Maze, t: Seq<u8>) -> bool {
    let ls = lines_of(t);
    &&& m.cols == ls[0].len()
    &&& m.rows == ls.len()
    &&& m.tiles@ == tiles_of(ls)
    &&& m.wf()
    &&& m.cols >= 1
    &&& m.rows >= 1
}

/// The views of a list of byte vectors.
pub open spec fn views_of(ls: Seq<Vec<u8>>) -> Seq<Seq<u8>> {
    ls.map_values(|v: Vec<u8>| v@)
}

/// The malformed-input error: empty maze source, or rows of unequal length.
#[derive(Clone, Copy, Debug, PartialEq, Eq, Structural)]
pub enum MazeError {
    MalformedInput,
}

/// Filtering one more element keeps it exactly when it is not blank.
proof fn lemma_filter_push(s: Seq<Seq<u8>>, x: Seq<u8>)
    ensures
        (s.push(x)).filter(nonblank()) == (if !is_blank_line(x) {
            s.filter(nonblank()).push(x)
        } else {
            s.filter(nonblank())
        }),
{
    reveal_with_fuel(Seq::filter, 2);
    assert((s.push(x)).drop_last() =~= s);
    assert((s.push(x)).last() == x);
}

/// A blank byte, decided.
fn blank_byte(b: u8) -> (r: bool)
    ensures
        r == is_blank_byte(b),
{
    b == 9 || b == 10 || b == 11 || b == 12 || b == 13 || b == 32
}

/// A blank line, decided.
fn blank_vec(v: &Vec<u8>) -> (r: bool)
    ensures
        r == is_blank_line(v@),
{
    let mut k: usize = 0;
    while k < v.len()
        invariant
            k <= v@.len(),
            forall|j: int| 0 <= j < k ==> is_blank_byte(#[trigger] v@[j]),
        decreases v@.len() - k,
    {
        if !blank_byte(v[k]) {
            return false;
        }
        k = k + 1;
    }
    true
}

/// Splits a maze text into its non-blank lines.
fn split_lines(text: &[u8]) -> (lines: Vec<Vec<u8>>)
    ensures
        views_of(lines@) == lines_of(text@),
{
    let n: usize = text.len();
    let mut lines: Vec<Vec<u8>> = Vec::new();
    let mut cur: Vec<u8> = Vec::new();
    let ghost mut done: Seq<Seq<u8>> = seq![];
    let mut i: usize = 0;
    proof {
        assert(text@.take(0) =~= Seq::<u8>::empty());
    }
    while i < n
        invariant
            n == text@.len(),
            i <= n,
            split_raw(text@.take(i as int)) == done.push(cur@),
            views_of(lines@) == done.filter(nonblank()),
        decreases n - i,
    {
        let b: u8 = *slice_index_get(text, i);
        proof {
            assert(text@.take(i as int + 1).drop_last() =~= text@.take(i as int));
            assert(text@.take(i as int + 1).last() == b);
        }
        if b == 13 || b == 10 {
            let ghost cv = cur@;
            let blank = blank_vec(&cur);
            proof {
                lemma_filter_push(done, cv);
                assert((done.push(cv)).push(Seq::<u8>::empty()) == split_raw(
                    text@.take(i as int + 1),
                ));
            }
            if !blank {
                lines.push(cur);
                proof {
                    assert(views_of(lines@) =~= done.filter(nonblank()).push(cv));
                }
            }
            cur = Vec::new();
            proof {
                done = done.push(cv);
            }
        } else {
            let ghost cv = cur@;
            cur.push(b);
            proof {
                let rest = done.push(cv);
                assert(rest.update(rest.len() - 1, rest.last().push(b)) =~= done.push(cur@));
            }
        }
        i = i + 1;
    }
    proof {
        assert(text@.take(n as int) =~= text@);
    }
    let ghost cv = cur@;
    let blank = blank_vec(&cur);
    proof {
        lemma_filter_push(done, cv);
    }
    if !blank {
        lines.push(cur);
        proof {
            assert(views_of(lines@) =~= done.filter(nonblank()).push(cv));
        }
    }
    lines
}

/// The tiles of consistent lines number rows times columns.
proof fn lemma_tiles_of_len(ls: Seq<Seq<u8>>, w: int)
    requires
        forall|i: int| 0 <= i < ls.len() ==> (#[trigger] ls[i]).len() == w,
    ensures
        tiles_of(ls).len() == ls.len() * w,
    decreases ls.len(),
{
    if ls.len() == 0 {
    } else {
        lemma_tiles_of_len(ls.drop_last(), w);
        assert((ls.len() - 1) * w + w == ls.len() * w) by (nonlinear_arith);
    }
}

/// Loads a maze from its text: splits into non-blank lines, takes the
/// column count from the first line, and rejects an empty source or a line
/// of a different length. The tile count is proved to come out as columns
/// times rows, so no further consistency check is needed.
pub fn load_maze(text: &[u8]) -> (r: Result<Maze, MazeError>)
    ensures
        r is Ok <==> load_ok(text@),
        r matches Ok(m) ==> loaded_from(m, text@),
{
    let lines = split_lines(text);
    let ghost ls = lines_of(text@);
    if lines.len() == 0 {
        return Err(MazeError::MalformedInput);
    }
    let cols: usize = lines[0].len();
    let rows: usize = lines.len();
    let mut j: usize = 0;
    while j < rows
        invariant
            ls == lines_of(text@),
            views_of(lines@) == ls,
            rows == ls.len(),
            0 < rows,
            cols == ls[0].len(),
            j <= rows,
            forall|k: int| 0 <= k < j ==> (#[trigger] ls[k]).len() == cols,
        decreases rows - j,
    {
        if lines[j].len() != cols {
            proof {
                assert(ls[j as int].len() != ls[0].len());
                assert(!rows_consistent(ls));
            }
            return Err(MazeError::MalformedInput);
        }
        j = j + 1;
    }
    let mut tiles: Vec<bool> = Vec::new();
    let mut rix: usize = 0;
    while rix < rows
        invariant
            views_of(lines@) == ls,
            rows == ls.len(),
            rix <= rows,
            tiles@ == tiles_of(ls.take(rix as int)),
        decreases rows - rix,
    {
        let line_len: usize = lines[rix].len();
        let mut c: usize = 0;
        while c < line_len
            invariant
                views_of(lines@) == ls,
                rows == ls.len(),
                rix < rows,
                line_len == ls[rix as int].len(),
                c <= line_len,
                tiles@ == tiles_of(ls.take(rix as int)) + parse_line(ls[rix as int]).take(c as int),
            decreases line_len - c,
        {
            let b: u8 = lines[rix][c];
            tiles.push(b == 35);
            proof {
                assert(tiles@ =~= tiles_of(ls.take(rix as int)) + parse_line(
                    ls[rix as int],
                ).take(c as int + 1));
            }
            c = c + 1;
        }
        proof {
            assert(ls.take(rix as int + 1).drop_last() =~= ls.take(rix as int));
            assert(ls.take(rix as int + 1).last() == ls[rix as int]);
            assert(parse_line(ls[rix as int]).take(line_len as int) =~= parse_line(
                ls[rix as int],
            ));
        }
        rix = rix + 1;
    }
    proof {
        assert(ls.take(rows as int) =~= ls);
        lemma_tiles_of_len(ls, cols as int);
        assert(ls.len() * cols == cols * ls.len()) by (nonlinear_arith);
        broadcast use Seq::lemma_filter_pred;

        assert(!is_blank_line(ls[0]));
        assert(cols >= 1);
    }
    Ok(Maze { cols, rows, tiles })
}

impl Maze {
    /// One rendered row: `#` at walls, space at open cells.
    pub open spec fn render_line(&self, row: int) -> Seq<u8> {
        Seq::new(
            self.cols as nat,
            |c: int|
                if self.tile_at(c, row) {
                    35u8
                } else {
                    32u8
                },
        )
    }

    /// The text of the first `r` rows, each closed by `\r\n`.
    pub open spec fn text_upto(&self, r: int) -> Seq<u8>
        decreases r,
    {
        if r <= 0 {
            Seq::<u8>::empty()
        } else {
            self.text_upto(r - 1) + self.render_line(r - 1) + seq![13u8, 10u8]
        }
    }

    /// The whole serialized text of the maze.
    pub open spec fn text_of(&self) -> Seq<u8> {
        self.text_upto(self.rows as int)
    }

    /// Serializes the grid: one line per row, `#` for a wall, space for an
    /// open cell, `\r\n` after every row whatever the input used.
    pub fn to_text(&self) -> (r: Vec<u8>)
        requires
            self.wf(),
        ensures
            r@ == self.text_of(),
    {
        let mut out: Vec<u8> = Vec::new();
        let _n: usize = self.tiles.len();
        let mut row: usize = 0;
        while row < self.rows
            invariant
                self.wf(),
                self.tiles@.len() <= usize::MAX,
                row <= self.rows,
                out@ == self.text_upto(row as int),
            decreases self.rows - row,
        {
            let mut col: usize = 0;
            while col < self.cols
                invariant
                    self.wf(),
                    self.tiles@.len() <= usize::MAX,
                    row < self.rows,
                    col <= self.cols,
                    out@ == self.text_upto(row as int) + self.render_line(row as int).take(
                        col as int,
                    ),
                decreases self.cols - col,
            {
                proof {
                    self.lemma_index_in_range(col as int, row as int);
                }
                let v = self.tiles[row * self.cols + col];
                out.push(if v {
                    35u8
                } else {
                    32u8
                });
                proof {
                    assert(out@ =~= self.text_upto(row as int) + self.render_line(
                        row as int,
                    ).take(col as int + 1));
                }
                col = col + 1;
            }
            out.push(13u8);
            out.push(10u8);
            proof {
                assert(self.render_line(row as int).take(self.cols as int) =~= self.render_line(
                    row as int,
                ));
                assert(out@ =~= self.text_upto(row as int + 1));
            }
            row = row + 1;
        }
        out
    }
}

/// Row `row` holds at least one wall.
pub open spec fn row_has_wall(m: Maze, row: int) -> bool {
    exists|c: int| 0 <= c < m.cols && #[trigger] m.tile_at(c, row)
}

/// A split always yields at least one raw segment.
proof fn lemma_split_raw_len(t: Seq<u8>)
    ensures
        split_raw(t).len() >= 1,
    decreases t.len(),
{
    if t.len() > 0 {
        lemma_split_raw_len(t.drop_last());
    }
}

/// Appending one non-separator byte extends the last raw segment.
proof fn lemma_split_append_byte(t: Seq<u8>, b: u8)
    requires
        !is_sep(b),
    ensures
        split_raw(t.push(b)) == split_raw(t).update(
            split_raw(t).len() - 1,
            split_raw(t).last().push(b),
        ),
{
    assert(t.push(b).drop_last() =~= t);
    assert(t.push(b).last() == b);
}

/// Appending a separator byte opens a fresh empty segment.
proof fn lemma_split_append_sep(t: Seq<u8>, b: u8)
    requires
        is_sep(b),
    ensures
        split_raw(t.push(b)) == split_raw(t).push(Seq::<u8>::empty()),
{
    assert(t.push(b).drop_last() =~= t);
    assert(t.push(b).last() == b);
}

/// Appending a separator-free chunk extends the last raw segment by it.
proof fn lemma_split_append_chunk(t: Seq<u8>, s: Seq<u8>)
    requires
        forall|k: int| 0 <= k < s.len() ==> !is_sep(#[trigger] s[k]),
    ensures
        split_raw(t + s) == split_raw(t).update(
            split_raw(t).len() - 1,
            split_raw(t).last() + s,
        ),
    decreases s.len(),
{
    lemma_split_raw_len(t);
    if s.len() == 0 {
        assert(t + s =~= t);
        assert(split_raw(t).last() + s =~= split_raw(t).last());
        assert(split_raw(t).update(split_raw(t).len() - 1, split_raw(t).last()) =~= split_raw(t));
    } else {
        let s0 = s.drop_last();
        let b = s.last();
        lemma_split_append_chunk(t, s0);
        assert(t + s =~= (t + s0).push(b));
        lemma_split_append_byte(t + s0, b);
        let base = split_raw(t);
        let mid = split_raw(t + s0);
        assert(mid == base.update(base.len() - 1, base.last() + s0));
        assert(mid.len() == base.len());
        assert(mid.last() == base.last() + s0);
        assert(mid.last().push(b) =~= base.last() + s);
        assert(mid.update(mid.len() - 1, mid.last().push(b)) =~= base.update(
            base.len() - 1,
            base.last() + s,
        ));
    }
}

/// The raw segments of the first `r` rendered rows: each row's line then an
/// empty segment, and one trailing empty segment.
spec fn raw_upto(m: Maze, r: int) -> Seq<Seq<u8>>
    decreases r,
{
    if r <= 0 {
        seq![Seq::<u8>::empty()]
    } else {
        raw_upto(m, r - 1).drop_last().push(m.render_line(r - 1)).push(Seq::<u8>::empty()).push(
            Seq::<u8>::empty(),
        )
    }
}

/// Splitting the first `r` rendered rows gives exactly their raw segments,
/// ending in an empty open segment.
proof fn lemma_raw_upto(m: Maze, r: int)
    requires
        m.wf(),
        0 <= r,
    ensures
        split_raw(m.text_upto(r)) == raw_upto(m, r),
        raw_upto(m, r).len() >= 1,
        raw_upto(m, r).last() == Seq::<u8>::empty(),
    decreases r,
{
    if r == 0 {
        assert(m.text_upto(0) =~= Seq::<u8>::empty());
        assert(split_raw(Seq::<u8>::empty()) =~= raw_upto(m, 0));
    } else {
        lemma_raw_upto(m, r - 1);
        let t = m.text_upto(r - 1);
        let line = m.render_line(r - 1);
        let base = split_raw(t);
        assert(forall|k: int| 0 <= k < line.len() ==> !is_sep(#[trigger] line[k]));
        lemma_split_append_chunk(t, line);
        let u = t + line;
        assert(base.last() + line =~= line);
        assert(split_raw(u) == base.update(base.len() - 1, line));
        lemma_split_append_sep(u, 13u8);
        lemma_split_append_sep(u.push(13u8), 10u8);
        assert(m.text_upto(r) =~= u.push(13u8).push(10u8));
        assert(split_raw(m.text_upto(r)) == base.update(base.len() - 1, line).push(
            Seq::<u8>::empty(),
        ).push(Seq::<u8>::empty()));
        assert(base.update(base.len() - 1, line) =~= base.drop_last().push(line));
        assert(split_raw(m.text_upto(r)) =~= raw_upto(m, r));
    }
}

/// The first `r` rendered rows, as a list of lines.
spec fn rendered_lines(m: Maze, r: int) -> Seq<Seq<u8>> {
    Seq::new(r as nat, |i: int| m.render_line(i))
}

/// Filtering the raw segments of the first `r` rows keeps exactly the
/// rendered lines, when every one of those rows holds a wall.
proof fn lemma_lines_upto(m: Maze, r: int)
    requires
        m.wf(),
        0 <= r <= m.rows,
        forall|i: int| 0 <= i < r ==> row_has_wall(m, i),
    ensures
        lines_of(m.text_upto(r)) == rendered_lines(m, r),
    decreases r,
{
    lemma_raw_upto(m, r);
    if r == 0 {
        reveal_with_fuel(Seq::filter, 2);
        assert(raw_upto(m, 0) =~= Seq::<Seq<u8>>::empty().push(Seq::<u8>::empty()));
        lemma_filter_push(Seq::<Seq<u8>>::empty(), Seq::<u8>::empty());
        assert(lines_of(m.text_upto(0)) =~= rendered_lines(m, 0));
    } else {
        lemma_lines_upto(m, r - 1);
        lemma_raw_upto(m, r - 1);
        let prev = raw_upto(m, r - 1);
        let line = m.render_line(r - 1);
        // the previous raw list ends in a blank segment, so dropping it does
        // not change the filtered lines
        assert(prev =~= prev.drop_last().push(Seq::<u8>::empty()));
        lemma_filter_push(prev.drop_last(), Seq::<u8>::empty());
        assert(prev.filter(nonblank()) == prev.drop_last().filter(nonblank()));
        // the rendered line is kept: it holds a wall mark
        assert(row_has_wall(m, r - 1));
        let c = choose|c: int| 0 <= c < m.cols && #[trigger] m.tile_at(c, r - 1);
        assert(line[c] == 35u8);
        assert(!is_blank_byte(35u8));
        assert(!is_blank_line(line));
        lemma_filter_push(prev.drop_last(), line);
        lemma_filter_push(prev.drop_last().push(line), Seq::<u8>::empty());
        lemma_filter_push(prev.drop_last().push(line).push(Seq::<u8>::empty()), Seq::<u8>::empty());
        assert(raw_upto(m, r).filter(nonblank()) == prev.filter(nonblank()).push(line));
        assert(lines_of(m.text_upto(r)) =~= rendered_lines(m, r));
    }
}

/// The tiles parsed back from the first `r` rendered rows are the first
/// `r` rows of the grid.
proof fn lemma_tiles_upto(m: Maze, r: int)
    requires
        m.wf(),
        0 <= r <= m.rows,
    ensures
        tiles_of(rendered_lines(m, r)) == m.tiles@.take(r * m.cols),
    decreases r,
{
    if r == 0 {
        assert(r * m.cols == 0) by (nonlinear_arith)
            requires
                r == 0,
        ;
        assert(rendered_lines(m, 0) =~= Seq::<Seq<u8>>::empty());
        assert(tiles_of(rendered_lines(m, 0)) =~= m.tiles@.take(0));
    } else {
        assert(r * m.cols <= m.rows * m.cols && 0 <= r * m.cols && (r - 1) * m.cols + m.cols == r
            * m.cols && m.rows * m.cols == m.cols * m.rows && (r - 1) * m.cols >= 0)
            by (nonlinear_arith)
            requires
                1 <= r <= m.rows,
        ;
        lemma_tiles_upto(m, r - 1);
        let ls = rendered_lines(m, r);
        assert(ls.drop_last() =~= rendered_lines(m, r - 1));
        assert(ls.last() == m.render_line(r - 1));
        let row_tiles = parse_line(m.render_line(r - 1));
        assert forall|c: int| 0 <= c < m.cols implies row_tiles[c] == m.tiles@[(r - 1) * m.cols
            + c] by {
            assert(0 <= (r - 1) * m.cols + c < m.tiles@.len()) by (nonlinear_arith)
                requires
                    0 <= c < m.cols,
                    1 <= r <= m.rows,
                    m.tiles@.len() == m.cols * m.rows,
            ;
            assert(m.render_line(r - 1)[c] == (if m.tile_at(c, r - 1) {
                35u8
            } else {
                32u8
            }));
            assert(m.spec_index_of(c, r - 1) == (r - 1) * m.cols + c);
        }
        assert(m.tiles@.take((r - 1) * m.cols) + row_tiles =~= m.tiles@.take(r * m.cols));
        assert(tiles_of(ls) == m.tiles@.take(r * m.cols));
    }
}

/// Round trip: serializing a grid and loading the text back gives the same
/// dimensions and the same tiles, provided every row holds at least one
/// wall — a row of open cells alone serializes to a blank line, which the
/// loader discards.
pub proof fn lemma_text_round_trip(m: Maze)
    requires
        m.wf(),
        m.cols >= 1,
        m.rows >= 1,
        forall|r: int| 0 <= r < m.rows ==> row_has_wall(m, r),
    ensures
        load_ok(m.text_of()),
        lines_of(m.text_of()).len() == m.rows,
        lines_of(m.text_of())[0].len() == m.cols,
        tiles_of(lines_of(m.text_of())) == m.tiles@,
{
    lemma_lines_upto(m, m.rows as int);
    lemma_tiles_upto(m, m.rows as int);
    let ls = lines_of(m.text_of());
    assert(ls == rendered_lines(m, m.rows as int));
    assert(ls[0].len() == m.cols);
    assert(rows_consistent(ls)) by {
        assert forall|i: int| 0 <= i < ls.len() implies (#[trigger] ls[i]).len() == ls[0].len() by {
            assert(ls[i] == m.render_line(i));
        }
    }
    assert(m.rows * m.cols == m.cols * m.rows) by (nonlinear_arith);
    assert(m.tiles@.take(m.rows * m.cols) =~= m.tiles@);
}

} // verus!
