//! The mathematical model of the board: a grid of tiles, its lines, the
//! runs of tiles along a line, anchors and cross-sets.
use vstd::prelude::*;
use crate::letters::{alphabet, is_letter};
use crate::tiles::{Direction, SolverError, TileLetter, TilePlacement};

verus! {

/// One row or one column of the grid, cell by cell.
pub type Line = Seq<Option<TileLetter>>;

/// The tiles on a board of `rows` by `cols` cells, by `(row, column)`.
pub struct Grid {
    pub rows: nat,
    pub cols: nat,
    pub tiles: Map<(int, int), TileLetter>,
}

/// The position of a placement along a line of direction `d`.
pub open spec fn pos_of(d: Direction, p: TilePlacement) -> int {
    match d {
        Direction::Horizontal => p.col as int,
        Direction::Vertical => p.row as int,
    }
}

/// The line of direction `d` that a placement lies on.
pub open spec fn line_of(d: Direction, p: TilePlacement) -> int {
    match d {
        Direction::Horizontal => p.row as int,
        Direction::Vertical => p.col as int,
    }
}

/// Whether cell `k` of `line` exists and holds a tile.
pub open spec fn filled(line: Line, k: int) -> bool {
    0 <= k < line.len() && line[k] is Some
}

/// The number of tiles in a row right before cell `k`.
pub open spec fn run_before(line: Line, k: int) -> int
    decreases k,
{
    if filled(line, k - 1) {
        1 + run_before(line, k - 1)
    } else {
        0
    }
}

/// The number of tiles in a row right after cell `k`.
pub open spec fn run_after(line: Line, k: int) -> int
    decreases line.len() - k,
{
    if filled(line, k + 1) {
        1 + run_after(line, k + 1)
    } else {
        0
    }
}

/// The character on cell `k` of `line`; a space where the cell is empty.
pub open spec fn char_on(line: Line, k: int) -> char {
    match line[k] {
        Some(t) => t.letter(),
        None => ' ',
    }
}

/// The characters on the cells `lo..=hi` of `line`.
pub open spec fn letters(line: Line, lo: int, hi: int) -> Seq<char> {
    Seq::new(
        if hi >= lo {
            (hi - lo + 1) as nat
        } else {
            0nat
        },
        |j: int| char_on(line, lo + j),
    )
}

/// The word that runs through cell `k` of `line`: the characters of the
/// longest stretch of tiles that holds the cell.
pub open spec fn word_through(line: Line, k: int) -> Seq<char> {
    letters(line, k - run_before(line, k), k + run_after(line, k))
}

/// The tiles right before cell `k` are that many, all filled, and end at an
/// empty cell or at the edge.
pub proof fn lemma_run_before(line: Line, k: int)
    requires
        0 <= k <= line.len(),
    ensures
        0 <= run_before(line, k) <= k,
        forall|j: int| k - run_before(line, k) <= j < k ==> filled(line, j),
        !filled(line, k - run_before(line, k) - 1),
    decreases k,
{
    if filled(line, k - 1) {
        lemma_run_before(line, k - 1);
    }
}

/// The tiles right after cell `k` are that many, all filled, and end at an
/// empty cell or at the edge.
pub proof fn lemma_run_after(line: Line, k: int)
    requires
        -1 <= k < line.len(),
    ensures
        0 <= run_after(line, k) <= line.len() - 1 - k,
        forall|j: int| k < j <= k + run_after(line, k) ==> filled(line, j),
        !filled(line, k + run_after(line, k) + 1),
    decreases line.len() - k,
{
    if filled(line, k + 1) {
        lemma_run_after(line, k + 1);
    }
}

/// A stretch of `n` tiles right before cell `k` that ends at an empty cell
/// or at the edge is the run before `k`.
pub proof fn lemma_run_before_is(line: Line, k: int, n: int)
    requires
        0 <= n <= k <= line.len(),
        forall|j: int| k - n <= j < k ==> filled(line, j),
        !filled(line, k - n - 1),
    ensures
        run_before(line, k) == n,
    decreases n,
{
    if n > 0 {
        lemma_run_before_is(line, k - 1, n - 1);
    }
}

/// A stretch of `n` tiles right after cell `k` that ends at an empty cell
/// or at the edge is the run after `k`.
pub proof fn lemma_run_after_is(line: Line, k: int, n: int)
    requires
        0 <= n,
        -1 <= k,
        k + n < line.len(),
        forall|j: int| k < j <= k + n ==> filled(line, j),
        !filled(line, k + n + 1),
    ensures
        run_after(line, k) == n,
    decreases n,
{
    if n > 0 {
        lemma_run_after_is(line, k + 1, n - 1);
    }
}

impl Grid {
    /// Whether `(r, c)` is a cell of the grid.
    pub open spec fn in_bounds(self, r: int, c: int) -> bool {
        0 <= r < self.rows && 0 <= c < self.cols
    }

    /// A grid has odd dimensions and tiles on its cells only.
    pub open spec fn wf(self) -> bool {
        &&& self.rows % 2 == 1
        &&& self.cols % 2 == 1
        &&& forall|r: int, c: int| #[trigger] self.tiles.dom().contains((r, c)) ==> self.in_bounds(r, c)
    }

    /// Whether cell `(r, c)` holds a tile.
    pub open spec fn occupied(self, r: int, c: int) -> bool {
        self.tiles.dom().contains((r, c))
    }

    /// The tile on cell `(r, c)`, if there is one.
    pub open spec fn tile(self, r: int, c: int) -> Option<TileLetter> {
        if self.occupied(r, c) {
            Some(self.tiles[(r, c)])
        } else {
            None
        }
    }

    /// Whether no tile has been placed.
    pub open spec fn is_blank(self) -> bool {
        forall|r: int, c: int| !#[trigger] self.occupied(r, c)
    }

    /// The row of the centre cell.
    pub open spec fn centre_row(self) -> int {
        self.rows as int / 2
    }

    /// The column of the centre cell.
    pub open spec fn centre_col(self) -> int {
        self.cols as int / 2
    }

    /// Whether one of the four neighbours of `(r, c)` holds a tile.
    pub open spec fn has_neighbour(self, r: int, c: int) -> bool {
        self.occupied(r - 1, c) || self.occupied(r + 1, c) || self.occupied(r, c - 1)
            || self.occupied(r, c + 1)
    }

    /// Whether `(r, c)` is an anchor: an empty cell next to a tile, or the
    /// centre of a board without tiles.
    pub open spec fn is_anchor(self, r: int, c: int) -> bool {
        &&& self.in_bounds(r, c)
        &&& !self.occupied(r, c)
        &&& (self.has_neighbour(r, c) || (self.is_blank() && r == self.centre_row() && c
            == self.centre_col()))
    }

    /// The number of cells of a line of direction `d`.
    pub open spec fn line_len(self, d: Direction) -> nat {
        match d {
            Direction::Horizontal => self.cols,
            Direction::Vertical => self.rows,
        }
    }

    /// The number of lines of direction `d`.
    pub open spec fn line_count(self, d: Direction) -> nat {
        match d {
            Direction::Horizontal => self.rows,
            Direction::Vertical => self.cols,
        }
    }

    /// The tile on cell `k` of line `l` of direction `d`.
    pub open spec fn tile_on(self, d: Direction, l: int, k: int) -> Option<TileLetter> {
        match d {
            Direction::Horizontal => self.tile(l, k),
            Direction::Vertical => self.tile(k, l),
        }
    }

    /// Line `l` of direction `d`: row `l`, or column `l`.
    pub open spec fn line(self, d: Direction, l: int) -> Line {
        Seq::new(self.line_len(d), |k: int| self.tile_on(d, l, k))
    }

    /// The grid with one more tile.
    pub open spec fn put(self, p: TilePlacement) -> Grid {
        Grid { rows: self.rows, cols: self.cols, tiles: self.tiles.insert((p.row as int, p.col as int), p.letter) }
    }

    /// The grid with the tiles of `ps` laid on it.
    pub open spec fn place(self, ps: Seq<TilePlacement>) -> Grid
        decreases ps.len(),
    {
        if ps.len() == 0 {
            self
        } else {
            self.place(ps.drop_last()).put(ps.last())
        }
    }

    /// The line that crosses cell `(r, c)` at a right angle to direction `d`.
    pub open spec fn cross_line(self, d: Direction, r: int, c: int) -> Line {
        match d {
            Direction::Horizontal => self.line(Direction::Vertical, c),
            Direction::Vertical => self.line(Direction::Horizontal, r),
        }
    }

    /// Whether a tile on `(r, c)` would join tiles across direction `d`.
    pub open spec fn has_cross(self, d: Direction, r: int, c: int) -> bool {
        let k = cross_pos(d, r, c);
        filled(self.cross_line(d, r, c), k - 1) || filled(self.cross_line(d, r, c), k + 1)
    }

    /// The word that the tile `t` on the empty cell `(r, c)` would form
    /// across direction `d`, together with the tiles that it joins.
    pub open spec fn cross_word(self, d: Direction, r: int, c: int, t: TileLetter) -> Seq<char> {
        let k = cross_pos(d, r, c);
        word_through(self.cross_line(d, r, c).update(k, Some(t)), k)
    }

    /// The cross-set of cell `(r, c)` for plays in direction `d` with the
    /// dictionary `dict`.  `None`: the cell is empty and joins no tile
    /// across `d`, so any letter may go there.  Otherwise the letters that
    /// may: none on a cell that is taken, every letter on the centre of a
    /// board without tiles, and else the letters that form a word of the
    /// dictionary with the tiles that they join across `d`.
    pub open spec fn cross_set(self, dict: Set<Seq<char>>, d: Direction, r: int, c: int) -> Option<
        Set<char>,
    > {
        if self.occupied(r, c) {
            Some(Set::empty())
        } else if self.is_blank() && r == self.centre_row() && c == self.centre_col() {
            Some(alphabet())
        } else if !self.has_cross(d, r, c) {
            None
        } else {
            Some(
                Set::new(
                    |x: char|
                        is_letter(x) && dict.contains(self.cross_word(d, r, c, TileLetter::Char(x))),
                ),
            )
        }
    }

    /// Whether the letter `x` may be laid on `(r, c)` in a play of direction `d`.
    pub open spec fn cross_ok(self, dict: Set<Seq<char>>, d: Direction, r: int, c: int, x: char) -> bool {
        match self.cross_set(dict, d, r, c) {
            Some(s) => s.contains(x),
            None => true,
        }
    }
}

/// The position of cell `(r, c)` on the line that crosses it at a right
/// angle to direction `d`.
pub open spec fn cross_pos(d: Direction, r: int, c: int) -> int {
    match d {
        Direction::Horizontal => r,
        Direction::Vertical => c,
    }
}

/// Whether the placement `p` lies on cell `(r, c)`.
pub open spec fn at_cell(p: TilePlacement, r: int, c: int) -> bool {
    p.row == r && p.col == c
}

/// Whether cell `(r, c)` is one of the four neighbours of the placement `p`.
pub open spec fn adjacent(p: TilePlacement, r: int, c: int) -> bool {
    (c == p.col && (r == p.row - 1 || r == p.row + 1)) || (r == p.row && (c == p.col - 1 || c
        == p.col + 1))
}

/// Whether every placement lies on a cell of the grid.
pub open spec fn all_in_bounds(g: Grid, ps: Seq<TilePlacement>) -> bool {
    forall|i: int| 0 <= i < ps.len() ==> g.in_bounds((#[trigger] ps[i]).row as int, ps[i].col as int)
}

/// Whether every placement lies on a cell without a tile.
pub open spec fn all_on_empty(g: Grid, ps: Seq<TilePlacement>) -> bool {
    forall|i: int| 0 <= i < ps.len() ==> !g.occupied((#[trigger] ps[i]).row as int, ps[i].col as int)
}

/// Whether no two placements lie on the same cell.
pub open spec fn distinct_cells(ps: Seq<TilePlacement>) -> bool {
    forall|i: int, j: int|
        0 <= i < j < ps.len() ==> !at_cell(#[trigger] ps[i], (#[trigger] ps[j]).row as int, ps[j].col as int)
}

/// Whether all placements lie in one line of direction `d`.
pub open spec fn in_line(d: Direction, ps: Seq<TilePlacement>) -> bool {
    forall|i: int| 0 <= i < ps.len() ==> line_of(d, #[trigger] ps[i]) == line_of(d, ps[0])
}

/// The direction of a move: along the row where all placements share one,
/// else down the column.
pub open spec fn direction_of(ps: Seq<TilePlacement>) -> Direction {
    if in_line(Direction::Horizontal, ps) {
        Direction::Horizontal
    } else {
        Direction::Vertical
    }
}

/// Whether cell `k` of the line of the move lies strictly between the
/// placements `p` and `q`.
pub open spec fn gap_between(d: Direction, p: TilePlacement, q: TilePlacement, k: int) -> bool {
    pos_of(d, p) < k < pos_of(d, q)
}

/// Whether cell `k` of line `l` of direction `d` holds a tile or gets one from `ps`.
pub open spec fn covered(g: Grid, ps: Seq<TilePlacement>, d: Direction, l: int, k: int) -> bool {
    g.tile_on(d, l, k) is Some || exists|t: int| 0 <= t < ps.len() && pos_of(d, #[trigger] ps[t]) == k
}

/// Whether the move, all in one line, leaves no cell without a tile
/// between two of its placements.
pub open spec fn no_gaps(g: Grid, ps: Seq<TilePlacement>) -> bool {
    let d = direction_of(ps);
    forall|i: int, j: int, k: int|
        0 <= i < ps.len() && 0 <= j < ps.len() && #[trigger] gap_between(d, ps[i], ps[j], k)
            ==> covered(g, ps, d, line_of(d, ps[0]), k)
}

/// Whether a placement lies on the centre cell.
pub open spec fn covers_centre(g: Grid, ps: Seq<TilePlacement>) -> bool {
    exists|i: int| 0 <= i < ps.len() && at_cell(#[trigger] ps[i], g.centre_row(), g.centre_col())
}

/// Whether a placement lies next to a tile of the grid.
pub open spec fn touches(g: Grid, ps: Seq<TilePlacement>) -> bool {
    exists|i: int| 0 <= i < ps.len() && g.has_neighbour((#[trigger] ps[i]).row as int, ps[i].col as int)
}

/// The rule that a move breaks, if it breaks one; the first in this order:
/// a placement outside the grid; a placement on a cell that is taken, by a
/// tile or by an earlier placement of the move; placements not in one line,
/// or with a gap; on a board without tiles, a move that misses the centre or
/// has fewer than two tiles; on a board with tiles, a move next to none of
/// them.
pub open spec fn placement_error(g: Grid, ps: Seq<TilePlacement>) -> Option<SolverError> {
    if !all_in_bounds(g, ps) {
        Some(SolverError::OutOfBounds)
    } else if !all_on_empty(g, ps) || !distinct_cells(ps) {
        Some(SolverError::OccupiedCell)
    } else if !(in_line(Direction::Horizontal, ps) || in_line(Direction::Vertical, ps)) || !no_gaps(
        g,
        ps,
    ) {
        Some(SolverError::DiscontiguousMove)
    } else if g.is_blank() {
        if covers_centre(g, ps) && ps.len() >= 2 {
            None
        } else {
            Some(SolverError::IllegalFirstMove)
        }
    } else if touches(g, ps) {
        None
    } else {
        Some(SolverError::DisconnectedMove)
    }
}

/// After a move, a cell holds the tile that the last placement on it
/// brought, or else the tile that it held before.
pub proof fn lemma_place_tile(g: Grid, ps: Seq<TilePlacement>, r: int, c: int)
    ensures
        g.place(ps).rows == g.rows,
        g.place(ps).cols == g.cols,
        g.place(ps).occupied(r, c) <==> g.occupied(r, c) || exists|i: int|
            0 <= i < ps.len() && at_cell(#[trigger] ps[i], r, c),
        (forall|i: int| 0 <= i < ps.len() ==> !at_cell(#[trigger] ps[i], r, c)) ==> g.place(ps).tile(
            r,
            c,
        ) == g.tile(r, c),
    decreases ps.len(),
{
    if ps.len() > 0 {
        let rest = ps.drop_last();
        lemma_place_tile(g, rest, r, c);
        if exists|i: int| 0 <= i < ps.len() && at_cell(#[trigger] ps[i], r, c) {
            let i = choose|i: int| 0 <= i < ps.len() && at_cell(#[trigger] ps[i], r, c);
            if i < rest.len() {
                assert(at_cell(rest[i], r, c));
            }
        }
        if exists|i: int| 0 <= i < rest.len() && at_cell(#[trigger] rest[i], r, c) {
            let i = choose|i: int| 0 <= i < rest.len() && at_cell(#[trigger] rest[i], r, c);
            assert(at_cell(ps[i], r, c));
        }
        if at_cell(ps.last(), r, c) {
            assert(at_cell(ps[ps.len() - 1], r, c));
        }
        if forall|i: int| 0 <= i < ps.len() ==> !at_cell(#[trigger] ps[i], r, c) {
            assert forall|i: int| 0 <= i < rest.len() implies !at_cell(#[trigger] rest[i], r, c) by {
                assert(!at_cell(ps[i], r, c));
            }
            assert(!at_cell(ps[ps.len() - 1], r, c));
        }
    }
}

/// A line of the grid after one more tile was put on the grid: the line
/// with the tile, where the tile lies on the line, and else the line as it was.
pub proof fn lemma_put_line(g: Grid, p: TilePlacement, d: Direction, l: int)
    requires
        g.in_bounds(p.row as int, p.col as int),
    ensures
        g.put(p).line(d, l) == (if line_of(d, p) == l {
            g.line(d, l).update(pos_of(d, p), Some(p.letter))
        } else {
            g.line(d, l)
        }),
{
    let h = g.put(p);
    let want = if line_of(d, p) == l {
        g.line(d, l).update(pos_of(d, p), Some(p.letter))
    } else {
        g.line(d, l)
    };
    assert forall|k: int| 0 <= k < h.line(d, l).len() implies h.line(d, l)[k] == want[k] by {
        let (r, c) = match d {
            Direction::Horizontal => (l, k),
            Direction::Vertical => (k, l),
        };
        assert(h.tile_on(d, l, k) == h.tile(r, c));
        assert(g.tile_on(d, l, k) == g.tile(r, c));
        if r == p.row && c == p.col {
            assert(h.tiles[(r, c)] == p.letter);
        } else {
            assert((r, c) != (p.row as int, p.col as int));
        }
    }
    assert(h.line(d, l) =~= want);
}

/// A move leaves the lines that it lays no tile on as they were.
pub proof fn lemma_place_line_untouched(g: Grid, ps: Seq<TilePlacement>, d: Direction, l: int)
    requires
        all_in_bounds(g, ps),
        forall|i: int| 0 <= i < ps.len() ==> line_of(d, #[trigger] ps[i]) != l,
    ensures
        g.place(ps).line(d, l) == g.line(d, l),
    decreases ps.len(),
{
    if ps.len() > 0 {
        let rest = ps.drop_last();
        assert forall|i: int| 0 <= i < rest.len() implies g.in_bounds(
            (#[trigger] rest[i]).row as int,
            rest[i].col as int,
        ) && line_of(d, rest[i]) != l by {
            assert(rest[i] == ps[i]);
        }
        lemma_place_line_untouched(g, rest, d, l);
        assert(ps.last() == ps[ps.len() - 1]);
        lemma_place_tile(g, rest, 0, 0);
        lemma_put_line(g.place(rest), ps.last(), d, l);
    }
}

/// Whether one of the first `n` placements of `ps` lies on the line that
/// crosses cell `(r, c)` at a right angle to direction `d`.
pub open spec fn touched(ps: Seq<TilePlacement>, n: int, d: Direction, r: int, c: int) -> bool {
    exists|t: int| 0 <= t < n && pos_of(d, #[trigger] ps[t]) == pos_of_cell(d, r, c)
}

/// The position of cell `(r, c)` along a line of direction `d`.
pub open spec fn pos_of_cell(d: Direction, r: int, c: int) -> int {
    match d {
        Direction::Horizontal => c,
        Direction::Vertical => r,
    }
}

/// On a grid without tiles the cross-sets depend on no dictionary.
pub proof fn lemma_blank_cross_set(g: Grid, a: Set<Seq<char>>, b: Set<Seq<char>>, d: Direction, r: int, c: int)
    requires
        g.is_blank(),
    ensures
        g.cross_set(a, d, r, c) == g.cross_set(b, d, r, c),
{
    let cl = g.cross_line(d, r, c);
    let k = cross_pos(d, r, c);
    assert(!g.occupied(r, c));
    assert(!filled(cl, k - 1)) by {
        if 0 <= k - 1 < cl.len() {
            match d {
                Direction::Horizontal => {
                    assert(!g.occupied(k - 1, c));
                },
                Direction::Vertical => {
                    assert(!g.occupied(r, k - 1));
                },
            }
        }
    }
    assert(!filled(cl, k + 1)) by {
        if 0 <= k + 1 < cl.len() {
            match d {
                Direction::Horizontal => {
                    assert(!g.occupied(k + 1, c));
                },
                Direction::Vertical => {
                    assert(!g.occupied(r, k + 1));
                },
            }
        }
    }
}

/// A move changes the cross-sets of the cells in the rows and columns of
/// its tiles only: the cross-set of a cell for a direction stays as it was
/// where the move lays no tile on the line that crosses the cell at a right
/// angle to the direction.
pub proof fn lemma_cross_set_untouched(
    g: Grid,
    ps: Seq<TilePlacement>,
    dict: Set<Seq<char>>,
    d: Direction,
    r: int,
    c: int,
)
    requires
        all_in_bounds(g, ps),
        ps.len() > 0,
        g.is_blank() ==> covers_centre(g, ps),
        !touched(ps, ps.len() as int, d, r, c),
    ensures
        g.place(ps).cross_set(dict, d, r, c) == g.cross_set(dict, d, r, c),
{
    let h = g.place(ps);
    let k = pos_of_cell(d, r, c);
    lemma_place_tile(g, ps, r, c);
    assert forall|i: int| 0 <= i < ps.len() implies !at_cell(#[trigger] ps[i], r, c) && line_of(
        d.cross(),
        ps[i],
    ) != k by {
        assert(pos_of(d, ps[i]) != k);
    }
    lemma_place_line_untouched(g, ps, d.cross(), k);
    assert(h.cross_line(d, r, c) == g.cross_line(d, r, c));
    lemma_place_tile(g, ps, ps[0].row as int, ps[0].col as int);
    assert(at_cell(ps[0], ps[0].row as int, ps[0].col as int));
    assert(h.occupied(ps[0].row as int, ps[0].col as int));
    if g.is_blank() {
        let i = choose|i: int| 0 <= i < ps.len() && at_cell(#[trigger] ps[i], g.centre_row(), g.centre_col());
        assert(!(r == g.centre_row() && c == g.centre_col()));
    }
}

} // verus!
