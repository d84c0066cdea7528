//! The board index: the grid of placed tiles together with its anchors and
//! the cross-sets of its cells for both directions of play.
use vstd::prelude::*;
use crate::dag::Graph;
use crate::grid::{
    adjacent, all_in_bounds, at_cell, covers_centre, cross_pos, filled, lemma_blank_cross_set,
    lemma_cross_set_untouched, lemma_place_tile, lemma_run_after_is, lemma_run_before_is, letters,
    placement_error, pos_of, pos_of_cell, run_after, run_before, touched, Grid, Line,
};
use crate::rules::check_move;
use crate::letters::{index_to_letter, is_letter, letter_index, LetterSet, ALPHABET_SIZE};
use crate::tiles::{Direction, SolverError, TileLetter, TilePlacement};

verus! {

/// The mathematical content of a stored cross-set.
pub open spec fn set_of(s: Option<LetterSet>) -> Option<Set<char>> {
    match s {
        Some(l) => Some(l@),
        None => None,
    }
}

/// The index of cell `(r, c)` in a row-major table with `cols` columns.
pub open spec fn cell_index(cols: int, r: int, c: int) -> int {
    r * cols + c
}

/// Cells of the grid have indices within the table, one for each cell.
pub proof fn lemma_cell_index(rows: int, cols: int, r: int, c: int)
    requires
        0 <= r < rows,
        0 <= c < cols,
    ensures
        0 <= r * cols <= cell_index(cols, r, c) < rows * cols,
        cell_index(cols, r, c) / cols == r,
        cell_index(cols, r, c) % cols == c,
{
    assert(r * cols + c < rows * cols) by (nonlinear_arith)
        requires
            0 <= r < rows,
            0 <= c < cols,
    ;
    assert(0 <= r * cols) by (nonlinear_arith)
        requires
            0 <= r,
            0 <= cols,
    ;
    vstd::arithmetic::div_mod::lemma_fundamental_div_mod_converse(r * cols + c, cols, r, c);
}

/// The runs of tiles before a cell depend on the cells before it only.
pub proof fn lemma_run_before_frame(a: Line, b: Line, k: int)
    requires
        a.len() == b.len(),
        forall|j: int| 0 <= j < k && j < a.len() ==> a[j] == b[j],
    ensures
        run_before(a, k) == run_before(b, k),
    decreases k,
{
    if filled(a, k - 1) {
        lemma_run_before_frame(a, b, k - 1);
    }
}

/// The runs of tiles after a cell depend on the cells after it only.
pub proof fn lemma_run_after_frame(a: Line, b: Line, k: int)
    requires
        a.len() == b.len(),
        forall|j: int| k < j < a.len() && 0 <= j ==> a[j] == b[j],
    ensures
        run_after(a, k) == run_after(b, k),
    decreases a.len() - k,
{
    if filled(a, k + 1) {
        lemma_run_after_frame(a, b, k + 1);
    }
}

/// The board: a grid of `rows` by `cols` squares, the anchors, and the
/// cross-sets of every cell, kept up to date with the tiles and with the
/// dictionary that they were computed against.
pub struct Board {
    rows: usize,
    cols: usize,
    squares: Vec<Option<TileLetter>>,
    bare: bool,
    anchors: Vec<bool>,
    cross_h: Vec<Option<LetterSet>>,
    cross_v: Vec<Option<LetterSet>>,
    dict: Ghost<Set<Seq<char>>>,
}

impl View for Board {
    type V = Grid;

    closed spec fn view(&self) -> Grid {
        Grid {
            rows: self.rows as nat,
            cols: self.cols as nat,
            tiles: Map::new(
                |rc: (int, int)| self.square(rc.0, rc.1) is Some,
                |rc: (int, int)| self.square_tile(rc.0, rc.1),
            ),
        }
    }
}

impl Board {
    /// The content of the square at `(r, c)`; nothing outside the grid.
    closed spec fn square(&self, r: int, c: int) -> Option<TileLetter> {
        if 0 <= r < self.rows && 0 <= c < self.cols {
            self.squares@[cell_index(self.cols as int, r, c)]
        } else {
            None
        }
    }

    /// The tile on the square at `(r, c)`, where there is one.
    closed spec fn square_tile(&self, r: int, c: int) -> TileLetter {
        self.square(r, c)->0
    }

    /// The dictionary that the cross-sets were computed against.
    pub closed spec fn dictionary(&self) -> Set<Seq<char>> {
        self.dict@
    }

    /// The tables have one entry for each cell, and the board knows whether
    /// it holds a tile.
    closed spec fn sized(&self) -> bool {
        &&& self.rows % 2 == 1
        &&& self.cols % 2 == 1
        &&& self.rows * self.cols <= usize::MAX
        &&& self.squares@.len() == self.rows * self.cols
        &&& self.anchors@.len() == self.rows * self.cols
        &&& self.cross_h@.len() == self.rows * self.cols
        &&& self.cross_v@.len() == self.rows * self.cols
        &&& self.bare == self@.is_blank()
    }

    /// The stored cross-set of cell `(r, c)` for plays in direction `d`.
    closed spec fn stored_cross(&self, d: Direction, r: int, c: int) -> Option<LetterSet> {
        match d {
            Direction::Horizontal => self.cross_h@[cell_index(self.cols as int, r, c)],
            Direction::Vertical => self.cross_v@[cell_index(self.cols as int, r, c)],
        }
    }

    /// Whether cell `(r, c)` is marked as an anchor.
    closed spec fn stored_anchor(&self, r: int, c: int) -> bool {
        self.anchors@[cell_index(self.cols as int, r, c)]
    }

    /// The marked anchors are the anchors of the grid.
    closed spec fn anchors_ok(&self) -> bool {
        forall|r: int, c: int|
            0 <= r < self.rows && 0 <= c < self.cols ==> #[trigger] self.stored_anchor(r, c)
                == self@.is_anchor(r, c)
    }

    /// The stored cross-set of cell `(r, c)` for direction `d` is the
    /// cross-set of the grid with the dictionary `dict`.
    closed spec fn cross_ok_at(&self, dict: Set<Seq<char>>, d: Direction, r: int, c: int) -> bool {
        set_of(self.stored_cross(d, r, c)) == self@.cross_set(dict, d, r, c)
    }

    /// The board's invariant: the marked anchors are the anchors of the
    /// grid, and the stored cross-sets are the cross-sets of the grid's
    /// cells with the board's dictionary.
    pub closed spec fn wf(&self) -> bool {
        &&& self.sized()
        &&& self.anchors_ok()
        &&& forall|d: Direction, r: int, c: int|
            0 <= r < self.rows && 0 <= c < self.cols ==> #[trigger] self.cross_ok_at(
                self.dict@,
                d,
                r,
                c,
            )
    }

    /// The grid of a board has odd dimensions and tiles on its cells only.
    pub proof fn lemma_grid_wf(&self)
        requires
            self.wf(),
        ensures
            self@.wf(),
    {
    }

    /// Boards with the same squares have the same grid.
    proof fn lemma_same_grid(&self, other: &Board)
        requires
            self.rows == other.rows,
            self.cols == other.cols,
            self.squares@ == other.squares@,
        ensures
            self@ == other@,
    {
        assert(self@.tiles =~= other@.tiles);
    }

    /// A board with the squares and the anchor marks of a board whose marks
    /// are the anchors of its grid has the same grid, and its marks are the
    /// anchors of its grid.
    proof fn lemma_anchors_kept(&self, other: &Board)
        requires
            other.anchors_ok(),
            self.rows == other.rows,
            self.cols == other.cols,
            self.squares@ == other.squares@,
            self.anchors@ == other.anchors@,
        ensures
            self@ == other@,
            self.anchors_ok(),
    {
        self.lemma_same_grid(other);
        assert forall|r: int, c: int|
            0 <= r < self.rows && 0 <= c < self.cols implies #[trigger] self.stored_anchor(r, c)
            == self@.is_anchor(r, c) by {
            assert(other.stored_anchor(r, c) == other@.is_anchor(r, c));
        }
    }

    /// Whether two boards keep the same cross-sets for the same dictionary.
    closed spec fn same_cross(&self, other: &Board) -> bool {
        &&& self.cross_h@ == other.cross_h@
        &&& self.cross_v@ == other.cross_v@
        &&& self.dict@ == other.dict@
    }

    /// The tile on a cell of the grid is the content of its square.
    proof fn lemma_tile(&self, r: int, c: int)
        ensures
            self@.tile(r, c) == self.square(r, c),
            self@.occupied(r, c) == self.square(r, c) is Some,
    {
    }

    /// The index of cell `(row, col)` in the board's tables.
    fn get_index(&self, row: usize, col: usize) -> (i: usize)
        requires
            self.sized(),
            row < self.rows,
            col < self.cols,
        ensures
            i == cell_index(self.cols as int, row as int, col as int),
            i < self.rows * self.cols,
    {
        proof {
            lemma_cell_index(self.rows as int, self.cols as int, row as int, col as int);
        }
        row * self.cols + col
    }

    /// The content of the square at `(row, col)`.
    fn square_at(&self, row: usize, col: usize) -> (t: Option<TileLetter>)
        requires
            self.sized(),
        ensures
            t == self@.tile(row as int, col as int),
    {
        proof {
            self.lemma_tile(row as int, col as int);
        }
        if row < self.rows && col < self.cols {
            let i = self.get_index(row, col);
            self.squares[i]
        } else {
            None
        }
    }

    /// The content of cell `pos` of line `line` of direction `dir`.
    fn square_on(&self, dir: Direction, line: usize, pos: usize) -> (t: Option<TileLetter>)
        requires
            self.sized(),
        ensures
            t == self@.tile_on(dir, line as int, pos as int),
    {
        match dir {
            Direction::Horizontal => self.square_at(line, pos),
            Direction::Vertical => self.square_at(pos, line),
        }
    }

    /// The number of rows.
    pub fn rows(&self) -> (n: usize)
        ensures
            n == self@.rows,
    {
        self.rows
    }

    /// The number of columns.
    pub fn cols(&self) -> (n: usize)
        ensures
            n == self@.cols,
    {
        self.cols
    }

    /// Whether no tile has been placed yet.
    pub fn is_bare(&self) -> (b: bool)
        requires
            self.wf(),
        ensures
            b == self@.is_blank(),
    {
        self.bare
    }

    /// The tile on cell `(row, col)`; nothing outside the grid.
    pub fn tile_at(&self, row: usize, col: usize) -> (t: Option<TileLetter>)
        requires
            self.wf(),
        ensures
            t == self@.tile(row as int, col as int),
    {
        self.square_at(row, col)
    }

    /// The tile on cell `pos` of line `line` of direction `dir`; nothing
    /// outside the grid.
    pub fn tile_on(&self, dir: Direction, line: usize, pos: usize) -> (t: Option<TileLetter>)
        requires
            self.wf(),
        ensures
            t == self@.tile_on(dir, line as int, pos as int),
    {
        self.square_on(dir, line, pos)
    }

    /// Whether cell `(row, col)` is an anchor.
    pub fn is_anchor(&self, row: usize, col: usize) -> (b: bool)
        requires
            self.wf(),
        ensures
            b == self@.is_anchor(row as int, col as int),
            b == self.marks_anchor(row as int, col as int),
    {
        if row < self.rows && col < self.cols {
            let i = self.get_index(row, col);
            assert(self.stored_anchor(row as int, col as int) == self.anchors@[i as int]);
            self.anchors[i]
        } else {
            false
        }
    }

    /// Whether one of the four neighbours of the square at `(row, col)` holds a tile.
    fn beside_tile(&self, row: usize, col: usize) -> (b: bool)
        requires
            self.sized(),
            row < self.rows,
            col < self.cols,
        ensures
            b == self@.has_neighbour(row as int, col as int),
    {
        proof {
            self.lemma_tile(row as int - 1, col as int);
            self.lemma_tile(row as int, col as int - 1);
        }
        (row > 0 && self.square_at(row - 1, col).is_some()) || self.square_at(row + 1, col).is_some()
            || (col > 0 && self.square_at(row, col - 1).is_some()) || self.square_at(
            row,
            col + 1,
        ).is_some()
    }

    /// Whether one of the four neighbours of cell `(row, col)` holds a tile.
    pub fn has_neighbour(&self, row: usize, col: usize) -> (b: bool)
        requires
            self.wf(),
            row < self@.rows,
            col < self@.cols,
        ensures
            b == self@.has_neighbour(row as int, col as int),
    {
        self.beside_tile(row, col)
    }

    /// The cross-set of cell `(row, col)` for plays in direction `dir`:
    /// `None` where any letter may go.
    pub fn cross_set(&self, row: usize, col: usize, dir: Direction) -> (s: Option<LetterSet>)
        requires
            self.wf(),
            row < self@.rows,
            col < self@.cols,
        ensures
            set_of(s) == self@.cross_set(self.dictionary(), dir, row as int, col as int),
            set_of(s) == self.kept_cross_set(dir, row as int, col as int),
    {
        let i = self.get_index(row, col);
        assert(self.cross_ok_at(self.dict@, dir, row as int, col as int));
        match dir {
            Direction::Horizontal => self.cross_h[i],
            Direction::Vertical => self.cross_v[i],
        }
    }

    /// A board of `rows` by `cols` cells without tiles.  Both dimensions
    /// must be odd, so that the board has a centre cell: the only anchor of
    /// a board without tiles, where every letter may go.
    pub fn new(rows: usize, cols: usize) -> (r: Result<Board, SolverError>)
        requires
            rows % 2 == 1 && cols % 2 == 1 ==> rows * cols <= usize::MAX,
        ensures
            match r {
                Ok(b) => {
                    &&& rows % 2 == 1
                    &&& cols % 2 == 1
                    &&& b.wf()
                    &&& b@.rows == rows
                    &&& b@.cols == cols
                    &&& b@.is_blank()
                    &&& b.dictionary() == Set::<Seq<char>>::empty()
                },
                Err(e) => e == SolverError::InvalidDimensions && (rows % 2 == 0 || cols % 2 == 0),
            },
    {
        if rows % 2 == 0 || cols % 2 == 0 {
            return Err(SolverError::InvalidDimensions);
        }
        let n = rows * cols;
        let mut squares: Vec<Option<TileLetter>> = Vec::new();
        let mut anchors: Vec<bool> = Vec::new();
        let mut cross_h: Vec<Option<LetterSet>> = Vec::new();
        let mut cross_v: Vec<Option<LetterSet>> = Vec::new();
        let mut i: usize = 0;
        while i < n
            invariant
                i <= n,
                squares@.len() == i,
                anchors@.len() == i,
                cross_h@.len() == i,
                cross_v@.len() == i,
                forall|j: int| 0 <= j < i ==> squares@[j] is None,
                forall|j: int| 0 <= j < i ==> !anchors@[j],
                forall|j: int| 0 <= j < i ==> cross_h@[j] is None,
                forall|j: int| 0 <= j < i ==> cross_v@[j] is None,
            decreases n - i,
        {
            squares.push(None);
            anchors.push(false);
            cross_h.push(None);
            cross_v.push(None);
            i += 1;
        }
        let centre_row = rows / 2;
        let centre_col = cols / 2;
        proof {
            lemma_cell_index(rows as int, cols as int, centre_row as int, centre_col as int);
        }
        let centre = centre_row * cols + centre_col;
        anchors[centre] = true;
        cross_h[centre] = Some(LetterSet::full());
        cross_v[centre] = Some(LetterSet::full());
        let board = Board {
            rows,
            cols,
            squares,
            bare: true,
            anchors,
            cross_h,
            cross_v,
            dict: Ghost(Set::empty()),
        };
        proof {
            let g = board@;
            assert forall|r: int, c: int| !#[trigger] g.occupied(r, c) by {
                if 0 <= r < rows && 0 <= c < cols {
                    lemma_cell_index(rows as int, cols as int, r, c);
                }
            }
            assert(g.is_blank());
            assert forall|r: int, c: int| 0 <= r < rows && 0 <= c < cols implies #[trigger]
                board.stored_anchor(r, c) == g.is_anchor(r, c) by {
                lemma_cell_index(rows as int, cols as int, r, c);
                if cell_index(cols as int, r, c) == centre {
                    assert(r == centre_row && c == centre_col);
                }
            }
            assert forall|d: Direction, r: int, c: int|
                0 <= r < rows && 0 <= c < cols implies #[trigger] board.cross_ok_at(
                board.dict@,
                d,
                r,
                c,
            ) by {
                lemma_cell_index(rows as int, cols as int, r, c);
                if cell_index(cols as int, r, c) == centre {
                    assert(r == centre_row && c == centre_col);
                }
                assert(!g.has_cross(d, r, c));
            }
        }
        Ok(board)
    }

    /// Computes the cross-set of cell `(row, col)` for plays in direction
    /// `dir`: walks from the cell across `dir` over the tiles on either
    /// side, and looks up in the graph each word that a letter on the cell
    /// would form with them.
    fn walk_tile(&self, graph: &Graph, row: usize, col: usize, dir: Direction) -> (s: Option<
        LetterSet,
    >)
        requires
            self.sized(),
            graph.wf(),
            row < self.rows,
            col < self.cols,
        ensures
            set_of(s) == self@.cross_set(graph@, dir, row as int, col as int),
    {
        let ghost g = self@;
        let ghost cl = g.cross_line(dir, row as int, col as int);
        if self.square_at(row, col).is_some() {
            return Some(LetterSet::empty());
        }
        if self.bare && row == self.rows / 2 && col == self.cols / 2 {
            return Some(LetterSet::full());
        }
        let cd = dir.crossing();
        let (line, p, len) = match dir {
            Direction::Horizontal => (col, row, self.rows),
            Direction::Vertical => (row, col, self.cols),
        };
        assert(cl == g.line(cd, line as int));
        assert(p == cross_pos(dir, row as int, col as int));
        assert(cl.len() == len);
        let mut lo: usize = p;
        while lo > 0 && self.square_on(cd, line, lo - 1).is_some()
            invariant
                self.sized(),
                lo <= p < len,
                cl == self@.line(cd, line as int),
                cl.len() == len,
                forall|j: int| lo <= j < p ==> filled(cl, j),
            decreases lo,
        {
            lo -= 1;
        }
        let mut hi: usize = p;
        while hi + 1 < len && self.square_on(cd, line, hi + 1).is_some()
            invariant
                self.sized(),
                p <= hi < len,
                cl == self@.line(cd, line as int),
                cl.len() == len,
                forall|j: int| p < j <= hi ==> filled(cl, j),
            decreases len - hi,
        {
            hi += 1;
        }
        proof {
            lemma_run_before_is(cl, p as int, p - lo);
            lemma_run_after_is(cl, p as int, hi - p);
        }
        if lo == p && hi == p {
            return None;
        }
        let mut word: Vec<char> = Vec::new();
        let mut j: usize = lo;
        while j <= hi
            invariant
                self.sized(),
                lo <= p <= hi < len,
                lo <= j <= hi + 1,
                cl == self@.line(cd, line as int),
                cl.len() == len,
                forall|t: int| lo <= t <= hi && t != p ==> filled(cl, t),
                word@.len() == j - lo,
                forall|t: int| lo <= t < j && t != p ==> word@[t - lo] == cl[t]->0.letter(),
            decreases hi + 1 - j,
        {
            if j == p {
                word.push('a');
            } else {
                let t = self.square_on(cd, line, j);
                assert(filled(cl, j as int));
                word.push(t.unwrap().to_char());
            }
            j += 1;
        }
        let mut set = LetterSet::empty();
        let mut x: usize = 0;
        while x < ALPHABET_SIZE
            invariant
                x <= ALPHABET_SIZE,
                graph.wf(),
                lo <= p <= hi < len,
                cl.len() == len,
                p - lo == run_before(cl, p as int),
                hi - p == run_after(cl, p as int),
                word@.len() == hi - lo + 1,
                forall|t: int| lo <= t <= hi && t != p ==> word@[t - lo] == cl[t]->0.letter(),
                forall|t: int| lo <= t <= hi && t != p ==> filled(cl, t),
                forall|ch: char| #[trigger]
                    set@.contains(ch) <==> is_letter(ch) && letter_index(ch) < x
                        && graph@.contains(
                        letters(cl.update(p as int, Some(TileLetter::Char(ch))), lo as int, hi as int),
                    ),
            decreases ALPHABET_SIZE - x,
        {
            let ch = index_to_letter(x);
            word.set(p - lo, ch);
            let ghost cl2 = cl.update(p as int, Some(TileLetter::Char(ch)));
            assert(cl2.len() == cl.len());
            assert(letters(cl2, lo as int, hi as int).len() == word@.len());
            assert forall|t: int| 0 <= t < word@.len() implies word@[t] == letters(
                cl2,
                lo as int,
                hi as int,
            )[t] by {
                if t + lo != p {
                    assert(filled(cl, t + lo));
                    assert(cl2[t + lo] == cl[t + lo]);
                    assert(word@[t + lo - lo] == cl[t + lo]->0.letter());
                }
            }
            assert(word@ =~= letters(cl2, lo as int, hi as int));
            let ghost before = set@;
            let found = graph.has_word(&word, p - lo + 1);
            if found {
                set.insert(ch);
            }
            proof {
                assert forall|c: char| #[trigger]
                    set@.contains(c) <==> is_letter(c) && letter_index(c) < x + 1
                        && graph@.contains(
                        letters(cl.update(p as int, Some(TileLetter::Char(c))), lo as int, hi as int),
                    ) by {
                    if c == ch {
                        assert(!before.contains(c));
                    } else {
                        assert(set@.contains(c) == before.contains(c));
                        assert(is_letter(c) ==> letter_index(c) != x);
                    }
                }
            }
            x += 1;
        }
        proof {
            let want = Set::new(
                |ch: char|
                    is_letter(ch) && graph@.contains(
                        g.cross_word(dir, row as int, col as int, TileLetter::Char(ch)),
                    ),
            );
            assert forall|ch: char| set@.contains(ch) == want.contains(ch) by {
                if is_letter(ch) {
                    let cl2 = cl.update(p as int, Some(TileLetter::Char(ch)));
                    lemma_run_before_frame(cl, cl2, p as int);
                    lemma_run_after_frame(cl, cl2, p as int);
                }
            }
            assert(set@ =~= want);
            assert(g.has_cross(dir, row as int, col as int));
            self.lemma_tile(row as int, col as int);
        }
        Some(set)
    }

    /// Computes the cross-sets of every cell for both directions against the
    /// dictionary of `graph`.
    pub fn compute_cross_sets(&mut self, graph: &Graph)
        requires
            old(self).wf(),
            graph.wf(),
        ensures
            final(self).wf(),
            final(self)@ == old(self)@,
            final(self).dictionary() == graph@,
    {
        self.refresh_cross_sets(graph);
    }

    /// Computes the cross-sets of every cell against the dictionary of
    /// `graph`, whatever the stored ones were.
    fn refresh_cross_sets(&mut self, graph: &Graph)
        requires
            old(self).sized(),
            old(self).anchors_ok(),
            graph.wf(),
        ensures
            final(self).wf(),
            final(self)@ == old(self)@,
            final(self).dictionary() == graph@,
    {
        let ghost g = self@;
        self.dict = Ghost(graph@);
        proof {
            self.lemma_anchors_kept(old(self));
        }
        let mut row: usize = 0;
        while row < self.rows
            invariant
                self.sized(),
                self.anchors_ok(),
                graph.wf(),
                self@ == g,
                self.dict@ == graph@,
                row <= self.rows,
                forall|d: Direction, r: int, c: int|
                    0 <= r < row && 0 <= c < self.cols ==> #[trigger] self.cross_ok_at(
                        graph@,
                        d,
                        r,
                        c,
                    ),
            decreases self.rows - row,
        {
            let mut col: usize = 0;
            while col < self.cols
                invariant
                    self.sized(),
                    self.anchors_ok(),
                    graph.wf(),
                    self@ == g,
                    self.dict@ == graph@,
                    row < self.rows,
                    col <= self.cols,
                    forall|d: Direction, r: int, c: int|
                        0 <= r < row && 0 <= c < self.cols ==> #[trigger] self.cross_ok_at(
                            graph@,
                            d,
                            r,
                            c,
                        ),
                    forall|d: Direction, c: int|
                        0 <= c < col ==> #[trigger] self.cross_ok_at(graph@, d, row as int, c),
                decreases self.cols - col,
            {
                let h = self.walk_tile(graph, row, col, Direction::Horizontal);
                let v = self.walk_tile(graph, row, col, Direction::Vertical);
                let i = self.get_index(row, col);
                let ghost before = *self;
                self.cross_h[i] = h;
                self.cross_v[i] = v;
                proof {
                    self.lemma_anchors_kept(&before);
                    assert forall|d: Direction, r: int, c: int|
                        0 <= r < self.rows && 0 <= c < self.cols && before.cross_ok_at(
                            graph@,
                            d,
                            r,
                            c,
                        ) && (r != row || c != col) implies #[trigger] self.cross_ok_at(
                        graph@,
                        d,
                        r,
                        c,
                    ) by {
                        lemma_cell_index(self.rows as int, self.cols as int, r, c);
                        lemma_cell_index(
                            self.rows as int,
                            self.cols as int,
                            row as int,
                            col as int,
                        );
                    }
                    assert(self.cross_ok_at(graph@, Direction::Horizontal, row as int, col as int));
                    assert(self.cross_ok_at(graph@, Direction::Vertical, row as int, col as int));
                    assert forall|d: Direction, c: int| 0 <= c < col + 1 implies #[trigger] self.cross_ok_at(
                        graph@,
                        d,
                        row as int,
                        c,
                    ) by {
                        if c < col {
                            assert(before.cross_ok_at(graph@, d, row as int, c));
                        } else {
                            match d {
                                Direction::Horizontal => {},
                                Direction::Vertical => {},
                            }
                        }
                    }
                    assert forall|d: Direction, r: int, c: int|
                        0 <= r < row && 0 <= c < self.cols implies #[trigger] self.cross_ok_at(
                        graph@,
                        d,
                        r,
                        c,
                    ) by {
                        assert(before.cross_ok_at(graph@, d, r, c));
                    }
                }
                col += 1;
            }
            row += 1;
        }
    }
}

/// Whether the cell `a` comes before the cell `b`, row by row.
pub open spec fn cell_before(a: (usize, usize), b: (usize, usize)) -> bool {
    a.0 < b.0 || (a.0 == b.0 && a.1 < b.1)
}

impl Board {
    /// Whether the board has cell `(r, c)` marked as an anchor.
    pub closed spec fn marks_anchor(&self, r: int, c: int) -> bool {
        0 <= r < self.rows && 0 <= c < self.cols && self.stored_anchor(r, c)
    }

    /// The cross-set that the board keeps for cell `(r, c)` and plays in direction `d`.
    pub closed spec fn kept_cross_set(&self, d: Direction, r: int, c: int) -> Option<Set<char>> {
        set_of(self.stored_cross(d, r, c))
    }

    /// The anchors that the board has marked are the anchors of its grid:
    /// the empty cells with a tile on one of their four neighbours, and the
    /// centre exactly where the board holds no tile.
    pub proof fn law_anchor_invariant(&self, r: int, c: int)
        requires
            self.wf(),
        ensures
            self.marks_anchor(r, c) == self@.is_anchor(r, c),
    {
        if 0 <= r < self.rows && 0 <= c < self.cols {
            assert(self.stored_anchor(r, c) == self@.is_anchor(r, c));
        }
    }

    /// The cross-sets that the board keeps are the cross-sets of its grid
    /// with its dictionary.
    pub proof fn law_cross_set_invariant(&self, d: Direction, r: int, c: int)
        requires
            self.wf(),
            self@.in_bounds(r, c),
        ensures
            self.kept_cross_set(d, r, c) == self@.cross_set(self.dictionary(), d, r, c),
    {
        assert(self.cross_ok_at(self.dict@, d, r, c));
    }

    /// The anchors, row by row.
    pub fn anchor_cells(&self) -> (cells: Vec<(usize, usize)>)
        requires
            self.wf(),
        ensures
            forall|i: int|
                0 <= i < cells@.len() ==> self@.is_anchor((#[trigger] cells@[i]).0 as int, cells@[i].1 as int),
            forall|r: int, c: int|
                #[trigger] self@.is_anchor(r, c) ==> cells@.contains((r as usize, c as usize)),
            forall|i: int, j: int|
                0 <= i < j < cells@.len() ==> cell_before(#[trigger] cells@[i], #[trigger] cells@[j]),
    {
        let mut cells: Vec<(usize, usize)> = Vec::new();
        let mut row: usize = 0;
        while row < self.rows
            invariant
                self.wf(),
                row <= self.rows,
                forall|i: int|
                    0 <= i < cells@.len() ==> self@.is_anchor(
                        (#[trigger] cells@[i]).0 as int,
                        cells@[i].1 as int,
                    ),
                forall|r: int, c: int|
                    0 <= r < row && #[trigger] self@.is_anchor(r, c) ==> cells@.contains(
                        (r as usize, c as usize),
                    ),
                forall|i: int| 0 <= i < cells@.len() ==> (#[trigger] cells@[i]).0 < row,
                forall|i: int, j: int|
                    0 <= i < j < cells@.len() ==> cell_before(#[trigger] cells@[i], #[trigger] cells@[j]),
            decreases self.rows - row,
        {
            let mut col: usize = 0;
            while col < self.cols
                invariant
                    self.wf(),
                    row < self.rows,
                    col <= self.cols,
                    forall|i: int|
                        0 <= i < cells@.len() ==> self@.is_anchor(
                            (#[trigger] cells@[i]).0 as int,
                            cells@[i].1 as int,
                        ),
                    forall|r: int, c: int|
                        0 <= r < row && #[trigger] self@.is_anchor(r, c) ==> cells@.contains(
                            (r as usize, c as usize),
                        ),
                    forall|c: int|
                        0 <= c < col && #[trigger] self@.is_anchor(row as int, c) ==> cells@.contains(
                            (row, c as usize),
                        ),
                    forall|i: int|
                        0 <= i < cells@.len() ==> (#[trigger] cells@[i]).0 < row || (cells@[i].0 == row
                            && cells@[i].1 < col),
                    forall|i: int, j: int|
                        0 <= i < j < cells@.len() ==> cell_before(#[trigger] cells@[i], #[trigger] cells@[j]),
                decreases self.cols - col,
            {
                let ghost before = cells@;
                if self.is_anchor(row, col) {
                    cells.push((row, col));
                    assert(cells@[cells@.len() - 1] == (row, col));
                }
                proof {
                    assert forall|x: (usize, usize)| before.contains(x) implies cells@.contains(x) by {
                        let i = choose|i: int| 0 <= i < before.len() && before[i] == x;
                        assert(cells@[i] == x);
                    }
                }
                col += 1;
            }
            row += 1;
        }
        cells
    }

    /// Takes over the dictionary of `graph`: computes the cross-sets
    /// against it, unless the board holds no tile, where they depend on no
    /// dictionary.
    pub fn set_dictionary(&mut self, graph: &Graph)
        requires
            old(self).wf(),
            graph.wf(),
        ensures
            final(self).wf(),
            final(self)@ == old(self)@,
            final(self).dictionary() == graph@,
    {
        if self.bare {
            self.dict = Ghost(graph@);
            proof {
                self.lemma_anchors_kept(old(self));
                let g = self@;
                assert forall|d: Direction, r: int, c: int|
                    0 <= r < self.rows && 0 <= c < self.cols implies #[trigger] self.cross_ok_at(
                    self.dict@,
                    d,
                    r,
                    c,
                ) by {
                    assert(old(self).cross_ok_at(old(self).dict@, d, r, c));
                    assert(!g.has_cross(d, r, c));
                }
            }
        } else {
            self.refresh_cross_sets(graph);
        }
    }
}

/// Whether one of the first `n` placements of `ps` lies next to cell `(r, c)`.
pub open spec fn near(ps: Seq<TilePlacement>, n: int, r: int, c: int) -> bool {
    exists|t: int| 0 <= t < n && adjacent(#[trigger] ps[t], r, c)
}

/// Whether one of the first `n` placements of `ps` lies on cell `(r, c)`.
pub open spec fn hit(ps: Seq<TilePlacement>, n: int, r: int, c: int) -> bool {
    exists|t: int| 0 <= t < n && at_cell(#[trigger] ps[t], r, c)
}

impl Board {
    /// Lays the tiles of `ps` on their squares.
    fn lay_tiles(&mut self, ps: &Vec<TilePlacement>)
        requires
            old(self).sized(),
            all_in_bounds(old(self)@, ps@),
        ensures
            final(self).sized(),
            final(self)@ == old(self)@.place(ps@),
            final(self).rows == old(self).rows,
            final(self).cols == old(self).cols,
            final(self).anchors@ == old(self).anchors@,
            final(self).same_cross(old(self)),
    {
        let ghost g0 = self@;
        let mut i: usize = 0;
        assert(ps@.take(0) =~= Seq::<TilePlacement>::empty());
        while i < ps.len()
            invariant
                i <= ps.len(),
                self.sized(),
                all_in_bounds(g0, ps@),
                self@ == g0.place(ps@.take(i as int)),
                self.rows == old(self).rows,
                self.cols == old(self).cols,
                g0.rows == self.rows,
                g0.cols == self.cols,
                self.anchors@ == old(self).anchors@,
                self.same_cross(old(self)),
            decreases ps.len() - i,
        {
            let p = ps[i];
            assert(g0.in_bounds(ps@[i as int].row as int, ps@[i as int].col as int));
            let idx = self.get_index(p.row, p.col);
            let ghost before = *self;
            self.squares[idx] = Some(p.letter);
            self.bare = false;
            proof {
                let want = before@.put(p);
                assert forall|r: int, c: int| #[trigger]
                    self.square(r, c) == (if r == p.row && c == p.col {
                        Some(p.letter)
                    } else {
                        before.square(r, c)
                    }) by {
                    if 0 <= r < self.rows && 0 <= c < self.cols {
                        lemma_cell_index(self.rows as int, self.cols as int, r, c);
                        lemma_cell_index(self.rows as int, self.cols as int, p.row as int, p.col as int);
                    }
                }
                assert forall|rc: (int, int)| self@.tiles.dom().contains(rc) == want.tiles.dom().contains(
                    rc,
                ) by {
                    assert(self.square(rc.0, rc.1) is Some == self@.tiles.dom().contains(rc));
                    assert(before.square(rc.0, rc.1) is Some == before@.tiles.dom().contains(rc));
                    if rc.0 == p.row && rc.1 == p.col {
                        assert(rc == (p.row as int, p.col as int));
                    }
                }
                assert forall|rc: (int, int)| self@.tiles.dom().contains(rc) implies self@.tiles[rc]
                    == want.tiles[rc] by {
                    assert(self@.tiles[rc] == self.square(rc.0, rc.1)->0);
                    if rc.0 == p.row && rc.1 == p.col {
                        assert(rc == (p.row as int, p.col as int));
                    } else {
                        assert(before@.tiles[rc] == before.square(rc.0, rc.1)->0);
                    }
                }
                assert(self@.tiles =~= want.tiles);
                assert(self@ == want);
                assert(ps@.take(i + 1).drop_last() =~= ps@.take(i as int));
                assert(ps@.take(i + 1).last() == p);
                assert(self@.occupied(p.row as int, p.col as int));
            }
            i += 1;
        }
        assert(ps@.take(ps.len() as int) =~= ps@);
    }

    /// Marks the square at `(row, col)` as an anchor where it holds no tile.
    fn mark_candidate(&mut self, row: usize, col: usize)
        requires
            old(self).sized(),
            row < old(self).rows,
            col < old(self).cols,
        ensures
            final(self).sized(),
            final(self)@ == old(self)@,
            final(self).rows == old(self).rows,
            final(self).cols == old(self).cols,
            final(self).same_cross(old(self)),
            forall|r: int, c: int|
                0 <= r < old(self).rows && 0 <= c < old(self).cols ==> #[trigger] final(self).stored_anchor(r, c)
                    == (old(self).stored_anchor(r, c) || (r == row && c == col && !old(self)@.occupied(r, c))),
    {
        let empty = self.square_at(row, col).is_none();
        let i = self.get_index(row, col);
        if empty {
            self.anchors[i] = true;
        }
        proof {
            self.lemma_same_grid(old(self));
            assert forall|r: int, c: int|
                0 <= r < old(self).rows && 0 <= c < old(self).cols implies #[trigger] self.stored_anchor(r, c)
                == (old(self).stored_anchor(r, c) || (r == row && c == col && !old(self)@.occupied(
                r,
                c,
            ))) by {
                lemma_cell_index(self.rows as int, self.cols as int, r, c);
                lemma_cell_index(self.rows as int, self.cols as int, row as int, col as int);
            }
        }
    }

    /// Takes the anchor mark off the square at `(row, col)`.
    fn drop_candidate(&mut self, row: usize, col: usize)
        requires
            old(self).sized(),
            row < old(self).rows,
            col < old(self).cols,
        ensures
            final(self).sized(),
            final(self)@ == old(self)@,
            final(self).rows == old(self).rows,
            final(self).cols == old(self).cols,
            final(self).same_cross(old(self)),
            forall|r: int, c: int|
                0 <= r < old(self).rows && 0 <= c < old(self).cols ==> #[trigger] final(self).stored_anchor(r, c)
                    == (old(self).stored_anchor(r, c) && !(r == row && c == col)),
    {
        let i = self.get_index(row, col);
        self.anchors[i] = false;
        proof {
            self.lemma_same_grid(old(self));
            assert forall|r: int, c: int|
                0 <= r < old(self).rows && 0 <= c < old(self).cols implies #[trigger] self.stored_anchor(r, c)
                == (old(self).stored_anchor(r, c) && !(r == row && c == col)) by {
                lemma_cell_index(self.rows as int, self.cols as int, r, c);
                lemma_cell_index(self.rows as int, self.cols as int, row as int, col as int);
            }
        }
    }

    /// Brings the anchors up to date after the tiles of `ps` were laid on
    /// the grid `before`: every empty neighbour of a new tile becomes an
    /// anchor, and the cells that were taken stop being anchors.
    fn compute_candidates(&mut self, ps: &Vec<TilePlacement>, Ghost(before): Ghost<Grid>)
        requires
            old(self).sized(),
            before.wf(),
            before.rows == old(self).rows,
            before.cols == old(self).cols,
            all_in_bounds(before, ps@),
            old(self)@ == before.place(ps@),
            ps.len() > 0,
            before.is_blank() ==> covers_centre(before, ps@),
            forall|r: int, c: int|
                0 <= r < old(self).rows && 0 <= c < old(self).cols ==> #[trigger] old(self).stored_anchor(r, c)
                    == before.is_anchor(r, c),
        ensures
            final(self).sized(),
            final(self)@ == old(self)@,
            final(self).anchors_ok(),
            final(self).same_cross(old(self)),
            final(self).rows == old(self).rows,
            final(self).cols == old(self).cols,
    {
        let ghost g = self@;
        let n = ps.len();
        let mut i: usize = 0;
        while i < n
            invariant
                i <= n,
                n == ps.len(),
                self.sized(),
                self@ == g,
                self.rows == old(self).rows,
                self.cols == old(self).cols,
                self.same_cross(old(self)),
                before.rows == self.rows,
                before.cols == self.cols,
                all_in_bounds(before, ps@),
                forall|r: int, c: int|
                    0 <= r < self.rows && 0 <= c < self.cols ==> #[trigger] self.stored_anchor(r, c) == (
                    before.is_anchor(r, c) || (!g.occupied(r, c) && near(ps@, i as int, r, c))),
            decreases n - i,
        {
            let row = ps[i].row;
            let col = ps[i].col;
            assert(before.in_bounds(ps@[i as int].row as int, ps@[i as int].col as int));
            let ghost s0 = *self;
            // check the squares around the placement: those without a tile
            // can be anchors for the next move
            if row > 0 {
                self.mark_candidate(row - 1, col);
            }
            let ghost s1 = *self;
            if row < self.rows - 1 {
                self.mark_candidate(row + 1, col);
            }
            let ghost s2 = *self;
            if col > 0 {
                self.mark_candidate(row, col - 1);
            }
            let ghost s3 = *self;
            if col < self.cols - 1 {
                self.mark_candidate(row, col + 1);
            }
            proof {
                assert forall|r: int, c: int|
                    0 <= r < self.rows && 0 <= c < self.cols implies #[trigger] self.stored_anchor(r, c)
                    == (before.is_anchor(r, c) || (!g.occupied(r, c) && near(ps@, i + 1, r, c))) by {
                    let _ = s0.stored_anchor(r, c);
                    let _ = s1.stored_anchor(r, c);
                    let _ = s2.stored_anchor(r, c);
                    let _ = s3.stored_anchor(r, c);
                    assert(self.stored_anchor(r, c) == (s0.stored_anchor(r, c) || (!g.occupied(r, c)
                        && adjacent(ps@[i as int], r, c))));
                    if near(ps@, i as int, r, c) {
                        let t = choose|t: int| 0 <= t < i && adjacent(#[trigger] ps@[t], r, c);
                        assert(0 <= t < i + 1 && adjacent(ps@[t], r, c));
                    }
                    if adjacent(ps@[i as int], r, c) {
                        assert(near(ps@, i + 1, r, c));
                    }
                    if near(ps@, i + 1, r, c) {
                        let t = choose|t: int| 0 <= t < i + 1 && adjacent(#[trigger] ps@[t], r, c);
                        if t < i {
                            assert(near(ps@, i as int, r, c));
                        }
                    }
                }
            }
            i += 1;
        }
        let mut j: usize = 0;
        while j < n
            invariant
                j <= n,
                n == ps.len(),
                self.sized(),
                self@ == g,
                self.rows == old(self).rows,
                self.cols == old(self).cols,
                self.same_cross(old(self)),
                before.rows == self.rows,
                before.cols == self.cols,
                all_in_bounds(before, ps@),
                forall|r: int, c: int|
                    0 <= r < self.rows && 0 <= c < self.cols ==> #[trigger] self.stored_anchor(r, c) == ((
                    before.is_anchor(r, c) || (!g.occupied(r, c) && near(ps@, n as int, r, c))) && !hit(
                        ps@,
                        j as int,
                        r,
                        c,
                    )),
            decreases n - j,
        {
            assert(before.in_bounds(ps@[j as int].row as int, ps@[j as int].col as int));
            let ghost s0 = *self;
            self.drop_candidate(ps[j].row, ps[j].col);
            proof {
                assert forall|r: int, c: int|
                    0 <= r < self.rows && 0 <= c < self.cols implies #[trigger] self.stored_anchor(r, c)
                    == ((before.is_anchor(r, c) || (!g.occupied(r, c) && near(ps@, n as int, r, c)))
                    && !hit(ps@, j + 1, r, c)) by {
                    let _ = s0.stored_anchor(r, c);
                    if hit(ps@, j as int, r, c) {
                        let t = choose|t: int| 0 <= t < j && at_cell(#[trigger] ps@[t], r, c);
                        assert(0 <= t < j + 1 && at_cell(ps@[t], r, c));
                    }
                    if at_cell(ps@[j as int], r, c) {
                        assert(hit(ps@, j + 1, r, c));
                    }
                    if hit(ps@, j + 1, r, c) {
                        let t = choose|t: int| 0 <= t < j + 1 && at_cell(#[trigger] ps@[t], r, c);
                        if t < j {
                            assert(hit(ps@, j as int, r, c));
                        }
                    }
                }
            }
            j += 1;
        }
        proof {
            assert forall|r: int, c: int|
                0 <= r < self.rows && 0 <= c < self.cols implies #[trigger] self.stored_anchor(r, c)
                == self@.is_anchor(r, c) by {
                lemma_anchor_after(before, ps@, r, c);
            }
        }
    }

    /// Computes anew the cross-sets of the cells of column `col` for plays
    /// along the rows.
    fn update_column(&mut self, graph: &Graph, col: usize)
        requires
            old(self).sized(),
            old(self).anchors_ok(),
            graph.wf(),
            col < old(self).cols,
        ensures
            final(self).sized(),
            final(self).anchors_ok(),
            final(self)@ == old(self)@,
            final(self).rows == old(self).rows,
            final(self).cols == old(self).cols,
            final(self).dict@ == old(self).dict@,
            forall|r: int|
                0 <= r < old(self).rows ==> #[trigger] final(self).cross_ok_at(
                    graph@,
                    Direction::Horizontal,
                    r,
                    col as int,
                ),
            forall|d: Direction, r: int, c: int|
                0 <= r < old(self).rows && 0 <= c < old(self).cols && !(d == Direction::Horizontal && c == col)
                    ==> #[trigger] final(self).stored_cross(d, r, c) == old(self).stored_cross(d, r, c),
    {
        let ghost g = self@;
        let mut row: usize = 0;
        while row < self.rows
            invariant
                self.sized(),
                self.anchors_ok(),
                graph.wf(),
                self@ == g,
                self.rows == old(self).rows,
                self.cols == old(self).cols,
                self.dict@ == old(self).dict@,
                col < self.cols,
                row <= self.rows,
                forall|r: int|
                    0 <= r < row ==> #[trigger] self.cross_ok_at(graph@, Direction::Horizontal, r, col as int),
                forall|d: Direction, r: int, c: int|
                    0 <= r < self.rows && 0 <= c < self.cols && !(d == Direction::Horizontal && c == col)
                        ==> #[trigger] self.stored_cross(d, r, c) == old(self).stored_cross(d, r, c),
            decreases self.rows - row,
        {
            let h = self.walk_tile(graph, row, col, Direction::Horizontal);
            let i = self.get_index(row, col);
            let ghost before = *self;
            self.cross_h[i] = h;
            proof {
                self.lemma_anchors_kept(&before);
                lemma_cell_index(self.rows as int, self.cols as int, row as int, col as int);
                assert forall|r: int| 0 <= r < row + 1 implies #[trigger] self.cross_ok_at(
                    graph@,
                    Direction::Horizontal,
                    r,
                    col as int,
                ) by {
                    lemma_cell_index(self.rows as int, self.cols as int, r, col as int);
                    if r < row {
                        assert(before.cross_ok_at(graph@, Direction::Horizontal, r, col as int));
                    }
                }
                assert forall|d: Direction, r: int, c: int|
                    0 <= r < self.rows && 0 <= c < self.cols && !(d == Direction::Horizontal && c
                        == col) implies #[trigger] self.stored_cross(d, r, c) == old(self).stored_cross(
                    d,
                    r,
                    c,
                ) by {
                    lemma_cell_index(self.rows as int, self.cols as int, r, c);
                    assert(before.stored_cross(d, r, c) == old(self).stored_cross(d, r, c));
                }
            }
            row += 1;
        }
    }

    /// Computes anew the cross-sets of the cells of row `row` for plays down
    /// the columns.
    fn update_row(&mut self, graph: &Graph, row: usize)
        requires
            old(self).sized(),
            old(self).anchors_ok(),
            graph.wf(),
            row < old(self).rows,
        ensures
            final(self).sized(),
            final(self).anchors_ok(),
            final(self)@ == old(self)@,
            final(self).rows == old(self).rows,
            final(self).cols == old(self).cols,
            final(self).dict@ == old(self).dict@,
            forall|c: int|
                0 <= c < old(self).cols ==> #[trigger] final(self).cross_ok_at(
                    graph@,
                    Direction::Vertical,
                    row as int,
                    c,
                ),
            forall|d: Direction, r: int, c: int|
                0 <= r < old(self).rows && 0 <= c < old(self).cols && !(d == Direction::Vertical && r == row)
                    ==> #[trigger] final(self).stored_cross(d, r, c) == old(self).stored_cross(d, r, c),
    {
        let ghost g = self@;
        let mut col: usize = 0;
        while col < self.cols
            invariant
                self.sized(),
                self.anchors_ok(),
                graph.wf(),
                self@ == g,
                self.rows == old(self).rows,
                self.cols == old(self).cols,
                self.dict@ == old(self).dict@,
                row < self.rows,
                col <= self.cols,
                forall|c: int|
                    0 <= c < col ==> #[trigger] self.cross_ok_at(graph@, Direction::Vertical, row as int, c),
                forall|d: Direction, r: int, c: int|
                    0 <= r < self.rows && 0 <= c < self.cols && !(d == Direction::Vertical && r == row)
                        ==> #[trigger] self.stored_cross(d, r, c) == old(self).stored_cross(d, r, c),
            decreases self.cols - col,
        {
            let v = self.walk_tile(graph, row, col, Direction::Vertical);
            let i = self.get_index(row, col);
            let ghost before = *self;
            self.cross_v[i] = v;
            proof {
                self.lemma_anchors_kept(&before);
                lemma_cell_index(self.rows as int, self.cols as int, row as int, col as int);
                assert forall|c: int| 0 <= c < col + 1 implies #[trigger] self.cross_ok_at(
                    graph@,
                    Direction::Vertical,
                    row as int,
                    c,
                ) by {
                    lemma_cell_index(self.rows as int, self.cols as int, row as int, c);
                    if c < col {
                        assert(before.cross_ok_at(graph@, Direction::Vertical, row as int, c));
                    }
                }
                assert forall|d: Direction, r: int, c: int|
                    0 <= r < self.rows && 0 <= c < self.cols && !(d == Direction::Vertical && r
                        == row) implies #[trigger] self.stored_cross(d, r, c) == old(self).stored_cross(
                    d,
                    r,
                    c,
                ) by {
                    lemma_cell_index(self.rows as int, self.cols as int, r, c);
                    assert(before.stored_cross(d, r, c) == old(self).stored_cross(d, r, c));
                }
            }
            col += 1;
        }
    }

    /// Brings the cross-sets up to date after the tiles of `ps` were laid
    /// on the grid `before`: only the cells in the rows and columns of the
    /// new tiles can have other cross-sets than before, and theirs are
    /// computed anew, for plays along the rows in the columns of the tiles
    /// and for plays down the columns in their rows.
    fn update_cross_sets(&mut self, graph: &Graph, ps: &Vec<TilePlacement>, Ghost(before): Ghost<Grid>)
        requires
            old(self).sized(),
            old(self).anchors_ok(),
            graph.wf(),
            before.rows == old(self).rows,
            before.cols == old(self).cols,
            all_in_bounds(before, ps@),
            old(self)@ == before.place(ps@),
            ps.len() > 0,
            before.is_blank() ==> covers_centre(before, ps@),
            forall|d: Direction, r: int, c: int|
                0 <= r < old(self).rows && 0 <= c < old(self).cols ==> set_of(
                    #[trigger] old(self).stored_cross(d, r, c),
                ) == before.cross_set(graph@, d, r, c),
        ensures
            final(self).wf(),
            final(self)@ == old(self)@,
            final(self).dictionary() == graph@,
    {
        let ghost g = self@;
        self.dict = Ghost(graph@);
        proof {
            self.lemma_anchors_kept(old(self));
            assert forall|d: Direction, r: int, c: int|
                0 <= r < self.rows && 0 <= c < self.cols implies set_of(#[trigger] self.stored_cross(d, r, c))
                == before.cross_set(graph@, d, r, c) by {
                assert(self.stored_cross(d, r, c) == old(self).stored_cross(d, r, c));
            }
        }
        let mut i: usize = 0;
        while i < ps.len()
            invariant
                i <= ps.len(),
                self.sized(),
                self.anchors_ok(),
                graph.wf(),
                self@ == g,
                self.dict@ == graph@,
                self.rows == old(self).rows,
                self.cols == old(self).cols,
                before.rows == self.rows,
                before.cols == self.cols,
                all_in_bounds(before, ps@),
                forall|d: Direction, r: int, c: int|
                    0 <= r < self.rows && 0 <= c < self.cols ==> (if touched(ps@, i as int, d, r, c) {
                        self.cross_ok_at(graph@, d, r, c)
                    } else {
                        set_of(#[trigger] self.stored_cross(d, r, c)) == before.cross_set(graph@, d, r, c)
                    }),
            decreases ps.len() - i,
        {
            let p = ps[i];
            assert(before.in_bounds(ps@[i as int].row as int, ps@[i as int].col as int));
            let ghost s0 = *self;
            self.update_column(graph, p.col);
            let ghost s1 = *self;
            self.update_row(graph, p.row);
            proof {
                assert forall|d: Direction, r: int, c: int|
                    0 <= r < self.rows && 0 <= c < self.cols implies (if touched(ps@, i + 1, d, r, c) {
                    self.cross_ok_at(graph@, d, r, c)
                } else {
                    set_of(#[trigger] self.stored_cross(d, r, c)) == before.cross_set(graph@, d, r, c)
                }) by {
                    let here = pos_of(d, ps@[i as int]) == pos_of_cell(d, r, c);
                    if touched(ps@, i + 1, d, r, c) {
                        let t = choose|t: int| 0 <= t < i + 1 && pos_of(d, #[trigger] ps@[t]) == pos_of_cell(d, r, c);
                        if !here {
                            assert(t < i);
                            assert(touched(ps@, i as int, d, r, c));
                        }
                    }
                    if touched(ps@, i as int, d, r, c) {
                        let t = choose|t: int| 0 <= t < i && pos_of(d, #[trigger] ps@[t]) == pos_of_cell(d, r, c);
                        assert(0 <= t < i + 1 && pos_of(d, ps@[t]) == pos_of_cell(d, r, c));
                    }
                    if here {
                        assert(0 <= i < i + 1 && pos_of(d, ps@[i as int]) == pos_of_cell(d, r, c));
                        match d {
                            Direction::Horizontal => {
                                assert(s1.cross_ok_at(graph@, Direction::Horizontal, r, p.col as int));
                                assert(self.stored_cross(d, r, c) == s1.stored_cross(d, r, c));
                            },
                            Direction::Vertical => {
                                assert(self.cross_ok_at(graph@, Direction::Vertical, p.row as int, c));
                            },
                        }
                    } else {
                        assert(s1.stored_cross(d, r, c) == s0.stored_cross(d, r, c));
                        assert(self.stored_cross(d, r, c) == s1.stored_cross(d, r, c));
                        if touched(ps@, i as int, d, r, c) {
                            assert(s0.cross_ok_at(graph@, d, r, c));
                        }
                    }
                }
            }
            i += 1;
        }
        proof {
            assert forall|d: Direction, r: int, c: int|
                0 <= r < self.rows && 0 <= c < self.cols implies #[trigger] self.cross_ok_at(
                self.dict@,
                d,
                r,
                c,
            ) by {
                if !touched(ps@, ps@.len() as int, d, r, c) {
                    lemma_cross_set_untouched(before, ps@, graph@, d, r, c);
                    assert(set_of(self.stored_cross(d, r, c)) == before.cross_set(graph@, d, r, c));
                }
            }
        }
    }

    /// Lays a move on the board.  The move is first held against the rules
    /// (see `placement_error`); where it breaks one, the board stays as it
    /// was.  Otherwise the tiles are laid, the anchors brought up to date,
    /// and the cross-sets of the cells in the rows and columns of the new
    /// tiles computed anew.  The cross-sets that the board keeps must be
    /// those for the dictionary of `graph`, unless the board holds no tile.
    pub fn place_tiles(&mut self, graph: &Graph, placements: &Vec<TilePlacement>) -> (r: Result<
        (),
        SolverError,
    >)
        requires
            old(self).wf(),
            graph.wf(),
            old(self)@.is_blank() || old(self).dictionary() == graph@,
        ensures
            match r {
                Ok(()) => {
                    &&& placement_error(old(self)@, placements@) is None
                    &&& final(self)@ == old(self)@.place(placements@)
                    &&& final(self).wf()
                    &&& final(self).dictionary() == graph@
                },
                Err(e) => placement_error(old(self)@, placements@) == Some(e) && *final(self) == *old(
                    self,
                ),
            },
    {
        match check_move(self, placements) {
            Err(e) => {
                return Err(e);
            },
            Ok(()) => {},
        }
        let ghost before = self@;
        self.lay_tiles(placements);
        proof {
            if !before.is_blank() {
                let i = choose|i: int|
                    0 <= i < placements@.len() && before.has_neighbour(
                        (#[trigger] placements@[i]).row as int,
                        placements@[i].col as int,
                    );
            }
            assert forall|r: int, c: int|
                0 <= r < self.rows && 0 <= c < self.cols implies #[trigger] self.stored_anchor(r, c)
                == before.is_anchor(r, c) by {
                assert(old(self).stored_anchor(r, c) == before.is_anchor(r, c));
            }
        }
        self.compute_candidates(placements, Ghost(before));
        proof {
            assert forall|d: Direction, r: int, c: int|
                0 <= r < self.rows && 0 <= c < self.cols implies set_of(#[trigger] self.stored_cross(d, r, c))
                == before.cross_set(graph@, d, r, c) by {
                assert(self.stored_cross(d, r, c) == old(self).stored_cross(d, r, c));
                assert(old(self).cross_ok_at(old(self).dict@, d, r, c));
                if before.is_blank() {
                    lemma_blank_cross_set(before, old(self).dict@, graph@, d, r, c);
                }
            }
        }
        self.update_cross_sets(graph, placements, Ghost(before));
        Ok(())
    }
}

/// The anchors after a move: the empty cells next to a tile are the cells,
/// still empty, that were anchors before or lie next to a new tile.
pub proof fn lemma_anchor_after(before: Grid, ps: Seq<TilePlacement>, r: int, c: int)
    requires
        before.wf(),
        all_in_bounds(before, ps),
        ps.len() > 0,
        before.is_blank() ==> covers_centre(before, ps),
        before.in_bounds(r, c),
    ensures
        before.place(ps).is_anchor(r, c) == ((before.is_anchor(r, c) || (!before.place(ps).occupied(
            r,
            c,
        ) && near(ps, ps.len() as int, r, c))) && !hit(ps, ps.len() as int, r, c)),
{
    let g = before.place(ps);
    let n = ps.len() as int;
    lemma_place_tile(before, ps, r, c);
    lemma_place_tile(before, ps, r - 1, c);
    lemma_place_tile(before, ps, r + 1, c);
    lemma_place_tile(before, ps, r, c - 1);
    lemma_place_tile(before, ps, r, c + 1);
    lemma_place_tile(before, ps, ps[0].row as int, ps[0].col as int);
    assert(at_cell(ps[0], ps[0].row as int, ps[0].col as int));
    assert(g.occupied(ps[0].row as int, ps[0].col as int));
    assert(!g.is_blank());
    if near(ps, n, r, c) {
        let t = choose|t: int| 0 <= t < n && adjacent(#[trigger] ps[t], r, c);
        let p = ps[t];
        assert(at_cell(p, p.row as int, p.col as int));
        assert(g.has_neighbour(r, c));
    }
    if g.has_neighbour(r, c) && !before.has_neighbour(r, c) {
        if g.occupied(r - 1, c) && !before.occupied(r - 1, c) {
            let t = choose|t: int| 0 <= t < n && at_cell(#[trigger] ps[t], r - 1, c);
            assert(adjacent(ps[t], r, c));
        } else if g.occupied(r + 1, c) && !before.occupied(r + 1, c) {
            let t = choose|t: int| 0 <= t < n && at_cell(#[trigger] ps[t], r + 1, c);
            assert(adjacent(ps[t], r, c));
        } else if g.occupied(r, c - 1) && !before.occupied(r, c - 1) {
            let t = choose|t: int| 0 <= t < n && at_cell(#[trigger] ps[t], r, c - 1);
            assert(adjacent(ps[t], r, c));
        } else {
            let t = choose|t: int| 0 <= t < n && at_cell(#[trigger] ps[t], r, c + 1);
            assert(adjacent(ps[t], r, c));
        }
        assert(near(ps, n, r, c));
    }
    if before.is_blank() && r == before.centre_row() && c == before.centre_col() {
        let t = choose|t: int| 0 <= t < n && at_cell(#[trigger] ps[t], r, c);
        assert(hit(ps, n, r, c));
    }
}

} // verus!
