//! The score of a play: the face values of the letters of the main word and
//! of every cross-word, with the premiums of the cells that the play covers,
//! and a bonus for a play that uses the whole rack.
//!
//! Scores saturate at `u32::MAX`.
use vstd::prelude::*;
use crate::board::{cell_index, Board};
use crate::grid::{
    all_in_bounds, all_on_empty, cross_pos, filled, lemma_run_after_is, lemma_run_before_is,
    line_of, pos_of, run_after, run_before, Grid, Line,
};
use crate::letters::{check_letter, is_letter, letter_index, letter_to_index};
use crate::plays::{ascending, lay, lemma_lay};
use crate::rules::{line_index, position};
use crate::tiles::{Direction, TileLetter, TilePlacement};

verus! {

/// What a cell adds to the score of the tile or of the word laid on it.
#[derive(Copy, Clone, Debug, PartialEq, Eq, Hash)]
pub enum Premium {
    Plain,
    DoubleLetter,
    TripleLetter,
    DoubleWord,
    TripleWord,
}

/// The scoring policy: the face value of each letter by its position in
/// the alphabet (0 where the table ends before the letter), the premium of
/// each cell in row-major order (plain where the table ends before the
/// cell), the bonus for a play of as many tiles as the threshold, and the
/// threshold (the size of the rack where none is given).
pub struct Scoring {
    pub letter_values: Vec<u8>,
    pub premiums: Vec<Premium>,
    pub bingo_bonus: u32,
    pub bingo_threshold: Option<usize>,
}

/// The bonus for a play that uses the whole rack, unless the policy says otherwise.
pub const BINGO_BONUS: u32 = 50;

/// The factor of a premium for the tile laid on its cell.
pub open spec fn letter_factor(p: Premium) -> int {
    match p {
        Premium::DoubleLetter => 2,
        Premium::TripleLetter => 3,
        _ => 1,
    }
}

/// The factor of a premium for the words through the tile laid on its cell.
pub open spec fn word_factor(p: Premium) -> int {
    match p {
        Premium::DoubleWord => 2,
        Premium::TripleWord => 3,
        _ => 1,
    }
}

/// `x`, or `u32::MAX` where `x` is larger.
pub open spec fn clamp(x: int) -> u32 {
    if x >= u32::MAX {
        u32::MAX
    } else if x < 0 {
        0
    } else {
        x as u32
    }
}

/// Adds, stopping at `u32::MAX`.
pub fn add_capped(a: u32, b: u32) -> (r: u32)
    ensures
        r == clamp(a + b),
        forall|x: int, y: int|
            #![trigger clamp(x), clamp(y)]
            0 <= x && 0 <= y && a == clamp(x) && b == clamp(y) ==> r == clamp(x + y),
{
    let wide: u64 = a as u64 + b as u64;
    if wide >= u32::MAX as u64 {
        u32::MAX
    } else {
        wide as u32
    }
}

/// Multiplies, stopping at `u32::MAX`.
pub fn mul_capped(a: u32, b: u32) -> (r: u32)
    ensures
        r == clamp(a * b),
        forall|x: int, y: int|
            #![trigger clamp(x), clamp(y)]
            0 <= x && 0 <= y && a == clamp(x) && b == clamp(y) ==> r == clamp(x * y),
{
    assert(a * b <= u32::MAX * u32::MAX) by (nonlinear_arith)
        requires
            0 <= a <= u32::MAX,
            0 <= b <= u32::MAX,
    ;
    let wide: u64 = a as u64 * b as u64;
    proof {
        assert forall|x: int, y: int|
            #![trigger clamp(x), clamp(y)]
            0 <= x && 0 <= y && a == clamp(x) && b == clamp(y) implies clamp(a * b) == clamp(x * y) by {
            if x >= u32::MAX || y >= u32::MAX {
                if x == 0 || y == 0 {
                    assert(x * y == 0) by (nonlinear_arith)
                        requires
                            x == 0 || y == 0,
                    ;
                    assert(a * b == 0) by (nonlinear_arith)
                        requires
                            a == 0 || b == 0,
                    ;
                } else {
                    assert(x * y >= u32::MAX) by (nonlinear_arith)
                        requires
                            x >= 1,
                            y >= 1,
                            x >= u32::MAX || y >= u32::MAX,
                    ;
                    assert(a * b >= u32::MAX) by (nonlinear_arith)
                        requires
                            a >= 1,
                            b >= 1,
                            a >= u32::MAX || b >= u32::MAX,
                    ;
                }
            }
        }
    }
    if wide >= u32::MAX as u64 {
        u32::MAX
    } else {
        wide as u32
    }
}

impl Scoring {
    /// The face value of a tile: that of its letter, and 0 for a blank.
    pub open spec fn face(&self, t: TileLetter) -> int {
        match t {
            TileLetter::Blank(_) => 0,
            TileLetter::Char(c) => if is_letter(c) && letter_index(c) < self.letter_values@.len() {
                self.letter_values@[letter_index(c)] as int
            } else {
                0
            },
        }
    }

    /// The premium of cell `(r, c)` of a board with `cols` columns.
    pub open spec fn premium_at(&self, cols: int, r: int, c: int) -> Premium {
        if 0 <= r && 0 <= c < cols && cell_index(cols, r, c) < self.premiums@.len() {
            self.premiums@[cell_index(cols, r, c)]
        } else {
            Premium::Plain
        }
    }

    /// The premium of cell `k` of line `l` of direction `d`.
    pub open spec fn premium_on(&self, g: Grid, d: Direction, l: int, k: int) -> Premium {
        match d {
            Direction::Horizontal => self.premium_at(g.cols as int, l, k),
            Direction::Vertical => self.premium_at(g.cols as int, k, l),
        }
    }

    /// The points of cell `k` of line `l` of direction `d`, which holds
    /// `after[k]` after the play: the face value of the tile, times the
    /// letter factor of the cell where the tile is new.
    pub open spec fn points_at(&self, g: Grid, d: Direction, l: int, after: Line, k: int) -> int {
        match after[k] {
            Some(t) => self.face(t) * (if g.tile_on(d, l, k) is None {
                letter_factor(self.premium_on(g, d, l, k))
            } else {
                1
            }),
            None => 0,
        }
    }

    /// The points of the cells `lo..=hi` of the line.
    pub open spec fn points_sum(&self, g: Grid, d: Direction, l: int, after: Line, lo: int, hi: int) -> int
        decreases hi - lo + 1,
    {
        if hi < lo {
            0
        } else {
            self.points_sum(g, d, l, after, lo, hi - 1) + self.points_at(g, d, l, after, hi)
        }
    }

    /// The points of the word through cell `from` of line `l` of direction
    /// `d` once the tiles `m` are laid on the line.
    pub open spec fn span_points(
        &self,
        g: Grid,
        d: Direction,
        l: int,
        m: Seq<TilePlacement>,
        from: int,
    ) -> int {
        let after = lay(g.line(d, l), d, m);
        self.points_sum(g, d, l, after, from - run_before(after, from), from + run_after(after, from))
    }

    /// The product of the word factors of the cells that the play covers.
    pub open spec fn word_product(&self, g: Grid, m: Seq<TilePlacement>) -> int
        decreases m.len(),
    {
        if m.len() == 0 {
            1
        } else {
            self.word_product(g, m.drop_last()) * word_factor(
                self.premium_at(g.cols as int, m.last().row as int, m.last().col as int),
            )
        }
    }

    /// The score of the main word of the play `m` in direction `d`.
    pub open spec fn main_score(&self, g: Grid, d: Direction, m: Seq<TilePlacement>) -> int {
        self.span_points(g, d, line_of(d, m[0]), m, pos_of(d, m[0])) * self.word_product(g, m)
    }

    /// The score of the cross-word that the placement `p` of a play in
    /// direction `d` forms; 0 where it forms none.
    pub open spec fn cross_score(&self, g: Grid, d: Direction, p: TilePlacement) -> int {
        if g.has_cross(d, p.row as int, p.col as int) {
            self.span_points(g, d.cross(), line_of(d.cross(), p), seq![p], pos_of(d.cross(), p))
                * word_factor(self.premium_at(g.cols as int, p.row as int, p.col as int))
        } else {
            0
        }
    }

    /// The scores of the cross-words of the play `m` in direction `d`, added up.
    pub open spec fn cross_total(&self, g: Grid, d: Direction, m: Seq<TilePlacement>) -> int
        decreases m.len(),
    {
        if m.len() == 0 {
            0
        } else {
            self.cross_total(g, d, m.drop_last()) + self.cross_score(g, d, m.last())
        }
    }

    /// The bonus for a play of `tiles` tiles from a rack of `rack_len`.
    pub open spec fn bingo(&self, tiles: int, rack_len: int) -> int {
        let threshold = match self.bingo_threshold {
            Some(t) => t as int,
            None => rack_len,
        };
        if tiles >= threshold {
            self.bingo_bonus as int
        } else {
            0
        }
    }

    /// The score of the play `m` in direction `d` from a rack of
    /// `rack_len` tiles: main word, cross-words and bonus.
    pub open spec fn total(&self, g: Grid, d: Direction, m: Seq<TilePlacement>, rack_len: int) -> int {
        self.main_score(g, d, m) + self.cross_total(g, d, m) + self.bingo(m.len() as int, rack_len)
    }

    /// A policy with the face value 1 for every letter, no premium, and the
    /// usual bonus for a play that uses the whole rack.
    pub fn flat() -> (sc: Scoring)
        ensures
            sc.premiums@.len() == 0,
            sc.letter_values@.len() == 26,
            forall|i: int| 0 <= i < 26 ==> sc.letter_values@[i] == 1,
            sc.bingo_bonus == BINGO_BONUS,
            sc.bingo_threshold is None,
    {
        let mut values: Vec<u8> = Vec::new();
        let mut i: usize = 0;
        while i < 26
            invariant
                i <= 26,
                values@.len() == i,
                forall|j: int| 0 <= j < i ==> values@[j] == 1,
            decreases 26 - i,
        {
            values.push(1);
            i += 1;
        }
        Scoring { letter_values: values, premiums: Vec::new(), bingo_bonus: BINGO_BONUS, bingo_threshold: None }
    }

    /// The face value of a tile.
    pub fn face_value(&self, t: TileLetter) -> (v: u32)
        ensures
            v == self.face(t),
            v <= 255,
    {
        match t {
            TileLetter::Blank(_) => 0,
            TileLetter::Char(c) => {
                if check_letter(c) {
                    let i = letter_to_index(c);
                    if i < self.letter_values.len() {
                        self.letter_values[i] as u32
                    } else {
                        0
                    }
                } else {
                    0
                }
            },
        }
    }

    /// The premium of cell `(row, col)` of a board with `cols` columns.
    pub fn premium(&self, cols: usize, row: usize, col: usize) -> (p: Premium)
        ensures
            p == self.premium_at(cols as int, row as int, col as int),
    {
        let n = self.premiums.len();
        if col >= cols {
            return Premium::Plain;
        }
        assert(row * cols >= 0) by (nonlinear_arith)
            requires
                row >= 0,
                cols >= 0,
        ;
        match row.checked_mul(cols) {
            Some(base) => match base.checked_add(col) {
                Some(i) => {
                    if i < n {
                        self.premiums[i]
                    } else {
                        Premium::Plain
                    }
                },
                None => Premium::Plain,
            },
            None => Premium::Plain,
        }
    }

    /// The premium of cell `pos` of line `line` of direction `dir`.
    pub fn premium_along(&self, board: &Board, dir: Direction, line: usize, pos: usize) -> (p: Premium)
        ensures
            p == self.premium_on(board@, dir, line as int, pos as int),
    {
        match dir {
            Direction::Horizontal => self.premium(board.cols(), line, pos),
            Direction::Vertical => self.premium(board.cols(), pos, line),
        }
    }
}

/// The factor of a premium for the tile laid on its cell.
pub fn letter_multiplier(p: Premium) -> (f: u32)
    ensures
        f == letter_factor(p),
        1 <= f <= 3,
{
    match p {
        Premium::DoubleLetter => 2,
        Premium::TripleLetter => 3,
        _ => 1,
    }
}

/// The factor of a premium for the words through the tile laid on its cell.
pub fn word_multiplier(p: Premium) -> (f: u32)
    ensures
        f == word_factor(p),
        1 <= f <= 3,
{
    match p {
        Premium::DoubleWord => 2,
        Premium::TripleWord => 3,
        _ => 1,
    }
}

/// Whether the tiles `m` can be laid on line `l` of direction `d`: they lie
/// on empty cells of the line, in the order of the line.
pub open spec fn fits_line(g: Grid, d: Direction, l: int, m: Seq<TilePlacement>) -> bool {
    &&& all_in_bounds(g, m)
    &&& all_on_empty(g, m)
    &&& ascending(d, m)
    &&& forall|i: int| 0 <= i < m.len() ==> line_of(d, #[trigger] m[i]) == l
}

/// The tile on cell `pos` of line `line` once the tiles `m` are laid on the
/// line, and whether it is one of them.
pub fn tile_after(board: &Board, dir: Direction, line: usize, m: &Vec<TilePlacement>, pos: usize) -> (r:
    Option<(TileLetter, bool)>)
    requires
        board.wf(),
        fits_line(board@, dir, line as int, m@),
        line < board@.line_count(dir),
    ensures
        pos < board@.line_len(dir) ==> (match r {
            Some((t, fresh)) => lay(board@.line(dir, line as int), dir, m@)[pos as int] == Some(t) && fresh
                == (board@.tile_on(dir, line as int, pos as int) is None),
            None => lay(board@.line(dir, line as int), dir, m@)[pos as int] is None,
        }),
        pos >= board@.line_len(dir) ==> r is None,
        r is Some == filled(lay(board@.line(dir, line as int), dir, m@), pos as int),
{
    let len = match dir {
        Direction::Horizontal => board.cols(),
        Direction::Vertical => board.rows(),
    };
    proof {
        board.lemma_grid_wf();
        assert forall|i: int| 0 <= i < m@.len() implies 0 <= pos_of(dir, #[trigger] m@[i]) < board@.line(
            dir,
            line as int,
        ).len() by {
            assert(board@.in_bounds(m@[i].row as int, m@[i].col as int));
        }
        lemma_lay(board@.line(dir, line as int), dir, m@, pos as int);
    }
    if pos >= len {
        return None;
    }
    let mut i: usize = 0;
    while i < m.len()
        invariant
            i <= m.len(),
            board.wf(),
            pos < board@.line_len(dir),
            fits_line(board@, dir, line as int, m@),
            forall|j: int| 0 <= j < i ==> pos_of(dir, #[trigger] m@[j]) != pos,
        decreases m.len() - i,
    {
        if position(dir, &m[i]) == pos {
            proof {
                assert forall|j: int| 0 <= j < m@.len() implies 0 <= pos_of(dir, #[trigger] m@[j])
                    < board@.line(dir, line as int).len() by {
                    assert(board@.in_bounds(m@[j].row as int, m@[j].col as int));
                }
                lemma_lay(board@.line(dir, line as int), dir, m@, pos as int);
                assert(line_of(dir, m@[i as int]) == line);
                assert(!board@.occupied(m@[i as int].row as int, m@[i as int].col as int));
            }
            return Some((m[i].letter, true));
        }
        i += 1;
    }
    match board.tile_on(dir, line, pos) {
        Some(t) => Some((t, false)),
        None => None,
    }
}

impl Scoring {
    /// The points of the word through cell `from` of line `line` once the
    /// tiles `m` are laid on the line.
    pub fn word_points(&self, board: &Board, dir: Direction, line: usize, m: &Vec<TilePlacement>, from: usize) -> (r:
        u32)
        requires
            board.wf(),
            fits_line(board@, dir, line as int, m@),
            line < board@.line_count(dir),
            from < board@.line_len(dir),
        ensures
            r == clamp(self.span_points(board@, dir, line as int, m@, from as int)),
            self.span_points(board@, dir, line as int, m@, from as int) >= 0,
    {
        let ghost g = board@;
        let ghost after = lay(g.line(dir, line as int), dir, m@);
        let len = match dir {
            Direction::Horizontal => board.cols(),
            Direction::Vertical => board.rows(),
        };
        proof {
            board.lemma_grid_wf();
            assert forall|i: int| 0 <= i < m@.len() implies 0 <= pos_of(dir, #[trigger] m@[i]) < g.line(
                dir,
                line as int,
            ).len() by {
                assert(g.in_bounds(m@[i].row as int, m@[i].col as int));
            }
            lemma_lay(g.line(dir, line as int), dir, m@, 0);
        }
        let mut lo: usize = from;
        while lo > 0 && tile_after(board, dir, line, m, lo - 1).is_some()
            invariant
                board.wf(),
                fits_line(board@, dir, line as int, m@),
                line < board@.line_count(dir),
                g == board@,
                after == lay(g.line(dir, line as int), dir, m@),
                lo <= from < len,
                len == g.line_len(dir),
                forall|j: int| lo <= j < from ==> filled(after, j),
            decreases lo,
        {
            lo -= 1;
        }
        let mut hi: usize = from;
        while hi + 1 < len && tile_after(board, dir, line, m, hi + 1).is_some()
            invariant
                board.wf(),
                fits_line(board@, dir, line as int, m@),
                line < board@.line_count(dir),
                g == board@,
                after == lay(g.line(dir, line as int), dir, m@),
                from <= hi < len,
                len == g.line_len(dir),
                after.len() == len,
                forall|j: int| from < j <= hi ==> filled(after, j),
            decreases len - hi,
        {
            hi += 1;
        }
        proof {
            lemma_run_before_is(after, from as int, from - lo);
            lemma_run_after_is(after, from as int, hi - from);
        }
        let mut sum: u32 = 0;
        let mut k: usize = lo;
        while k <= hi
            invariant
                board.wf(),
                fits_line(board@, dir, line as int, m@),
                line < board@.line_count(dir),
                g == board@,
                after == lay(g.line(dir, line as int), dir, m@),
                lo <= k <= hi + 1,
                hi < len,
                len == g.line_len(dir),
                self.points_sum(g, dir, line as int, after, lo as int, k - 1) >= 0,
                sum == clamp(self.points_sum(g, dir, line as int, after, lo as int, k - 1)),
            decreases hi + 1 - k,
        {
            let points: u32 = match tile_after(board, dir, line, m, k) {
                Some((t, fresh)) => {
                    let face = self.face_value(t);
                    if fresh {
                        let f = letter_multiplier(self.premium_along(board, dir, line, k));
                        assert(face * f <= 765) by (nonlinear_arith)
                            requires
                                face <= 255,
                                f <= 3,
                        ;
                        face * f
                    } else {
                        assert(face * 1 == face);
                        face
                    }
                },
                None => 0,
            };
            assert(points == self.points_at(g, dir, line as int, after, k as int));
            sum = add_capped(sum, points);
            k += 1;
        }
        sum
    }

    /// The product of the word factors of the cells that the play covers.
    pub fn word_multiple(&self, board: &Board, m: &Vec<TilePlacement>) -> (r: u32)
        ensures
            r == clamp(self.word_product(board@, m@)),
            self.word_product(board@, m@) >= 1,
    {
        let mut product: u32 = 1;
        let mut i: usize = 0;
        assert(m@.take(0) =~= Seq::<TilePlacement>::empty());
        while i < m.len()
            invariant
                i <= m.len(),
                self.word_product(board@, m@.take(i as int)) >= 1,
                product == clamp(self.word_product(board@, m@.take(i as int))),
            decreases m.len() - i,
        {
            let f = word_multiplier(self.premium(board.cols(), m[i].row, m[i].col));
            proof {
                assert(m@.take(i + 1).drop_last() =~= m@.take(i as int));
                assert(m@.take(i + 1).last() == m@[i as int]);
                let a = self.word_product(board@, m@.take(i as int));
                assert(a * f >= 1) by (nonlinear_arith)
                    requires
                        a >= 1,
                        f >= 1,
                ;
            }
            product = mul_capped(product, f);
            i += 1;
        }
        assert(m@.take(m.len() as int) =~= m@);
        product
    }

    /// The score of the cross-word that the placement `p` of a play in
    /// direction `dir` forms; 0 where it forms none.
    pub fn cross_points(&self, board: &Board, dir: Direction, p: &TilePlacement) -> (r: u32)
        requires
            board.wf(),
            board@.in_bounds(p.row as int, p.col as int),
            !board@.occupied(p.row as int, p.col as int),
        ensures
            r == clamp(self.cross_score(board@, dir, *p)),
            self.cross_score(board@, dir, *p) >= 0,
    {
        let cd = dir.crossing();
        let line = line_index(cd, p);
        let pos = position(cd, p);
        proof {
            board.lemma_grid_wf();
            let cl = board@.cross_line(dir, p.row as int, p.col as int);
            assert(cl == board@.line(cd, line as int));
            assert(pos == cross_pos(dir, p.row as int, p.col as int));
        }
        let len = match cd {
            Direction::Horizontal => board.cols(),
            Direction::Vertical => board.rows(),
        };
        let before = pos > 0 && board.tile_on(cd, line, pos - 1).is_some();
        let behind = pos + 1 < len && board.tile_on(cd, line, pos + 1).is_some();
        if before || behind {
            let mut one: Vec<TilePlacement> = Vec::new();
            one.push(*p);
            assert(one@ =~= seq![*p]);
            let points = self.word_points(board, cd, line, &one, pos);
            let f = word_multiplier(self.premium(board.cols(), p.row, p.col));
            proof {
                let a = self.span_points(board@, cd, line as int, one@, pos as int);
                assert(a * f >= 0) by (nonlinear_arith)
                    requires
                        a >= 0,
                        f >= 1,
                ;
                assert(f == clamp(f as int));
            }
            mul_capped(points, f)
        } else {
            0
        }
    }

    /// The score of the play `m` in direction `dir` from a rack of
    /// `rack_len` tiles.
    pub fn score_play(&self, board: &Board, dir: Direction, m: &Vec<TilePlacement>, rack_len: usize) -> (r:
        u32)
        requires
            board.wf(),
            m.len() > 0,
            fits_line(board@, dir, line_of(dir, m@[0]), m@),
        ensures
            r == clamp(self.total(board@, dir, m@, rack_len as int)),
    {
        let ghost g = board@;
        let line = line_index(dir, &m[0]);
        let from = position(dir, &m[0]);
        proof {
            board.lemma_grid_wf();
            assert(g.in_bounds(m@[0].row as int, m@[0].col as int));
        }
        let points = self.word_points(board, dir, line, m, from);
        let factor = self.word_multiple(board, m);
        proof {
            let a = self.span_points(g, dir, line as int, m@, from as int);
            let b = self.word_product(g, m@);
            assert(a * b >= 0) by (nonlinear_arith)
                requires
                    a >= 0,
                    b >= 1,
            ;
        }
        let mut sum: u32 = mul_capped(points, factor);
        let mut i: usize = 0;
        let mut crosses: u32 = 0;
        assert(m@.take(0) =~= Seq::<TilePlacement>::empty());
        while i < m.len()
            invariant
                board.wf(),
                g == board@,
                all_in_bounds(g, m@),
                all_on_empty(g, m@),
                i <= m.len(),
                self.cross_total(g, dir, m@.take(i as int)) >= 0,
                crosses == clamp(self.cross_total(g, dir, m@.take(i as int))),
            decreases m.len() - i,
        {
            assert(g.in_bounds(m@[i as int].row as int, m@[i as int].col as int));
            assert(!g.occupied(m@[i as int].row as int, m@[i as int].col as int));
            let c = self.cross_points(board, dir, &m[i]);
            proof {
                assert(m@.take(i + 1).drop_last() =~= m@.take(i as int));
                assert(m@.take(i + 1).last() == m@[i as int]);
            }
            crosses = add_capped(crosses, c);
            i += 1;
        }
        assert(m@.take(m.len() as int) =~= m@);
        sum = add_capped(sum, crosses);
        let threshold = match self.bingo_threshold {
            Some(t) => t,
            None => rack_len,
        };
        if m.len() >= threshold {
            sum = add_capped(sum, self.bingo_bonus);
        } else {
            sum = add_capped(sum, 0);
        }
        sum
    }
}

} // verus!
