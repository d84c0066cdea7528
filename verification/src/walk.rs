//! The state of a walk from an anchor along a line, and what it proves of
//! the moves that the walk records.
//!
//! A walk starts on the anchor, lays tiles or passes over tiles of the board
//! cell by cell to the left, then turns and does the same to the right of
//! the anchor.  The cells `lo..=hi` are those passed so far.  Along the
//! way the walk follows the arcs of the word graph: the letters from the
//! anchor down to `lo`, then, after the turn, the delimiter and the letters
//! from the right of the anchor up to `hi`.
use vstd::prelude::*;
use crate::dag::{
    lemma_accepts_push, lemma_walk_push, rotation, rotation_symbol, Arc, Graph, Kind,
};
use crate::grid::{
    all_in_bounds, all_on_empty, char_on, filled, lemma_run_after_is, lemma_run_before_is, letters,
    line_of, pos_of, Grid, Line,
};
use crate::letters::is_letter;
use crate::plays::{
    all_valid, ascending, count_of, covers, cross_checked, is_play, lay, lemma_count_front,
    lemma_count_push, lemma_lay, main_line, used, within_rack,
};
use crate::tiles::{valid_tile, Direction, RackLetter, TileLetter, TilePlacement};

verus! {

/// The slot of the blank in a tally of the rack; the letters take the slots
/// below, by their position in the alphabet.
pub const BLANK_SLOT: usize = 26;

/// The rotated form of `w` split after its first `i` letters, with the
/// delimiter also where nothing follows it.
pub open spec fn turned_form(w: Seq<char>, i: int) -> Seq<Kind> {
    Seq::new((w.len() + 1) as nat, |j: int| rotation_symbol(w, i, j))
}

/// The symbols that a walk has followed when the letters on the cells
/// passed so far are `w`, of which the first `i` lie on the anchor or left
/// of it.
pub open spec fn trail(w: Seq<char>, i: int, turned: bool) -> Seq<Kind> {
    if turned {
        turned_form(w, i)
    } else {
        rotation(w, w.len() as int)
    }
}

/// One more letter on the left of a walk that has not turned.
pub proof fn lemma_trail_left(w: Seq<char>, x: char)
    ensures
        rotation(seq![x] + w, w.len() as int + 1) == rotation(w, w.len() as int).push(Kind::Char(x)),
{
    let v = seq![x] + w;
    assert forall|j: int| 0 <= j < v.len() implies rotation(v, w.len() as int + 1)[j] == rotation(
        w,
        w.len() as int,
    ).push(Kind::Char(x))[j] by {
        if j < w.len() {
            assert(v[w.len() - j] == w[w.len() - 1 - j]);
        }
    }
    assert(rotation(v, w.len() as int + 1) =~= rotation(w, w.len() as int).push(Kind::Char(x)));
}

/// One more letter on the right of a walk that has turned.
pub proof fn lemma_trail_right(w: Seq<char>, i: int, x: char)
    requires
        0 <= i <= w.len(),
    ensures
        turned_form(w.push(x), i) == turned_form(w, i).push(Kind::Char(x)),
{
    assert(turned_form(w.push(x), i) =~= turned_form(w, i).push(Kind::Char(x)));
}

/// The turn: the delimiter follows the letters from the anchor to the left end.
pub proof fn lemma_trail_turn(w: Seq<char>)
    ensures
        turned_form(w, w.len() as int) == rotation(w, w.len() as int).push(Kind::Delim),
{
    assert(turned_form(w, w.len() as int) =~= rotation(w, w.len() as int).push(Kind::Delim));
}

/// With a letter right of the anchor, the symbols followed are a rotated form.
pub proof fn lemma_trail_form(w: Seq<char>, i: int)
    requires
        0 <= i < w.len(),
    ensures
        turned_form(w, i) == rotation(w, i),
{
    assert(turned_form(w, i) =~= rotation(w, i));
}

/// Where a walk takes place: the grid, the dictionary, the rack, and the
/// anchor as position `a` of line `l` of direction `d`.
pub struct Site {
    pub g: Grid,
    pub dict: Set<Seq<char>>,
    pub rack: Seq<RackLetter>,
    pub d: Direction,
    pub l: int,
    pub a: int,
}

impl Site {
    /// The line of the walk.
    pub open spec fn line(self) -> Line {
        self.g.line(self.d, self.l)
    }

    /// The number of cells of the line.
    pub open spec fn len(self) -> int {
        self.g.line_len(self.d) as int
    }

    /// The row of cell `k` of the line.
    pub open spec fn row_at(self, k: int) -> int {
        match self.d {
            Direction::Horizontal => self.l,
            Direction::Vertical => k,
        }
    }

    /// The column of cell `k` of the line.
    pub open spec fn col_at(self, k: int) -> int {
        match self.d {
            Direction::Horizontal => k,
            Direction::Vertical => self.l,
        }
    }

    /// The anchor is an empty cell of a line of the grid.
    pub open spec fn wf(self) -> bool {
        &&& self.g.wf()
        &&& self.g.rows <= usize::MAX
        &&& self.g.cols <= usize::MAX
        &&& 0 <= self.l < self.g.line_count(self.d)
        &&& 0 <= self.a < self.len()
        &&& !filled(self.line(), self.a)
    }

    /// The line with the tiles of `placed` laid on it.
    pub open spec fn cur(self, placed: Seq<TilePlacement>) -> Line {
        lay(self.line(), self.d, placed)
    }

    /// The placement of tile `t` on cell `k` of the line.
    pub open spec fn placement(self, t: TileLetter, k: int) -> TilePlacement {
        TilePlacement { letter: t, row: self.row_at(k) as usize, col: self.col_at(k) as usize }
    }
}

/// Whether `placed` are the tiles that a walk has laid when it has passed
/// the cells `lo..=hi`: they lie on empty cells of the line among those, in
/// the order of the line, each showing a letter that fits the cross-set of
/// its cell, and with them every cell passed holds a tile.
pub open spec fn passed(s: Site, placed: Seq<TilePlacement>, lo: int, hi: int) -> bool {
    &&& 0 <= lo <= s.a + 1
    &&& s.a <= hi < s.len()
    &&& all_in_bounds(s.g, placed)
    &&& all_on_empty(s.g, placed)
    &&& all_valid(placed)
    &&& ascending(s.d, placed)
    &&& cross_checked(s.g, s.dict, s.d, placed)
    &&& forall|i: int|
        0 <= i < placed.len() ==> line_of(s.d, #[trigger] placed[i]) == s.l && lo <= pos_of(s.d, placed[i])
            <= hi
    &&& forall|k: int| lo <= k <= hi ==> #[trigger] filled(s.cur(placed), k)
}

/// The stock of the rack letter `x` in the tally `avail`.
pub open spec fn stock(avail: Seq<usize>, x: RackLetter) -> int {
    match x {
        RackLetter::Blank => avail[BLANK_SLOT as int] as int,
        RackLetter::Char(c) => if is_letter(c) {
            avail[c as int - 'a' as int] as int
        } else {
            0
        },
    }
}

/// Whether the tally `avail` holds what is left of the rack once the tiles
/// of `placed` are taken from it.
pub open spec fn balanced(rack: Seq<RackLetter>, placed: Seq<TilePlacement>, avail: Seq<usize>) -> bool {
    &&& avail.len() == BLANK_SLOT + 1
    &&& forall|x: RackLetter|
        (match x {
            RackLetter::Blank => true,
            RackLetter::Char(c) => is_letter(c),
        }) ==> count_of(used(placed), x) + #[trigger] stock(avail, x) == count_of(rack, x)
}

/// Tiles that show letters use up no rack letter outside the alphabet.
pub proof fn lemma_no_stray(m: Seq<TilePlacement>, c: char)
    requires
        all_valid(m),
        !is_letter(c),
    ensures
        count_of(used(m), RackLetter::Char(c)) == 0,
    decreases m.len(),
{
    if m.len() > 0 {
        let r = m.drop_last();
        assert(used(m).drop_last() =~= used(r));
        assert forall|i: int| 0 <= i < r.len() implies valid_tile((#[trigger] r[i]).letter) by {
            assert(r[i] == m[i]);
        }
        lemma_no_stray(r, c);
        assert(valid_tile(m[m.len() - 1].letter));
    }
}

/// What a balanced tally shows: the tiles laid are within the rack.
pub proof fn lemma_balanced_within(rack: Seq<RackLetter>, placed: Seq<TilePlacement>, avail: Seq<usize>)
    requires
        balanced(rack, placed, avail),
        all_valid(placed),
    ensures
        within_rack(rack, placed),
{
    assert forall|x: RackLetter| count_of(used(placed), x) <= #[trigger] count_of(rack, x) by {
        match x {
            RackLetter::Blank => {
                assert(stock(avail, x) >= 0);
            },
            RackLetter::Char(c) => {
                if is_letter(c) {
                    assert(stock(avail, x) >= 0);
                } else {
                    lemma_no_stray(placed, c);
                }
            },
        }
    }
}

/// Laying one more tile in front of the others, on a cell before theirs.
pub proof fn lemma_lay_front(line: Line, d: Direction, p: TilePlacement, m: Seq<TilePlacement>)
    requires
        0 <= pos_of(d, p) < line.len(),
        forall|i: int|
            0 <= i < m.len() ==> 0 <= pos_of(d, #[trigger] m[i]) < line.len() && pos_of(d, m[i]) != pos_of(
                d,
                p,
            ),
    ensures
        lay(line, d, seq![p] + m) == lay(line, d, m).update(pos_of(d, p), Some(p.letter)),
    decreases m.len(),
{
    let pm = seq![p] + m;
    if m.len() == 0 {
        assert(pm.drop_last() =~= Seq::<TilePlacement>::empty());
        assert(pm.last() == p);
        assert(lay(line, d, pm.drop_last()) == line);
    } else {
        let r = m.drop_last();
        assert(pm.drop_last() =~= seq![p] + r);
        assert(pm.last() == m.last());
        assert forall|i: int| 0 <= i < r.len() implies 0 <= pos_of(d, #[trigger] r[i]) < line.len()
            && pos_of(d, r[i]) != pos_of(d, p) by {
            assert(r[i] == m[i]);
        }
        lemma_lay_front(line, d, p, r);
        lemma_lay(line, d, r, 0);
        assert(0 <= pos_of(d, m[m.len() - 1]) < line.len());
        assert(lay(line, d, pm) =~= lay(line, d, m).update(pos_of(d, p), Some(p.letter)));
    }
}

/// The tiles of a walk lie within the line.
pub proof fn lemma_passed_positions(s: Site, placed: Seq<TilePlacement>, lo: int, hi: int)
    requires
        s.wf(),
        passed(s, placed, lo, hi),
    ensures
        forall|i: int| 0 <= i < placed.len() ==> 0 <= pos_of(s.d, #[trigger] placed[i]) < s.line().len(),
        s.cur(placed).len() == s.line().len(),
        s.line().len() == s.len(),
{
    lemma_lay(s.line(), s.d, placed, 0);
}

/// The cells of the line without a tile of the walk are as on the board.
pub proof fn lemma_cur_outside(s: Site, placed: Seq<TilePlacement>, lo: int, hi: int, k: int)
    requires
        s.wf(),
        passed(s, placed, lo, hi),
        0 <= k < s.len(),
        k < lo || k > hi || filled(s.line(), k),
    ensures
        s.cur(placed)[k] == s.line()[k],
{
    lemma_passed_positions(s, placed, lo, hi);
    lemma_lay(s.line(), s.d, placed, k);
    assert forall|i: int| 0 <= i < placed.len() implies pos_of(s.d, #[trigger] placed[i]) != k by {
        if pos_of(s.d, placed[i]) == k {
            assert(!s.g.occupied(placed[i].row as int, placed[i].col as int));
            assert(s.line()[k] == s.g.tile_on(s.d, s.l, k));
        }
    }
}

/// A cell passed that is empty on the board holds a tile of the walk.
pub proof fn lemma_cur_inside(s: Site, placed: Seq<TilePlacement>, lo: int, hi: int, k: int) -> (i: int)
    requires
        s.wf(),
        passed(s, placed, lo, hi),
        lo <= k <= hi,
        !filled(s.line(), k),
    ensures
        0 <= i < placed.len(),
        pos_of(s.d, placed[i]) == k,
        placed[i].row == s.row_at(k),
        placed[i].col == s.col_at(k),
        s.cur(placed)[k] == Some(placed[i].letter),
{
    lemma_passed_positions(s, placed, lo, hi);
    lemma_lay(s.line(), s.d, placed, k);
    assert(filled(s.cur(placed), k));
    if forall|i: int| 0 <= i < placed.len() ==> pos_of(s.d, #[trigger] placed[i]) != k {
        assert(false);
    }
    let i = choose|i: int| 0 <= i < placed.len() && pos_of(s.d, #[trigger] placed[i]) == k;
    assert(line_of(s.d, placed[i]) == s.l);
    i
}

/// A walk that has passed the anchor, with no tile of the board before its
/// first cell nor after its last, and with a word of the dictionary on the
/// cells passed, has laid a play that covers the anchor and forms that word.
#[verifier::rlimit(40)]
pub proof fn lemma_record(s: Site, placed: Seq<TilePlacement>, lo: int, hi: int)
    requires
        s.wf(),
        passed(s, placed, lo, hi),
        lo <= s.a,
        !filled(s.line(), lo - 1),
        !filled(s.line(), hi + 1),
        s.dict.contains(letters(s.cur(placed), lo, hi)),
        within_rack(s.rack, placed),
    ensures
        is_play(s.g, s.dict, s.rack, s.d, placed),
        covers(placed, s.row_at(s.a), s.col_at(s.a)),
{
    let cur = s.cur(placed);
    lemma_passed_positions(s, placed, lo, hi);
    let i = lemma_cur_inside(s, placed, lo, hi, s.a);
    assert(placed[i].row == s.row_at(s.a) && placed[i].col == s.col_at(s.a));
    assert(line_of(s.d, placed[0]) == s.l);
    assert(main_line(s.g, s.d, placed) == cur);
    let first = pos_of(s.d, placed[0]);
    let last = pos_of(s.d, placed[placed.len() - 1]);
    assert(lo <= first <= hi);
    assert(lo <= last <= hi);
    if lo > 0 {
        lemma_cur_outside(s, placed, lo, hi, lo - 1);
    }
    if hi + 1 < s.len() {
        lemma_cur_outside(s, placed, lo, hi, hi + 1);
    }
    lemma_run_before_is(cur, first, first - lo);
    lemma_run_after_is(cur, first, hi - first);
}

/// The tiles of a walk once it has passed one more cell: `placed` where the
/// cell holds a tile of the board, else `placed` with the tile `t` on cell
/// `k`, in front where `k` lies before the cells passed, behind otherwise.
pub open spec fn with_tile(
    s: Site,
    placed: Seq<TilePlacement>,
    t: TileLetter,
    k: int,
    fresh: bool,
) -> Seq<TilePlacement> {
    if !fresh {
        placed
    } else if k <= s.a {
        seq![s.placement(t, k)] + placed
    } else {
        placed.push(s.placement(t, k))
    }
}

/// What the walk needs to pass cell `k` with the tile `t`: the cell holds
/// `t` on the board, or it is empty and `t` shows a letter that fits the
/// cross-set of the cell.
pub open spec fn may_pass(s: Site, t: TileLetter, k: int, fresh: bool) -> bool {
    if fresh {
        &&& !filled(s.line(), k)
        &&& valid_tile(t)
        &&& s.g.cross_ok(s.dict, s.d, s.row_at(k), s.col_at(k), t.letter())
    } else {
        s.line()[k] == Some(t)
    }
}

/// A cell of the line is a cell of the grid.
pub proof fn lemma_cell(s: Site, k: int)
    requires
        s.wf(),
        0 <= k < s.len(),
    ensures
        s.g.in_bounds(s.row_at(k), s.col_at(k)),
        s.line().len() == s.len(),
        s.line()[k] == s.g.tile(s.row_at(k), s.col_at(k)),
        filled(s.line(), k) == s.g.occupied(s.row_at(k), s.col_at(k)),
        forall|t: TileLetter|
            pos_of(s.d, #[trigger] s.placement(t, k)) == k && line_of(s.d, s.placement(t, k)) == s.l
                && s.placement(t, k).row == s.row_at(k) && s.placement(t, k).col == s.col_at(k)
                && s.placement(t, k).letter == t,
{
}

/// The walk passes the cell left of those passed.
#[verifier::rlimit(40)]
pub proof fn lemma_step_left(s: Site, placed: Seq<TilePlacement>, lo: int, hi: int, t: TileLetter, fresh: bool)
    requires
        s.wf(),
        passed(s, placed, lo, hi),
        lo > 0,
        may_pass(s, t, lo - 1, fresh),
    ensures
        passed(s, with_tile(s, placed, t, lo - 1, fresh), lo - 1, hi),
        letters(s.cur(with_tile(s, placed, t, lo - 1, fresh)), lo - 1, hi) == seq![t.letter()] + letters(
            s.cur(placed),
            lo,
            hi,
        ),
        s.cur(with_tile(s, placed, t, lo - 1, fresh))[lo - 1] == Some(t),
{
    let k = lo - 1;
    let next = with_tile(s, placed, t, k, fresh);
    let cur = s.cur(placed);
    lemma_passed_positions(s, placed, lo, hi);
    lemma_cell(s, k);
    if fresh {
        let p = s.placement(t, k);
        assert forall|i: int| 0 <= i < next.len() implies #[trigger] next[i] == (if i == 0 {
            p
        } else {
            placed[i - 1]
        }) by {}
        assert(next.len() == placed.len() + 1);
        lemma_lay_front(s.line(), s.d, p, placed);
        assert(s.cur(next) == cur.update(k, Some(t)));
        assert forall|i: int, j: int| 0 <= i < j < next.len() implies pos_of(s.d, #[trigger] next[i])
            < pos_of(s.d, #[trigger] next[j]) by {
            if i > 0 {
                assert(pos_of(s.d, placed[i - 1]) < pos_of(s.d, placed[j - 1]));
            } else {
                assert(lo <= pos_of(s.d, placed[j - 1]));
            }
        }
        assert forall|i: int| 0 <= i < next.len() implies line_of(s.d, #[trigger] next[i]) == s.l && k
            <= pos_of(s.d, next[i]) <= hi by {
            if i > 0 {
                assert(line_of(s.d, placed[i - 1]) == s.l);
            }
        }
        assert forall|i: int| 0 <= i < next.len() implies s.g.in_bounds(
            (#[trigger] next[i]).row as int,
            next[i].col as int,
        ) && !s.g.occupied(next[i].row as int, next[i].col as int) && valid_tile(
            next[i].letter,
        ) && s.g.cross_ok(s.dict, s.d, next[i].row as int, next[i].col as int, next[i].letter.letter()) by {
            if i > 0 {
                let q = placed[i - 1];
                assert(s.g.in_bounds(q.row as int, q.col as int));
                assert(!s.g.occupied(q.row as int, q.col as int));
                assert(valid_tile(q.letter));
                assert(s.g.cross_ok(s.dict, s.d, q.row as int, q.col as int, q.letter.letter()));
            }
        }
        assert forall|j: int| k <= j <= hi implies #[trigger] filled(s.cur(next), j) by {
            if j > k {
                assert(filled(cur, j));
            }
        }
    } else {
        lemma_cur_outside(s, placed, lo, hi, k);
        assert forall|j: int| k <= j <= hi implies #[trigger] filled(s.cur(next), j) by {
            if j > k {
                assert(filled(cur, j));
            }
        }
    }
    lemma_letters_left(cur, s.cur(next), lo, hi);
}

/// The walk passes the cell right of those passed.
#[verifier::rlimit(40)]
pub proof fn lemma_step_right(s: Site, placed: Seq<TilePlacement>, lo: int, hi: int, t: TileLetter, fresh: bool)
    requires
        s.wf(),
        passed(s, placed, lo, hi),
        hi + 1 < s.len(),
        may_pass(s, t, hi + 1, fresh),
    ensures
        passed(s, with_tile(s, placed, t, hi + 1, fresh), lo, hi + 1),
        letters(s.cur(with_tile(s, placed, t, hi + 1, fresh)), lo, hi + 1) == letters(
            s.cur(placed),
            lo,
            hi,
        ).push(t.letter()),
        s.cur(with_tile(s, placed, t, hi + 1, fresh))[hi + 1] == Some(t),
{
    let k = hi + 1;
    let next = with_tile(s, placed, t, k, fresh);
    let cur = s.cur(placed);
    lemma_passed_positions(s, placed, lo, hi);
    lemma_cell(s, k);
    if fresh {
        let p = s.placement(t, k);
        assert(next.drop_last() =~= placed);
        assert(next.last() == p);
        assert(s.cur(next) == cur.update(k, Some(t)));
        assert forall|i: int, j: int| 0 <= i < j < next.len() implies pos_of(s.d, #[trigger] next[i])
            < pos_of(s.d, #[trigger] next[j]) by {
            if j < placed.len() {
                assert(pos_of(s.d, placed[i]) < pos_of(s.d, placed[j]));
            } else {
                assert(pos_of(s.d, placed[i]) <= hi);
            }
        }
        assert forall|i: int| 0 <= i < next.len() implies line_of(s.d, #[trigger] next[i]) == s.l && lo
            <= pos_of(s.d, next[i]) <= k by {
            if i < placed.len() {
                assert(line_of(s.d, placed[i]) == s.l);
            }
        }
        assert forall|i: int| 0 <= i < next.len() implies s.g.in_bounds(
            (#[trigger] next[i]).row as int,
            next[i].col as int,
        ) && !s.g.occupied(next[i].row as int, next[i].col as int) && valid_tile(
            next[i].letter,
        ) && s.g.cross_ok(s.dict, s.d, next[i].row as int, next[i].col as int, next[i].letter.letter()) by {
            if i < placed.len() {
                let q = placed[i];
                assert(s.g.in_bounds(q.row as int, q.col as int));
                assert(!s.g.occupied(q.row as int, q.col as int));
                assert(valid_tile(q.letter));
                assert(s.g.cross_ok(s.dict, s.d, q.row as int, q.col as int, q.letter.letter()));
            }
        }
        assert forall|j: int| lo <= j <= k implies #[trigger] filled(s.cur(next), j) by {
            if j < k {
                assert(filled(cur, j));
            }
        }
    } else {
        lemma_cur_outside(s, placed, lo, hi, k);
        assert forall|j: int| lo <= j <= k implies #[trigger] filled(s.cur(next), j) by {
            if j < k {
                assert(filled(cur, j));
            }
        }
    }
    lemma_letters_right(cur, s.cur(next), lo, hi);
}

/// Taking a tile from the tally for one more placement keeps the balance.
pub proof fn lemma_balance_step(
    rack: Seq<RackLetter>,
    placed: Seq<TilePlacement>,
    next: Seq<TilePlacement>,
    p: TilePlacement,
    avail: Seq<usize>,
    after: Seq<usize>,
    slot: int,
)
    requires
        balanced(rack, placed, avail),
        next == seq![p] + placed || next == placed.push(p),
        valid_tile(p.letter),
        0 <= slot <= BLANK_SLOT,
        slot == (match p.letter {
            TileLetter::Blank(_) => BLANK_SLOT as int,
            TileLetter::Char(c) => c as int - 'a' as int,
        }),
        avail[slot] > 0,
        after == avail.update(slot, (avail[slot] - 1) as usize),
    ensures
        balanced(rack, next, after),
{
    let y = p.letter.rack_letter();
    assert forall|x: RackLetter|
        (match x {
            RackLetter::Blank => true,
            RackLetter::Char(c) => is_letter(c),
        }) implies count_of(used(next), x) + #[trigger] stock(after, x) == count_of(rack, x) by {
        assert(count_of(used(placed), x) + stock(avail, x) == count_of(rack, x));
        if next == placed.push(p) {
            assert(used(next) =~= used(placed).push(y));
            lemma_count_push(used(placed), y, x);
        } else {
            assert(used(next) =~= seq![y] + used(placed));
            lemma_count_front(used(placed), y, x);
        }
    }
}

/// Whether a walk is about to pass cell `pos`, having passed the cells
/// `lo..=hi`, laid the tiles `placed`, and followed the arcs of the graph up
/// to `arc`.  Left of the anchor the cells passed end at the anchor; right
/// of it they begin where no tile of the board lies before them.
#[verifier::opaque]
pub open spec fn at(
    s: Site,
    graph: &Graph,
    pos: int,
    placed: Seq<TilePlacement>,
    arc: Arc,
    lo: int,
    hi: int,
) -> bool {
    let turned = pos > s.a;
    &&& 0 <= pos < s.len()
    &&& passed(s, placed, lo, hi)
    &&& (if turned {
        hi == pos - 1 && lo <= s.a && !filled(s.line(), lo - 1)
    } else {
        lo == pos + 1 && hi == s.a
    })
    &&& graph.init.walk(trail(letters(s.cur(placed), lo, hi), s.a - lo + 1, turned)) == Some(arc)
}

/// The cell that a walk is about to pass is a cell of the line.
pub proof fn lemma_at_bounds(
    s: Site,
    graph: &Graph,
    pos: int,
    placed: Seq<TilePlacement>,
    arc: Arc,
    lo: int,
    hi: int,
)
    requires
        at(s, graph, pos, placed, arc, lo, hi),
    ensures
        0 <= pos < s.len(),
{
    reveal(at);
}

/// A walk starts on the anchor, at the initial arc, with nothing passed.
pub proof fn lemma_start(s: Site, graph: &Graph)
    requires
        s.wf(),
    ensures
        at(s, graph, s.a, Seq::<TilePlacement>::empty(), graph.init, s.a + 1, s.a),
{
    reveal(at);
    let placed = Seq::<TilePlacement>::empty();
    lemma_lay(s.line(), s.d, placed, 0);
    assert(letters(s.cur(placed), s.a + 1, s.a) =~= Seq::<char>::empty());
    assert(trail(Seq::<char>::empty(), 0, false) =~= Seq::<Kind>::empty());
}

/// What going on from a cell on the anchor or left of it leads to, with the
/// tile `t` on the cell: a play, where the letter of `t` is in the letter
/// set of the arc and no tile of the board lies before the cell nor after
/// the anchor; the walk at the next cell to the left, where the graph has an
/// arc for the letter; and the walk at the cell right of the anchor, where
/// the graph continues with the delimiter and no tile of the board lies
/// before the cell.
#[verifier::rlimit(40)]
pub proof fn lemma_go_left(
    s: Site,
    graph: &Graph,
    pos: int,
    placed: Seq<TilePlacement>,
    arc: Arc,
    lo: int,
    hi: int,
    t: TileLetter,
    fresh: bool,
    avail: Seq<usize>,
)
    requires
        s.wf(),
        graph.wf(),
        s.dict == graph@,
        at(s, graph, pos, placed, arc, lo, hi),
        pos <= s.a,
        may_pass(s, t, pos, fresh),
        balanced(s.rack, with_tile(s, placed, t, pos, fresh), avail),
    ensures
        ({
            let next = with_tile(s, placed, t, pos, fresh);
            let child = arc.next.child(Kind::Char(t.letter()));
            &&& arc.letter_set@.contains(t.letter()) && !filled(s.line(), pos - 1) && !filled(
                s.line(),
                s.a + 1,
            ) ==> is_play(s.g, s.dict, s.rack, s.d, next) && covers(next, s.row_at(s.a), s.col_at(s.a))
            &&& child is Some && pos > 0 ==> at(s, graph, pos - 1, next, child->0, pos, hi)
            &&& child is Some && !filled(s.line(), pos - 1) && s.a + 1 < s.len() && child->0.next.child(
                Kind::Delim,
            ) is Some ==> at(s, graph, s.a + 1, next, child->0.next.child(Kind::Delim)->0, pos, hi)
        }),
{
    reveal(at);
    let next = with_tile(s, placed, t, pos, fresh);
    let w = letters(s.cur(placed), lo, hi);
    let w2 = letters(s.cur(next), pos, hi);
    let x = t.letter();
    let path = rotation(w, w.len() as int);
    let path2 = rotation(w2, w2.len() as int);
    let child = arc.next.child(Kind::Char(x));
    assert(graph.init.walk(path) == Some(arc));
    assert(passed(s, next, pos, hi) && w2 == seq![x] + w) by {
        lemma_step_left(s, placed, lo, hi, t, fresh);
    }
    assert(w2.len() == s.a - pos + 1);
    assert(path2 == path.push(Kind::Char(x))) by {
        lemma_trail_left(w, x);
    }
    assert(graph.init.walk(path2) == child) by {
        lemma_walk_push(graph.init, path, Kind::Char(x));
    }
    if arc.letter_set@.contains(x) && !filled(s.line(), pos - 1) && !filled(s.line(), s.a + 1) {
        assert(s.dict.contains(w2)) by {
            lemma_accepts_push(graph.init, path, Kind::Char(x));
            graph.lemma_any_rotation(w2, w2.len() as int);
        }
        assert(within_rack(s.rack, next)) by {
            lemma_balanced_within(s.rack, next, avail);
        }
        lemma_record(s, next, pos, hi);
    }
    if child is Some {
        assert(graph.init.walk(turned_form(w2, w2.len() as int)) == child->0.next.child(Kind::Delim)) by {
            lemma_trail_turn(w2);
            lemma_walk_push(graph.init, path2, Kind::Delim);
        }
    }
}

/// What going on from a cell right of the anchor leads to, with the tile
/// `t` on the cell: a play, where the letter of `t` is in the letter set of
/// the arc and no tile of the board lies after the cell; and the walk at
/// the next cell to the right, where the graph has an arc for the letter.
#[verifier::rlimit(40)]
pub proof fn lemma_go_right(
    s: Site,
    graph: &Graph,
    pos: int,
    placed: Seq<TilePlacement>,
    arc: Arc,
    lo: int,
    hi: int,
    t: TileLetter,
    fresh: bool,
    avail: Seq<usize>,
)
    requires
        s.wf(),
        graph.wf(),
        s.dict == graph@,
        at(s, graph, pos, placed, arc, lo, hi),
        pos > s.a,
        may_pass(s, t, pos, fresh),
        balanced(s.rack, with_tile(s, placed, t, pos, fresh), avail),
    ensures
        ({
            let next = with_tile(s, placed, t, pos, fresh);
            let child = arc.next.child(Kind::Char(t.letter()));
            &&& arc.letter_set@.contains(t.letter()) && !filled(s.line(), pos + 1) ==> is_play(
                s.g,
                s.dict,
                s.rack,
                s.d,
                next,
            ) && covers(next, s.row_at(s.a), s.col_at(s.a))
            &&& child is Some && pos + 1 < s.len() ==> at(s, graph, pos + 1, next, child->0, lo, pos)
        }),
{
    reveal(at);
    let next = with_tile(s, placed, t, pos, fresh);
    let w = letters(s.cur(placed), lo, hi);
    let w2 = letters(s.cur(next), lo, pos);
    let x = t.letter();
    let i = s.a - lo + 1;
    let path = turned_form(w, i);
    let path2 = turned_form(w2, i);
    let child = arc.next.child(Kind::Char(x));
    assert(graph.init.walk(path) == Some(arc));
    assert(passed(s, next, lo, pos) && w2 == w.push(x)) by {
        lemma_step_right(s, placed, lo, hi, t, fresh);
    }
    assert(w.len() == hi - lo + 1);
    assert(path2 == path.push(Kind::Char(x))) by {
        lemma_trail_right(w, i, x);
    }
    assert(graph.init.walk(path2) == child) by {
        lemma_walk_push(graph.init, path, Kind::Char(x));
    }
    if arc.letter_set@.contains(x) && !filled(s.line(), pos + 1) {
        assert(s.dict.contains(w2)) by {
            lemma_accepts_push(graph.init, path, Kind::Char(x));
            lemma_trail_form(w2, i);
            graph.lemma_any_rotation(w2, i);
        }
        assert(within_rack(s.rack, next)) by {
            lemma_balanced_within(s.rack, next, avail);
        }
        lemma_record(s, next, lo, pos);
    }
}

/// The letters on the cells passed, after one more cell on the left.
pub proof fn lemma_letters_left(before: Line, after: Line, lo: int, hi: int)
    requires
        0 < lo <= hi + 1,
        hi < before.len(),
        before.len() == after.len(),
        forall|k: int| lo <= k <= hi ==> before[k] == after[k],
    ensures
        letters(after, lo - 1, hi) == seq![char_on(after, lo - 1)] + letters(before, lo, hi),
{
    assert(letters(after, lo - 1, hi) =~= seq![char_on(after, lo - 1)] + letters(before, lo, hi));
}

/// The letters on the cells passed, after one more cell on the right.
pub proof fn lemma_letters_right(before: Line, after: Line, lo: int, hi: int)
    requires
        0 <= lo <= hi + 1,
        hi + 1 < before.len(),
        before.len() == after.len(),
        forall|k: int| lo <= k <= hi ==> before[k] == after[k],
    ensures
        letters(after, lo, hi + 1) == letters(before, lo, hi).push(char_on(after, hi + 1)),
{
    assert(letters(after, lo, hi + 1) =~= letters(before, lo, hi).push(char_on(after, hi + 1)));
}

} // verus!
