//! The move generator: the walk over the word graph and the board that
//! finds the plays through one anchor in one direction.
use vstd::prelude::*;
use crate::board::{set_of, Board};
use crate::dag::{Arc, Graph, Kind};
use crate::grid::filled;
use crate::letters::{check_letter, index_to_letter, is_letter, letter_to_index, ALPHABET_SIZE};
use crate::plays::{count_of, covers, is_play, lemma_count_push, used};
use crate::ranking::same_placements;
use crate::tiles::{Direction, RackLetter, TileLetter, TilePlacement};
use crate::track::{
    added_wanted, added_wanted_with, due, lemma_added_more, lemma_added_none, lemma_added_record,
    lemma_added_step, lemma_added_twice, lemma_left_complete, lemma_need, lemma_pass_tile,
    lemma_right_complete, lemma_wanted_at_start, span_hi, span_lo, wanted, wanted_with,
};
use crate::walk::{
    at, balanced, lemma_at_bounds, lemma_balance_step, lemma_cell, lemma_go_left, lemma_go_right,
    lemma_start, may_pass, stock, with_tile, Site, BLANK_SLOT,
};

verus! {

/// Whether the list `after` begins with the list `before`.
pub open spec fn extends(after: Seq<Vec<TilePlacement>>, before: Seq<Vec<TilePlacement>>) -> bool {
    &&& before.len() <= after.len()
    &&& forall|i: int| 0 <= i < before.len() ==> after[i] == before[i]
}

/// Whether the move `m` is in the list `moves`.
pub open spec fn recorded(moves: Seq<Vec<TilePlacement>>, m: Seq<TilePlacement>) -> bool {
    exists|i: int| 0 <= i < moves.len() && (#[trigger] moves[i])@ == m
}

/// A move in a list is in every list that begins with that list.
pub proof fn lemma_recorded_extends(
    before: Seq<Vec<TilePlacement>>,
    after: Seq<Vec<TilePlacement>>,
    m: Seq<TilePlacement>,
)
    requires
        recorded(before, m),
        extends(after, before),
    ensures
        recorded(after, m),
{
    let i = choose|i: int| 0 <= i < before.len() && (#[trigger] before[i])@ == m;
    assert(after[i] == before[i]);
}

/// Whether no move is in the list twice.
pub open spec fn distinct(moves: Seq<Vec<TilePlacement>>) -> bool {
    forall|i: int, j: int| 0 <= i < j < moves.len() ==> (#[trigger] moves[i])@ != (#[trigger] moves[j])@
}

/// Whether every move of the list is a play of the site that covers its
/// anchor, and none is in the list twice.
#[verifier::opaque]
pub open spec fn sound(s: Site, moves: Seq<Vec<TilePlacement>>) -> bool {
    &&& distinct(moves)
    &&& forall|i: int|
        0 <= i < moves.len() ==> is_play(s.g, s.dict, s.rack, s.d, (#[trigger] moves[i])@) && covers(
            moves[i]@,
            s.row_at(s.a),
            s.col_at(s.a),
        )
}

/// Tests whether the move `m` is in the list.
pub fn has_move(moves: &Vec<Vec<TilePlacement>>, m: &Vec<TilePlacement>) -> (r: bool)
    ensures
        r == recorded(moves@, m@),
{
    let mut i: usize = 0;
    while i < moves.len()
        invariant
            i <= moves.len(),
            forall|j: int| 0 <= j < i ==> (#[trigger] moves@[j])@ != m@,
        decreases moves.len() - i,
    {
        if same_placements(&moves[i], m) {
            return true;
        }
        i += 1;
    }
    false
}

/// Counts the letters of the rack: how many of each letter, by its position
/// in the alphabet, and how many blanks.  Characters outside the alphabet
/// cannot be played and are left out.
pub fn tally(rack: &[RackLetter]) -> (avail: Vec<usize>)
    ensures
        balanced(rack@, Seq::<TilePlacement>::empty(), avail@),
{
    let mut avail: Vec<usize> = Vec::new();
    let mut j: usize = 0;
    while j <= BLANK_SLOT
        invariant
            j <= BLANK_SLOT + 1,
            avail@.len() == j,
            forall|t: int| 0 <= t < j ==> avail@[t] == 0,
        decreases BLANK_SLOT + 1 - j,
    {
        avail.push(0);
        j += 1;
    }
    let mut i: usize = 0;
    assert(rack@.take(0) =~= Seq::<RackLetter>::empty());
    while i < rack.len()
        invariant
            i <= rack.len(),
            avail@.len() == BLANK_SLOT + 1,
            forall|t: int| 0 <= t <= BLANK_SLOT ==> avail@[t] <= i,
            forall|x: RackLetter|
                (match x {
                    RackLetter::Blank => true,
                    RackLetter::Char(c) => is_letter(c),
                }) ==> #[trigger] stock(avail@, x) == count_of(rack@.take(i as int), x),
        decreases rack.len() - i,
    {
        let ghost before = avail@;
        let y = rack[i];
        let slot: Option<usize> = match y {
            RackLetter::Blank => Some(BLANK_SLOT),
            RackLetter::Char(c) => if check_letter(c) {
                Some(letter_to_index(c))
            } else {
                None
            },
        };
        match slot {
            Some(s) => {
                let n = avail[s];
                avail.set(s, n + 1);
            },
            None => {},
        }
        proof {
            assert(rack@.take(i + 1) =~= rack@.take(i as int).push(y));
            assert forall|x: RackLetter|
                (match x {
                    RackLetter::Blank => true,
                    RackLetter::Char(c) => is_letter(c),
                }) implies #[trigger] stock(avail@, x) == count_of(rack@.take(i + 1), x) by {
                lemma_count_push(rack@.take(i as int), y, x);
                assert(stock(before, x) == count_of(rack@.take(i as int), x));
            }
        }
        i += 1;
    }
    proof {
        assert(rack@.take(rack.len() as int) =~= rack@);
        assert(used(Seq::<TilePlacement>::empty()) =~= Seq::<RackLetter>::empty());
    }
    avail
}

/// Copies a list of placements.
pub fn copy_placements(v: &Vec<TilePlacement>) -> (r: Vec<TilePlacement>)
    ensures
        r@ == v@,
{
    let mut r: Vec<TilePlacement> = Vec::new();
    let mut i: usize = 0;
    while i < v.len()
        invariant
            i <= v.len(),
            r@ == v@.take(i as int),
        decreases v.len() - i,
    {
        r.push(v[i]);
        assert(v@.take(i + 1) =~= v@.take(i as int).push(v@[i as int]));
        i += 1;
    }
    assert(v@.take(v.len() as int) =~= v@);
    r
}

/// A walk from the anchor at `(row, col)` in direction `dir`, with the moves
/// that it has recorded.
pub struct MoveGenerator<'a> {
    board: &'a Board,
    graph: &'a Graph,
    row: usize,
    col: usize,
    dir: Direction,
    line: usize,
    anchor: usize,
    len: usize,
    moves: Vec<Vec<TilePlacement>>,
    rack: Ghost<Seq<RackLetter>>,
}

impl<'a> MoveGenerator<'a> {
    /// Where the walk takes place.
    pub closed spec fn site(&self) -> Site {
        Site {
            g: self.board@,
            dict: self.graph@,
            rack: self.rack@,
            d: self.dir,
            l: self.line as int,
            a: self.anchor as int,
        }
    }

    /// The generator's invariant: board and graph are well formed and go
    /// together, the anchor is an empty cell, and the moves recorded are
    /// plays that cover the anchor, each recorded once.
    pub closed spec fn ready(&self) -> bool {
        &&& self.board.wf()
        &&& self.graph.wf()
        &&& self.board.dictionary() == self.graph@
        &&& self.site().wf()
        &&& self.len == self.site().len()
        &&& self.row == self.site().row_at(self.anchor as int)
        &&& self.col == self.site().col_at(self.anchor as int)
        &&& sound(self.site(), self.moves@)
    }

    /// Whether two generators differ in the moves recorded at most.
    pub closed spec fn same_walk(&self, other: &Self) -> bool {
        &&& self.board == other.board
        &&& self.graph == other.graph
        &&& self.row == other.row
        &&& self.col == other.col
        &&& self.dir == other.dir
        &&& self.line == other.line
        &&& self.anchor == other.anchor
        &&& self.len == other.len
        &&& self.rack@ == other.rack@
    }

    /// What bounds the depth of the walk at cell `pos`: the cells still to
    /// pass, first to the left and then to the right of the anchor.
    pub closed spec fn budget(&self, pos: int) -> int {
        if pos <= self.anchor {
            self.len + pos + 1
        } else {
            self.len - pos
        }
    }

    /// The cell `pos` of the line of the walk.
    fn cell(&self, pos: usize) -> (rc: (usize, usize))
        requires
            self.ready(),
            pos < self.len,
        ensures
            rc.0 == self.site().row_at(pos as int),
            rc.1 == self.site().col_at(pos as int),
            rc.0 < self.board@.rows,
            rc.1 < self.board@.cols,
    {
        proof {
            lemma_cell(self.site(), pos as int);
        }
        match self.dir {
            Direction::Horizontal => (self.line, pos),
            Direction::Vertical => (pos, self.line),
        }
    }

    /// Whether cell `pos` of the line holds no tile, or lies beyond its end.
    fn clear_at(&self, pos: usize) -> (b: bool)
        requires
            self.ready(),
        ensures
            b == !filled(self.site().line(), pos as int),
    {
        proof {
            if pos < self.len {
                lemma_cell(self.site(), pos as int);
            }
            lemma_cell(self.site(), self.anchor as int);
        }
        pos >= self.len || self.board.tile_on(self.dir, self.line, pos).is_none()
    }

    /// Records the move `placements`, unless it is recorded already.
    fn record(&mut self, placements: &Vec<TilePlacement>)
        requires
            old(self).ready(),
            is_play(
                old(self).site().g,
                old(self).site().dict,
                old(self).site().rack,
                old(self).site().d,
                placements@,
            ),
            covers(
                placements@,
                old(self).site().row_at(old(self).site().a),
                old(self).site().col_at(old(self).site().a),
            ),
        ensures
            final(self).ready(),
            final(self).same_walk(old(self)),
            final(self).site() == old(self).site(),
            extends(final(self).moves@, old(self).moves@),
            recorded(final(self).moves@, placements@),
            final(self).moves@ == old(self).moves@ || (final(self).moves@.len() == old(self).moves@.len() + 1
                && final(self).moves@.last()@ == placements@),
    {
        if has_move(&self.moves, placements) {
            return;
        }
        let copy = copy_placements(placements);
        self.moves.push(copy);
        proof {
            reveal(sound);
            let s = self.site();
            assert forall|i: int| 0 <= i < self.moves@.len() implies is_play(
                s.g,
                s.dict,
                s.rack,
                s.d,
                (#[trigger] self.moves@[i])@,
            ) && covers(self.moves@[i]@, s.row_at(s.a), s.col_at(s.a)) by {
                if i < old(self).moves@.len() {
                    assert(self.moves@[i] == old(self).moves@[i]);
                }
            }
            assert(self.moves@[self.moves@.len() - 1]@ == placements@);
            assert forall|i: int, j: int| 0 <= i < j < self.moves@.len() implies (#[trigger] self.moves@[i])@
                != (#[trigger] self.moves@[j])@ by {
                assert(self.moves@[i] == old(self).moves@[i]);
                if j < old(self).moves@.len() {
                    assert(self.moves@[j] == old(self).moves@[j]);
                }
            }
        }
    }

    /// Finds the plays in direction `dir` that lay a tile of the rack on
    /// the anchor at `(row, col)`.
    pub fn generate_moves(
        board: &'a Board,
        graph: &'a Graph,
        rack: &[RackLetter],
        row: usize,
        col: usize,
        dir: Direction,
    ) -> (moves: Vec<Vec<TilePlacement>>)
        requires
            board.wf(),
            graph.wf(),
            board.dictionary() == graph@,
            row < board@.rows,
            col < board@.cols,
            !board@.occupied(row as int, col as int),
        ensures
            forall|i: int|
                0 <= i < moves@.len() ==> is_play(board@, graph@, rack@, dir, (#[trigger] moves@[i])@)
                    && covers(moves@[i]@, row as int, col as int),
            forall|m: Seq<TilePlacement>|
                #[trigger] is_play(board@, graph@, rack@, dir, m) && covers(m, row as int, col as int)
                    ==> recorded(moves@, m),
            distinct(moves@),
    {
        let rows = board.rows();
        let cols = board.cols();
        let (line, anchor, len) = match dir {
            Direction::Horizontal => (row, col, cols),
            Direction::Vertical => (col, row, rows),
        };
        let mut generator = MoveGenerator {
            board,
            graph,
            row,
            col,
            dir,
            line,
            anchor,
            len,
            moves: Vec::new(),
            rack: Ghost(rack@),
        };
        let mut avail = tally(rack);
        let mut placements: Vec<TilePlacement> = Vec::new();
        proof {
            board.lemma_grid_wf();
            let s = generator.site();
            assert(s.line()[anchor as int] == board@.tile(row as int, col as int));
            assert(s.wf());
            lemma_start(s, graph);
            reveal(sound);
        }
        generator.generate(
            &mut placements,
            anchor,
            &mut avail,
            graph.initial_arc(),
            Ghost(anchor + 1),
            Ghost(anchor as int),
        );
        proof {
            reveal(sound);
            let s = generator.site();
            assert forall|m: Seq<TilePlacement>|
                #[trigger] is_play(board@, graph@, rack@, dir, m) && covers(
                    m,
                    row as int,
                    col as int,
                ) implies recorded(generator.moves@, m) by {
                lemma_wanted_at_start(s, m);
            }
        }
        generator.moves
    }

    /// Passes cell `pos`: over the tile that the board holds there, or else
    /// with each tile of the rack that fits the cross-set of the cell.
    #[verifier::rlimit(60)]
    fn generate(
        &mut self,
        placements: &mut Vec<TilePlacement>,
        pos: usize,
        rack: &mut Vec<usize>,
        arc: &Arc,
        Ghost(lo): Ghost<int>,
        Ghost(hi): Ghost<int>,
    )
        requires
            old(self).ready(),
            at(old(self).site(), old(self).graph, pos as int, old(placements)@, *arc, lo, hi),
            balanced(old(self).site().rack, old(placements)@, old(rack)@),
        ensures
            final(self).ready(),
            final(self).same_walk(old(self)),
            final(self).site() == old(self).site(),
            extends(final(self).moves@, old(self).moves@),
            final(placements)@ == old(placements)@,
            final(rack)@ == old(rack)@,
            forall|m: Seq<TilePlacement>|
                #[trigger] wanted(old(self).site(), m, pos as int, old(placements)@, lo, hi) ==> recorded(
                    final(self).moves@,
                    m,
                ),
            added_wanted(
                old(self).site(),
                old(self).moves@,
                final(self).moves@,
                pos as int,
                old(placements)@,
                lo,
                hi,
            ),
            !filled(old(self).site().line(), pos as int) && (old(self).site().g.cross_set(
                old(self).site().dict,
                old(self).site().d,
                old(self).site().row_at(pos as int),
                old(self).site().col_at(pos as int),
            ) == Some(Set::<char>::empty()) || forall|j: int|
                0 <= j < old(rack)@.len() ==> old(rack)@[j] == 0) ==> final(self).moves@ == old(self).moves@,
        decreases old(self).budget(pos as int), 1int,
    {
        let ghost s = self.site();
        let ghost placed = placements@;
        let ghost start = self.moves@;
        proof {
            lemma_at_bounds(s, self.graph, pos as int, placed, *arc, lo, hi);
            lemma_cell(s, pos as int);
        }
        let (r, c) = self.cell(pos);
        match self.board.tile_at(r, c) {
            Some(tile) => {
                let next = arc.next_arc(Kind::Char(tile.to_char()));
                self.go_on(tile, false, placements, pos, rack, arc, next, Ghost(lo), Ghost(hi));
                proof {
                    assert forall|m: Seq<TilePlacement>| #[trigger]
                        wanted(s, m, pos as int, placed, lo, hi) implies recorded(self.moves@, m) by {
                        lemma_pass_tile(s, m, pos as int, placed, lo, hi, tile);
                    }
                    lemma_added_none(s, start, pos as int, placed, lo, hi, tile);
                    lemma_added_more(s, start, start, self.moves@, pos as int, placed, lo, hi, tile);
                }
            },
            None => {
                let cross = self.board.cross_set(r, c, self.dir);
                let mut x: usize = 0;
                proof {
                    assert forall|m: Seq<TilePlacement>| #[trigger]
                        due(s, m, pos as int, placed, lo, hi, 0) implies recorded(self.moves@, m) by {
                        reveal(due);
                        lemma_need(s, self.graph, m, pos as int, placed, *arc, lo, hi, rack@);
                    }
                    lemma_added_none(s, start, pos as int, placed, lo, hi, TileLetter::Blank('a'));
                }
                while x < ALPHABET_SIZE
                    invariant
                        x <= ALPHABET_SIZE,
                        start == old(self).moves@,
                        added_wanted(s, start, self.moves@, pos as int, placed, lo, hi),
                        set_of(cross) == Some(Set::<char>::empty()) || (forall|j: int|
                            0 <= j < rack@.len() ==> rack@[j] == 0) ==> self.moves@ == start,
                        forall|m: Seq<TilePlacement>| #[trigger]
                            due(s, m, pos as int, placed, lo, hi, x as int) ==> recorded(self.moves@, m),
                        self.ready(),
                        self.same_walk(old(self)),
                        s == self.site(),
                        s == old(self).site(),
                        at(s, self.graph, pos as int, placed, *arc, lo, hi),
                        balanced(s.rack, placed, rack@),
                        extends(self.moves@, old(self).moves@),
                        placements@ == placed,
                        rack@ == old(rack)@,
                        r == s.row_at(pos as int),
                        c == s.col_at(pos as int),
                        !filled(s.line(), pos as int),
                        set_of(cross) == s.g.cross_set(s.dict, s.d, r as int, c as int),
                        self.budget(pos as int) == old(self).budget(pos as int),
                    decreases ALPHABET_SIZE - x,
                {
                    let ch = index_to_letter(x);
                    let fits = match cross {
                        Some(set) => set.contains(ch),
                        None => true,
                    };
                    let ghost m0 = self.moves@;
                    let ghost mut m1 = self.moves@;
                    if fits {
                        let next = arc.next_arc(Kind::Char(ch));
                        let n = rack[x];
                        if n > 0 {
                            let tile = TileLetter::Char(ch);
                            rack.set(x, n - 1);
                            proof {
                                let q = with_tile(s, placed, tile, pos as int, true);
                                lemma_balance_step(
                                    s.rack,
                                    placed,
                                    q,
                                    s.placement(tile, pos as int),
                                    old(rack)@,
                                    rack@,
                                    x as int,
                                );
                            }
                            self.go_on(tile, true, placements, pos, rack, arc, next, Ghost(lo), Ghost(hi));
                            rack.set(x, n);
                            assert(rack@ =~= old(rack)@);
                            proof {
                                m1 = self.moves@;
                                lemma_added_more(s, start, m0, m1, pos as int, placed, lo, hi, tile);
                            }
                        }
                        let b = rack[BLANK_SLOT];
                        if b > 0 {
                            let tile = TileLetter::Blank(ch);
                            rack.set(BLANK_SLOT, b - 1);
                            proof {
                                let q = with_tile(s, placed, tile, pos as int, true);
                                lemma_balance_step(
                                    s.rack,
                                    placed,
                                    q,
                                    s.placement(tile, pos as int),
                                    old(rack)@,
                                    rack@,
                                    BLANK_SLOT as int,
                                );
                            }
                            self.go_on(tile, true, placements, pos, rack, arc, next, Ghost(lo), Ghost(hi));
                            rack.set(BLANK_SLOT, b);
                            assert(rack@ =~= old(rack)@);
                            proof {
                                lemma_added_more(s, start, m1, self.moves@, pos as int, placed, lo, hi, tile);
                            }
                        }
                    }
                    proof {
                        assert forall|m: Seq<TilePlacement>| #[trigger]
                            due(s, m, pos as int, placed, lo, hi, x + 1) implies recorded(self.moves@, m) by {
                            reveal(due);
                            if due(s, m, pos as int, placed, lo, hi, x as int) {
                                lemma_recorded_extends(m0, self.moves@, m);
                            } else {
                                lemma_need(s, self.graph, m, pos as int, placed, *arc, lo, hi, rack@);
                                reveal(wanted_with);
                                let t = s.cur(m)[pos as int]->0;
                                assert(t.letter() == ch);
                                match t {
                                    TileLetter::Char(_) => {
                                        assert(wanted_with(s, m, pos as int, placed, lo, hi, TileLetter::Char(ch)));
                                        lemma_recorded_extends(m1, self.moves@, m);
                                    },
                                    TileLetter::Blank(_) => {
                                        assert(wanted_with(s, m, pos as int, placed, lo, hi, TileLetter::Blank(ch)));
                                    },
                                }
                            }
                        }
                    }
                    x += 1;
                }
                proof {
                    assert forall|m: Seq<TilePlacement>| #[trigger]
                        wanted(s, m, pos as int, placed, lo, hi) implies recorded(self.moves@, m) by {
                        lemma_need(s, self.graph, m, pos as int, placed, *arc, lo, hi, rack@);
                        reveal(due);
                        assert(due(s, m, pos as int, placed, lo, hi, ALPHABET_SIZE as int));
                    }
                }
            },
        }
    }

    /// Goes on from cell `pos` with the tile `letter` on it: lays the tile
    /// where it is a new one, records the move where the tiles passed make
    /// a word that no tile of the board continues, and walks on, to the left
    /// while left of the anchor, and to the right from the anchor's right
    /// neighbour once the word cannot be continued to the left.
    #[verifier::rlimit(100)]
    fn go_on(
        &mut self,
        letter: TileLetter,
        fresh: bool,
        placements: &mut Vec<TilePlacement>,
        pos: usize,
        rack: &mut Vec<usize>,
        old_arc: &Arc,
        new_arc: Option<&Arc>,
        Ghost(lo): Ghost<int>,
        Ghost(hi): Ghost<int>,
    )
        requires
            old(self).ready(),
            at(old(self).site(), old(self).graph, pos as int, old(placements)@, *old_arc, lo, hi),
            may_pass(old(self).site(), letter, pos as int, fresh),
            balanced(
                old(self).site().rack,
                with_tile(old(self).site(), old(placements)@, letter, pos as int, fresh),
                old(rack)@,
            ),
            match new_arc {
                Some(a) => old_arc.next.child(Kind::Char(letter.letter())) == Some(*a),
                None => old_arc.next.child(Kind::Char(letter.letter())) is None,
            },
        ensures
            final(self).ready(),
            final(self).same_walk(old(self)),
            final(self).site() == old(self).site(),
            extends(final(self).moves@, old(self).moves@),
            final(placements)@ == old(placements)@,
            final(rack)@ == old(rack)@,
            forall|m: Seq<TilePlacement>|
                #[trigger] wanted_with(old(self).site(), m, pos as int, old(placements)@, lo, hi, letter)
                    ==> recorded(final(self).moves@, m),
            added_wanted_with(
                old(self).site(),
                old(self).moves@,
                final(self).moves@,
                pos as int,
                old(placements)@,
                lo,
                hi,
                letter,
            ),
        decreases old(self).budget(pos as int), 0int,
    {
        let ghost s = self.site();
        let ghost placed = placements@;
        let ghost next = with_tile(s, placed, letter, pos as int, fresh);
        let ghost start = self.moves@;
        proof {
            lemma_at_bounds(s, self.graph, pos as int, placed, *old_arc, lo, hi);
            lemma_cell(s, pos as int);
            lemma_added_none(s, start, pos as int, placed, lo, hi, letter);
        }
        let (r, c) = self.cell(pos);
        let ends = old_arc.letter_set.contains(letter.to_char());
        if pos <= self.anchor {
            // moving left
            if fresh {
                placements.insert(0, TilePlacement { letter, row: r, col: c });
                assert(placements@ =~= next);
            }
            proof {
                lemma_go_left(s, self.graph, pos as int, placed, *old_arc, lo, hi, letter, fresh, rack@);
            }
            let left_clear = pos == 0 || self.clear_at(pos - 1);
            let right_clear = self.clear_at(self.anchor + 1);
            // record the play if the letter ends a word and no tile of the
            // board continues the word on either side
            if ends && left_clear && right_clear {
                self.record(placements);
                proof {
                    lemma_added_record(
                        s,
                        self.graph,
                        pos as int,
                        placed,
                        *old_arc,
                        lo,
                        hi,
                        letter,
                        fresh,
                        start,
                        self.moves@,
                    );
                }
            }
            let ghost m0 = self.moves@;
            let ghost mut m1 = self.moves@;
            match new_arc {
                Some(arc) => {
                    if pos > 0 {
                        self.generate(placements, pos - 1, rack, arc, Ghost(pos as int), Ghost(hi));
                        proof {
                            lemma_added_step(
                                s,
                                self.graph,
                                pos as int,
                                placed,
                                *old_arc,
                                lo,
                                hi,
                                letter,
                                fresh,
                                m0,
                                self.moves@,
                                pos - 1,
                                pos as int,
                                hi,
                            );
                            lemma_added_twice(s, start, m0, self.moves@, pos as int, placed, lo, hi, letter);
                        }
                    }
                    proof {
                        m1 = self.moves@;
                    }
                    if left_clear && self.anchor + 1 < self.len {
                        match arc.next_arc(Kind::Delim) {
                            Some(turn) => {
                                self.generate(
                                    placements,
                                    self.anchor + 1,
                                    rack,
                                    turn,
                                    Ghost(pos as int),
                                    Ghost(hi),
                                );
                                proof {
                                    lemma_added_step(
                                        s,
                                        self.graph,
                                        pos as int,
                                        placed,
                                        *old_arc,
                                        lo,
                                        hi,
                                        letter,
                                        fresh,
                                        m1,
                                        self.moves@,
                                        s.a + 1,
                                        pos as int,
                                        hi,
                                    );
                                    lemma_added_twice(s, start, m1, self.moves@, pos as int, placed, lo, hi, letter);
                                }
                            },
                            None => {},
                        }
                    }
                },
                None => {},
            }
            proof {
                assert forall|m: Seq<TilePlacement>| #[trigger]
                    wanted_with(s, m, pos as int, placed, lo, hi, letter) implies recorded(self.moves@, m) by {
                    lemma_left_complete(s, self.graph, m, pos as int, placed, *old_arc, lo, hi, letter, fresh);
                    if span_lo(s, m) < pos {
                        lemma_recorded_extends(m1, self.moves@, m);
                    } else if span_hi(s, m) > s.a {
                    } else {
                        lemma_recorded_extends(m0, self.moves@, m);
                    }
                }
            }
            if fresh {
                placements.remove(0);
                assert(placements@ =~= placed);
            }
        } else {
            // moving right
            if fresh {
                placements.push(TilePlacement { letter, row: r, col: c });
                assert(placements@ =~= next);
            }
            proof {
                lemma_go_right(s, self.graph, pos as int, placed, *old_arc, lo, hi, letter, fresh, rack@);
            }
            let right_clear = self.clear_at(pos + 1);
            if ends && right_clear {
                self.record(placements);
                proof {
                    lemma_added_record(
                        s,
                        self.graph,
                        pos as int,
                        placed,
                        *old_arc,
                        lo,
                        hi,
                        letter,
                        fresh,
                        start,
                        self.moves@,
                    );
                }
            }
            let ghost m0 = self.moves@;
            if pos + 1 < self.len {
                match new_arc {
                    Some(arc) => {
                        self.generate(placements, pos + 1, rack, arc, Ghost(lo), Ghost(pos as int));
                        proof {
                            lemma_added_step(
                                s,
                                self.graph,
                                pos as int,
                                placed,
                                *old_arc,
                                lo,
                                hi,
                                letter,
                                fresh,
                                m0,
                                self.moves@,
                                pos + 1,
                                lo,
                                pos as int,
                            );
                            lemma_added_twice(s, start, m0, self.moves@, pos as int, placed, lo, hi, letter);
                        }
                    },
                    None => {},
                }
            }
            proof {
                assert forall|m: Seq<TilePlacement>| #[trigger]
                    wanted_with(s, m, pos as int, placed, lo, hi, letter) implies recorded(self.moves@, m) by {
                    lemma_right_complete(s, self.graph, m, pos as int, placed, *old_arc, lo, hi, letter, fresh);
                    if span_hi(s, m) > pos {
                    } else {
                        lemma_recorded_extends(m0, self.moves@, m);
                    }
                }
            }
            if fresh {
                placements.pop();
                assert(placements@ =~= placed);
            }
        }
    }
}

} // verus!
