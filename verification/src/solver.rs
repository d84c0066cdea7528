//! The solver: a word graph, a board and a scoring policy, with the three
//! operations that a game needs: add a word to the dictionary, lay a move
//! on the board, and find the legal moves for a rack, ranked by score.
use vstd::prelude::*;
use crate::board::Board;
use crate::dag::{is_valid_word, valid_word, word_chars, Graph};
use crate::grid::{placement_error, Grid};
use crate::movegen::{recorded, MoveGenerator};
use crate::plays::{covers, is_legal, is_play, on_anchor, play_direction};
use crate::ranking::{find_placement, holds, insert_ranked, ranked, views, Ranked, Solution};
use crate::scoring::{clamp, Scoring, BINGO_BONUS};
use crate::tiles::{Direction, RackLetter, SolverError, TilePlacement};

verus! {

/// The score of the move `m`, counted in the direction in which it is a play.
pub open spec fn score_of(
    sc: &Scoring,
    g: Grid,
    dict: Set<Seq<char>>,
    rack: Seq<RackLetter>,
    m: Seq<TilePlacement>,
) -> u32 {
    clamp(sc.total(g, play_direction(g, dict, rack, m), m, rack.len() as int))
}

/// Whether every solution of the ranked list `v` is a legal move with its score.
pub open spec fn all_legal(
    sc: &Scoring,
    g: Grid,
    dict: Set<Seq<char>>,
    rack: Seq<RackLetter>,
    v: Seq<Ranked>,
) -> bool {
    &&& ranked(v)
    &&& forall|i: int|
        0 <= i < v.len() ==> is_legal(g, dict, rack, (#[trigger] v[i]).placement) && v[i].score == score_of(
            sc,
            g,
            dict,
            rack,
            v[i].placement,
        )
}

/// Whether `v` is the ranking of the legal moves: a ranked list of legal
/// moves, each with its score, that holds every legal move.
pub open spec fn is_ranking(
    sc: &Scoring,
    g: Grid,
    dict: Set<Seq<char>>,
    rack: Seq<RackLetter>,
    v: Seq<Ranked>,
) -> bool {
    &&& all_legal(sc, g, dict, rack, v)
    &&& forall|m: Seq<TilePlacement>| #[trigger] is_legal(g, dict, rack, m) ==> holds(v, m)
}

/// Whether the list holds every play in direction `d` that lays a tile on
/// one of the first `k` of the cells `anchors`.
pub open spec fn covered(
    g: Grid,
    dict: Set<Seq<char>>,
    rack: Seq<RackLetter>,
    d: Direction,
    anchors: Seq<(usize, usize)>,
    k: int,
    v: Seq<Ranked>,
) -> bool {
    forall|m: Seq<TilePlacement>, i: int|
        #![trigger is_play(g, dict, rack, d, m), anchors[i]]
        is_play(g, dict, rack, d, m) && 0 <= i < k && covers(m, anchors[i].0 as int, anchors[i].1 as int)
            ==> holds(v, m)
}

/// Whether the list holds every play in direction `d` that lays a tile on an anchor.
pub open spec fn complete(
    g: Grid,
    dict: Set<Seq<char>>,
    rack: Seq<RackLetter>,
    d: Direction,
    v: Seq<Ranked>,
) -> bool {
    forall|m: Seq<TilePlacement>| #[trigger] is_play(g, dict, rack, d, m) && on_anchor(g, m) ==> holds(v, m)
}

/// Whether the list `after` holds the placements of every solution of `before`.
pub open spec fn keeps(before: Seq<Ranked>, after: Seq<Ranked>) -> bool {
    forall|m: Seq<TilePlacement>| #[trigger] holds(before, m) ==> holds(after, m)
}

/// A list with one more solution holds what it held, and the new one.
pub proof fn lemma_insert_holds(before: Seq<Ranked>, p: int, x: Ranked)
    requires
        0 <= p <= before.len(),
    ensures
        keeps(before, before.insert(p, x)),
        holds(before.insert(p, x), x.placement),
        forall|i: int|
            0 <= i < before.insert(p, x).len() ==> (#[trigger] before.insert(p, x)[i]) == x || before.contains(
                before.insert(p, x)[i],
            ),
{
    let after = before.insert(p, x);
    assert forall|m: Seq<TilePlacement>| #[trigger] holds(before, m) implies holds(after, m) by {
        let i = choose|i: int| 0 <= i < before.len() && (#[trigger] before[i]).placement == m;
        if i < p {
            assert(after[i] == before[i]);
        } else {
            assert(after[i + 1] == before[i]);
        }
    }
    assert(after[p] == x);
    assert forall|i: int| 0 <= i < after.len() implies (#[trigger] after[i]) == x || before.contains(
        after[i],
    ) by {
        if i < p {
            assert(after[i] == before[i]);
        } else if i > p {
            assert(after[i] == before[i - 1]);
        }
    }
}

/// The solver.
pub struct Solver {
    graph: Graph,
    board: Board,
    scoring: Scoring,
}

impl Solver {
    /// The tiles on the board.
    pub closed spec fn grid(&self) -> Grid {
        self.board@
    }

    /// The words of the dictionary.
    pub closed spec fn dictionary(&self) -> Set<Seq<char>> {
        self.graph@
    }

    /// The scoring policy.
    pub closed spec fn policy(&self) -> &Scoring {
        &self.scoring
    }

    /// The solver's invariant: graph and board keep theirs, and the
    /// cross-sets of the board are those for the dictionary of the graph.
    pub closed spec fn wf(&self) -> bool {
        &&& self.graph.wf()
        &&& self.board.wf()
        &&& self.board.dictionary() == self.graph@
    }

    /// The grid of a solver has odd dimensions and tiles on its cells only.
    pub proof fn lemma_grid_wf(&self)
        requires
            self.wf(),
        ensures
            self.grid().wf(),
    {
        self.board.lemma_grid_wf();
    }

    /// A solver with an empty dictionary, a board of `rows` by `cols` cells
    /// without tiles, and the scoring policy `scoring`.  Fails where a
    /// dimension is even or zero.
    pub fn with_scoring(rows: usize, cols: usize, scoring: Scoring) -> (r: Result<Solver, SolverError>)
        requires
            rows % 2 == 1 && cols % 2 == 1 ==> rows * cols <= usize::MAX,
        ensures
            match r {
                Ok(s) => {
                    &&& rows % 2 == 1
                    &&& cols % 2 == 1
                    &&& s.wf()
                    &&& s.grid().rows == rows
                    &&& s.grid().cols == cols
                    &&& s.grid().is_blank()
                    &&& s.dictionary() == Set::<Seq<char>>::empty()
                    &&& *s.policy() == scoring
                },
                Err(e) => e == SolverError::InvalidDimensions && (rows % 2 == 0 || cols % 2 == 0),
            },
    {
        match Board::new(rows, cols) {
            Ok(board) => Ok(Solver { graph: Graph::new(), board, scoring }),
            Err(e) => Err(e),
        }
    }

    /// A solver with an empty dictionary, a board of `rows` by `cols` cells
    /// without tiles, and the flat scoring policy: one point for each
    /// letter, no premium.  Fails where a dimension is even or zero.
    pub fn new(rows: usize, cols: usize) -> (r: Result<Solver, SolverError>)
        requires
            rows % 2 == 1 && cols % 2 == 1 ==> rows * cols <= usize::MAX,
        ensures
            match r {
                Ok(s) => {
                    &&& rows % 2 == 1
                    &&& cols % 2 == 1
                    &&& s.wf()
                    &&& s.grid().rows == rows
                    &&& s.grid().cols == cols
                    &&& s.grid().is_blank()
                    &&& s.dictionary() == Set::<Seq<char>>::empty()
                    &&& s.policy().premiums@.len() == 0
                    &&& s.policy().letter_values@.len() == 26
                    &&& forall|i: int| 0 <= i < 26 ==> s.policy().letter_values@[i] == 1
                    &&& s.policy().bingo_bonus == BINGO_BONUS
                    &&& s.policy().bingo_threshold is None
                },
                Err(e) => e == SolverError::InvalidDimensions && (rows % 2 == 0 || cols % 2 == 0),
            },
    {
        Solver::with_scoring(rows, cols, Scoring::flat())
    }

    /// The board.
    pub fn board(&self) -> (b: &Board)
        ensures
            b@ == self.grid(),
            self.wf() ==> b.wf() && b.dictionary() == self.dictionary(),
    {
        &self.board
    }

    /// The word graph.
    pub fn graph(&self) -> (g: &Graph)
        ensures
            g@ == self.dictionary(),
            self.wf() ==> g.wf(),
    {
        &self.graph
    }

    /// The scoring policy.
    pub fn scoring(&self) -> (sc: &Scoring)
        ensures
            sc == self.policy(),
    {
        &self.scoring
    }

    /// Adds a word to the dictionary.  Fails, and changes nothing, where the
    /// word is empty or holds a character outside the alphabet.
    pub fn add_dictionary_word(&mut self, word: &str) -> (r: Result<(), SolverError>)
        requires
            old(self).wf(),
        ensures
            match r {
                Ok(()) => {
                    &&& valid_word(word@)
                    &&& final(self).wf()
                    &&& final(self).dictionary() == old(self).dictionary().insert(word@)
                    &&& final(self).grid() == old(self).grid()
                    &&& final(self).policy() == old(self).policy()
                },
                Err(e) => e == SolverError::InvalidWord && !valid_word(word@) && *final(self) == *old(self),
            },
    {
        let chars = word_chars(word);
        if !is_valid_word(&chars) {
            return Err(SolverError::InvalidWord);
        }
        self.graph.add_chars(&chars);
        self.board.set_dictionary(&self.graph);
        Ok(())
    }

    /// Lays a move on the board.  Fails, and changes nothing, where the
    /// move breaks a rule (see `placement_error`).
    pub fn place_tiles(&mut self, placements: Vec<TilePlacement>) -> (r: Result<(), SolverError>)
        requires
            old(self).wf(),
        ensures
            match r {
                Ok(()) => {
                    &&& placement_error(old(self).grid(), placements@) is None
                    &&& final(self).wf()
                    &&& final(self).grid() == old(self).grid().place(placements@)
                    &&& final(self).dictionary() == old(self).dictionary()
                    &&& final(self).policy() == old(self).policy()
                },
                Err(e) => placement_error(old(self).grid(), placements@) == Some(e) && *final(self) == *old(
                    self,
                ),
            },
    {
        self.board.place_tiles(&self.graph, &placements)
    }

    /// Finds the plays in direction `dir` through the anchor at
    /// `(row, col)` and puts those that the list does not hold yet into the
    /// list, each with its score at its rank.
    fn generate_moves_in_dir(
        &self,
        rack: &[RackLetter],
        row: usize,
        col: usize,
        dir: Direction,
        solutions: &mut Vec<Solution>,
    )
        requires
            self.wf(),
            self.board@.is_anchor(row as int, col as int),
            all_legal(&self.scoring, self.board@, self.graph@, rack@, views(old(solutions)@)),
            dir == Direction::Vertical ==> complete(
                self.board@,
                self.graph@,
                rack@,
                Direction::Horizontal,
                views(old(solutions)@),
            ),
        ensures
            all_legal(&self.scoring, self.board@, self.graph@, rack@, views(final(solutions)@)),
            keeps(views(old(solutions)@), views(final(solutions)@)),
            forall|m: Seq<TilePlacement>|
                #[trigger] is_play(self.board@, self.graph@, rack@, dir, m) && covers(
                    m,
                    row as int,
                    col as int,
                ) ==> holds(views(final(solutions)@), m),
    {
        let ghost g = self.board@;
        let ghost dict = self.graph@;
        let mut moves = MoveGenerator::generate_moves(&self.board, &self.graph, rack, row, col, dir);
        let ghost found = moves@;
        let ghost start = views(solutions@);
        while moves.len() > 0
            invariant
                self.wf(),
                g == self.board@,
                dict == self.graph@,
                g.is_anchor(row as int, col as int),
                moves@.len() <= found.len(),
                moves@ == found.take(moves@.len() as int),
                forall|i: int|
                    0 <= i < found.len() ==> is_play(g, dict, rack@, dir, (#[trigger] found[i])@) && covers(
                        found[i]@,
                        row as int,
                        col as int,
                    ),
                all_legal(&self.scoring, g, dict, rack@, views(solutions@)),
                keeps(start, views(solutions@)),
                dir == Direction::Vertical ==> complete(g, dict, rack@, Direction::Horizontal, start),
                forall|i: int| moves@.len() <= i < found.len() ==> holds(views(solutions@), (#[trigger] found[i])@),
            decreases moves.len(),
        {
            let ghost before = views(solutions@);
            let ghost n = moves@.len() - 1;
            let mv = moves.pop().unwrap();
            proof {
                assert(mv == found[n]);
                assert(moves@ =~= found.take(n));
                assert(is_play(g, dict, rack@, dir, found[n]@));
                let i = choose|i: int| 0 <= i < mv@.len() && (#[trigger] mv@[i]).row == row && mv@[i].col == col;
                assert(g.is_anchor(mv@[i].row as int, mv@[i].col as int));
                assert(on_anchor(g, mv@));
            }
            if !find_placement(solutions, &mv) {
                proof {
                    if dir == Direction::Vertical && is_play(g, dict, rack@, Direction::Horizontal, mv@) {
                        assert(holds(start, mv@));
                        assert(holds(before, mv@));
                    }
                    assert(play_direction(g, dict, rack@, mv@) == dir);
                    assert(is_legal(g, dict, rack@, mv@));
                }
                let score = self.scoring.score_play(&self.board, dir, &mv, rack.len());
                let sol = Solution { placement: mv, score };
                let ghost x = sol@;
                insert_ranked(solutions, sol);
                proof {
                    let p = choose|p: int|
                        0 <= p <= before.len() && views(solutions@) == #[trigger] before.insert(p, x);
                    lemma_insert_holds(before, p, x);
                    let after = views(solutions@);
                    assert forall|i: int| 0 <= i < after.len() implies is_legal(
                        g,
                        dict,
                        rack@,
                        (#[trigger] after[i]).placement,
                    ) && after[i].score == score_of(&self.scoring, g, dict, rack@, after[i].placement) by {
                        if after[i] != x {
                            let j = choose|j: int| 0 <= j < before.len() && before[j] == after[i];
                            assert(is_legal(g, dict, rack@, before[j].placement));
                        }
                    }
                }
            }
            proof {
                let after = views(solutions@);
                assert forall|i: int| moves@.len() <= i < found.len() implies holds(
                    after,
                    (#[trigger] found[i])@,
                ) by {
                    if i > n {
                        assert(holds(before, found[i]@));
                    }
                }
            }
        }
        proof {
            assert forall|m: Seq<TilePlacement>|
                #[trigger] is_play(g, dict, rack@, dir, m) && covers(m, row as int, col as int) implies holds(
                views(solutions@),
                m,
            ) by {
                assert(recorded(found, m));
                let i = choose|i: int| 0 <= i < found.len() && (#[trigger] found[i])@ == m;
                assert(holds(views(solutions@), found[i]@));
            }
        }
    }

    /// Finds the plays in direction `dir` through each of the anchors and
    /// puts those that the list does not hold yet into the list.
    fn generate_all_in_dir(
        &self,
        rack: &[RackLetter],
        anchors: &Vec<(usize, usize)>,
        dir: Direction,
        solutions: &mut Vec<Solution>,
    )
        requires
            self.wf(),
            forall|i: int|
                0 <= i < anchors@.len() ==> self.board@.is_anchor(
                    (#[trigger] anchors@[i]).0 as int,
                    anchors@[i].1 as int,
                ),
            forall|r: int, c: int|
                #[trigger] self.board@.is_anchor(r, c) ==> anchors@.contains((r as usize, c as usize)),
            all_legal(&self.scoring, self.board@, self.graph@, rack@, views(old(solutions)@)),
            dir == Direction::Vertical ==> complete(
                self.board@,
                self.graph@,
                rack@,
                Direction::Horizontal,
                views(old(solutions)@),
            ),
        ensures
            all_legal(&self.scoring, self.board@, self.graph@, rack@, views(final(solutions)@)),
            keeps(views(old(solutions)@), views(final(solutions)@)),
            complete(self.board@, self.graph@, rack@, dir, views(final(solutions)@)),
    {
        let ghost g = self.board@;
        let ghost dict = self.graph@;
        let ghost start = views(solutions@);
        let mut k: usize = 0;
        while k < anchors.len()
            invariant
                self.wf(),
                g == self.board@,
                dict == self.graph@,
                k <= anchors.len(),
                forall|i: int|
                    0 <= i < anchors@.len() ==> g.is_anchor((#[trigger] anchors@[i]).0 as int, anchors@[i].1 as int),
                all_legal(&self.scoring, g, dict, rack@, views(solutions@)),
                keeps(start, views(solutions@)),
                dir == Direction::Vertical ==> complete(g, dict, rack@, Direction::Horizontal, views(solutions@)),
                covered(g, dict, rack@, dir, anchors@, k as int, views(solutions@)),
            decreases anchors.len() - k,
        {
            let ghost before = views(solutions@);
            let (row, col) = anchors[k];
            assert(g.is_anchor(anchors@[k as int].0 as int, anchors@[k as int].1 as int));
            self.generate_moves_in_dir(rack, row, col, dir, solutions);
            proof {
                let after = views(solutions@);
                assert forall|m: Seq<TilePlacement>, i: int|
                    #![trigger is_play(g, dict, rack@, dir, m), anchors@[i]]
                    is_play(g, dict, rack@, dir, m) && 0 <= i < k + 1 && covers(
                        m,
                        anchors@[i].0 as int,
                        anchors@[i].1 as int,
                    ) implies holds(after, m) by {
                    if i < k {
                        assert(holds(before, m));
                    }
                }
                if dir == Direction::Vertical {
                    assert forall|m: Seq<TilePlacement>|
                        #[trigger] is_play(g, dict, rack@, Direction::Horizontal, m) && on_anchor(
                            g,
                            m,
                        ) implies holds(after, m) by {
                        assert(holds(before, m));
                    }
                }
            }
            k += 1;
        }
        proof {
            let after = views(solutions@);
            assert forall|m: Seq<TilePlacement>|
                #[trigger] is_play(g, dict, rack@, dir, m) && on_anchor(g, m) implies holds(after, m) by {
                let i = choose|i: int|
                    0 <= i < m.len() && g.is_anchor((#[trigger] m[i]).row as int, m[i].col as int);
                let cell = (m[i].row, m[i].col);
                assert(anchors@.contains((m[i].row as int as usize, m[i].col as int as usize)));
                let j = choose|j: int| 0 <= j < anchors@.len() && anchors@[j] == cell;
                assert(covers(m, anchors@[j].0 as int, anchors@[j].1 as int));
            }
        }
    }

    /// Finds every legal move for the rack, ranked.
    pub fn all_moves(&self, rack: &[RackLetter]) -> (solutions: Vec<Solution>)
        requires
            self.wf(),
        ensures
            is_ranking(self.policy(), self.grid(), self.dictionary(), rack@, views(solutions@)),
    {
        let mut solutions: Vec<Solution> = Vec::new();
        let anchors = self.board.anchor_cells();
        self.generate_all_in_dir(rack, &anchors, Direction::Horizontal, &mut solutions);
        self.generate_all_in_dir(rack, &anchors, Direction::Vertical, &mut solutions);
        solutions
    }

    /// Finds the legal moves for the rack: the first `limit` of their
    /// ranking, or all of them where no limit is given.
    pub fn generate_moves(&self, rack: &[RackLetter], limit: Option<usize>) -> (solutions: Vec<Solution>)
        requires
            self.wf(),
        ensures
            exists|full: Seq<Ranked>|
                #[trigger] is_ranking(self.policy(), self.grid(), self.dictionary(), rack@, full) && views(
                    solutions@,
                ) == (match limit {
                    Some(k) => if k < full.len() {
                        full.take(k as int)
                    } else {
                        full
                    },
                    None => full,
                }),
    {
        let mut solutions = self.all_moves(rack);
        let ghost full = views(solutions@);
        match limit {
            Some(k) => {
                if k < solutions.len() {
                    solutions.truncate(k);
                    assert(views(solutions@) =~= full.take(k as int));
                }
            },
            None => {},
        }
        assert(is_ranking(self.policy(), self.grid(), self.dictionary(), rack@, full));
        solutions
    }
}

} // verus!
