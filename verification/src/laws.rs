//! What holds of the solver whatever the board, the dictionary and the rack.
use vstd::prelude::*;
use crate::grid::{
    all_in_bounds, cross_pos, filled, lemma_place_tile, lemma_put_line, lemma_run_after_is,
    lemma_run_before_is, line_of, pos_of, word_through, Grid, Line,
};
use crate::letters::{all_letters, is_letter};
use crate::plays::{
    count_of, covers, is_legal, is_play, lay, lemma_count_is_multiset_count, lemma_lay, main_line,
    main_word, play_direction, used,
};
use crate::ranking::{holds, lemma_ranking_unique, ranked, Ranked};
use crate::scoring::Scoring;
use crate::solver::{is_ranking, score_of};
use crate::tiles::{Direction, RackLetter, TileLetter, TilePlacement};

verus! {

/// The line of a move after the move: the line with the tiles of the move laid on it.
pub proof fn lemma_place_line(g: Grid, m: Seq<TilePlacement>, d: Direction, l: int)
    requires
        all_in_bounds(g, m),
        forall|i: int| 0 <= i < m.len() ==> line_of(d, #[trigger] m[i]) == l,
    ensures
        g.place(m).line(d, l) == lay(g.line(d, l), d, m),
    decreases m.len(),
{
    if m.len() > 0 {
        let rest = m.drop_last();
        assert forall|i: int| 0 <= i < rest.len() implies g.in_bounds(
            (#[trigger] rest[i]).row as int,
            rest[i].col as int,
        ) && line_of(d, rest[i]) == l by {
            assert(rest[i] == m[i]);
        }
        lemma_place_line(g, rest, d, l);
        let p = m.last();
        assert(p == m[m.len() - 1]);
        lemma_place_tile(g, rest, 0, 0);
        lemma_put_line(g.place(rest), p, d, l);
    }
}

/// A line that crosses the line of a move, after the move: the line with
/// the one tile of the move that lies on it, or else the line as it was.
pub proof fn lemma_place_cross_line(g: Grid, m: Seq<TilePlacement>, d: Direction, l: int)
    requires
        all_in_bounds(g, m),
        forall|i: int, j: int| 0 <= i < j < m.len() ==> pos_of(d, #[trigger] m[i]) != pos_of(d, #[trigger] m[j]),
    ensures
        forall|i: int|
            0 <= i < m.len() && pos_of(d, #[trigger] m[i]) == l ==> g.place(m).line(d.cross(), l) == g.line(
                d.cross(),
                l,
            ).update(line_of(d, m[i]), Some(m[i].letter)),
        (forall|i: int| 0 <= i < m.len() ==> pos_of(d, #[trigger] m[i]) != l) ==> g.place(m).line(d.cross(), l)
            == g.line(d.cross(), l),
    decreases m.len(),
{
    if m.len() > 0 {
        let rest = m.drop_last();
        let p = m.last();
        let cd = d.cross();
        assert(p == m[m.len() - 1]);
        assert forall|i: int| 0 <= i < rest.len() implies g.in_bounds(
            (#[trigger] rest[i]).row as int,
            rest[i].col as int,
        ) by {
            assert(rest[i] == m[i]);
        }
        assert forall|i: int, j: int| 0 <= i < j < rest.len() implies pos_of(d, #[trigger] rest[i]) != pos_of(
            d,
            #[trigger] rest[j],
        ) by {
            assert(rest[i] == m[i] && rest[j] == m[j]);
        }
        lemma_place_cross_line(g, rest, d, l);
        lemma_place_tile(g, rest, 0, 0);
        lemma_put_line(g.place(rest), p, cd, l);
        assert(line_of(cd, p) == pos_of(d, p));
        assert(pos_of(cd, p) == line_of(d, p));
        assert forall|i: int| 0 <= i < m.len() && pos_of(d, #[trigger] m[i]) == l implies g.place(m).line(
            cd,
            l,
        ) == g.line(cd, l).update(line_of(d, m[i]), Some(m[i].letter)) by {
            if i < rest.len() {
                assert(rest[i] == m[i]);
                assert(pos_of(d, m[i]) != pos_of(d, m[m.len() - 1]));
            } else {
                assert forall|j: int| 0 <= j < rest.len() implies pos_of(d, #[trigger] rest[j]) != l by {
                    assert(rest[j] == m[j]);
                    assert(pos_of(d, m[j]) != pos_of(d, m[m.len() - 1]));
                }
            }
        }
        if forall|i: int| 0 <= i < m.len() ==> pos_of(d, #[trigger] m[i]) != l {
            assert forall|j: int| 0 <= j < rest.len() implies pos_of(d, #[trigger] rest[j]) != l by {
                assert(rest[j] == m[j]);
            }
            assert(pos_of(d, m[m.len() - 1]) != l);
        }
    }
}

/// The runs of tiles around a cell and the letters of a stretch around it
/// do not depend on which tile, of those that show the same character, the
/// cell holds.
pub proof fn lemma_same_letter_same_word(line: Line, k: int, a: TileLetter, b: TileLetter)
    requires
        0 <= k < line.len(),
        a.letter() == b.letter(),
    ensures
        word_through(line.update(k, Some(a)), k) == word_through(line.update(k, Some(b)), k),
{
    let la = line.update(k, Some(a));
    let lb = line.update(k, Some(b));
    crate::board::lemma_run_before_frame(la, lb, k);
    crate::board::lemma_run_after_frame(la, lb, k);
    crate::grid::lemma_run_before(la, k);
    crate::grid::lemma_run_after(la, k);
    assert(word_through(la, k) =~= word_through(lb, k));
}

/// Every word that a legal move forms is in the dictionary: the main word,
/// read along the direction of the move on the board after the move, and,
/// for each tile of the move that joins tiles across that direction, the
/// cross-word through the tile, read on the board after the move.
pub proof fn law_words_in_dictionary(
    g: Grid,
    dict: Set<Seq<char>>,
    rack: Seq<RackLetter>,
    m: Seq<TilePlacement>,
    i: int,
)
    requires
        g.wf(),
        is_legal(g, dict, rack, m),
        0 <= i < m.len(),
    ensures
        ({
            let d = play_direction(g, dict, rack, m);
            let after = g.place(m);
            let main = after.line(d, line_of(d, m[0]));
            let cross = after.line(d.cross(), pos_of(d, m[i]));
            let k = line_of(d, m[i]);
            &&& dict.contains(word_through(main, pos_of(d, m[0])))
            &&& g.has_cross(d, m[i].row as int, m[i].col as int) == (filled(cross, k - 1) || filled(cross, k + 1))
            &&& filled(cross, k - 1) || filled(cross, k + 1) ==> dict.contains(word_through(cross, k))
        }),
{
    let d = play_direction(g, dict, rack, m);
    let after = g.place(m);
    let p = m[i];
    let r = p.row as int;
    let c = p.col as int;
    let x = p.letter.letter();
    let cd = d.cross();
    let l = pos_of(d, p);
    let k = line_of(d, p);
    let cl = g.line(cd, l);
    assert(is_play(g, dict, rack, d, m));
    lemma_place_line(g, m, d, line_of(d, m[0]));
    assert(main_line(g, d, m) == after.line(d, line_of(d, m[0])));
    assert(dict.contains(main_word(g, d, m)));
    lemma_place_cross_line(g, m, d, l);
    assert(g.in_bounds(r, c));
    assert(!g.occupied(r, c));
    assert(crate::tiles::valid_tile(p.letter));
    assert(g.cross_line(d, r, c) == cl);
    assert(cross_pos(d, r, c) == k);
    assert(cl.len() == g.line_len(cd));
    let cross = after.line(cd, l);
    assert(cross == cl.update(k, Some(p.letter)));
    assert(filled(cross, k - 1) == filled(cl, k - 1));
    assert(filled(cross, k + 1) == filled(cl, k + 1));
    if g.has_cross(d, r, c) {
        assert(!g.is_blank()) by {
            if filled(cl, k - 1) {
                assert(cl[k - 1] == g.tile_on(cd, l, k - 1));
            } else {
                assert(cl[k + 1] == g.tile_on(cd, l, k + 1));
            }
        }
        assert(g.cross_ok(dict, d, r, c, x));
        assert(dict.contains(g.cross_word(d, r, c, TileLetter::Char(x))));
        lemma_same_letter_same_word(cl, k, TileLetter::Char(x), p.letter);
    }
}

/// The tiles of a legal move come from the rack: as a multiset, the rack
/// letters that the move uses up are within the rack.  Every tile, a blank
/// too, shows a letter of the alphabet.
pub proof fn law_tiles_from_rack(g: Grid, dict: Set<Seq<char>>, rack: Seq<RackLetter>, m: Seq<TilePlacement>)
    requires
        is_legal(g, dict, rack, m),
    ensures
        used(m).to_multiset().subset_of(rack.to_multiset()),
        forall|i: int| 0 <= i < m.len() ==> is_letter((#[trigger] m[i]).letter.letter()),
{
    let d = play_direction(g, dict, rack, m);
    assert(is_play(g, dict, rack, d, m));
    assert forall|x: RackLetter| used(m).to_multiset().count(x) <= rack.to_multiset().count(x) by {
        lemma_count_is_multiset_count(used(m), x);
        lemma_count_is_multiset_count(rack, x);
        assert(count_of(used(m), x) <= count_of(rack, x));
    }
    assert forall|i: int| 0 <= i < m.len() implies is_letter((#[trigger] m[i]).letter.letter()) by {
        assert(crate::tiles::valid_tile(m[i].letter));
    }
}

/// A blank scores nothing, whatever it stands for and wherever it lies.
pub proof fn law_blank_scores_zero(sc: &Scoring, g: Grid, d: Direction, l: int, after: Line, k: int)
    requires
        after[k] is Some,
        after[k]->0 is Blank,
    ensures
        sc.face(after[k]->0) == 0,
        sc.points_at(g, d, l, after, k) == 0,
{
    assert(0 * crate::scoring::letter_factor(sc.premium_on(g, d, l, k)) == 0);
}

/// The cross-set of an empty cell, but for the centre of a board without
/// tiles: there is none exactly where a tile on the cell would join no
/// tile across the direction of play; and else a letter is in it exactly
/// where, with the letter on the cell, the word through the cell across the
/// direction of play, read on the board with that tile, is in the dictionary.
pub proof fn law_cross_set(g: Grid, dict: Set<Seq<char>>, d: Direction, r: int, c: int, x: char)
    requires
        g.wf(),
        g.in_bounds(r, c),
        g.rows <= usize::MAX,
        g.cols <= usize::MAX,
        !g.occupied(r, c),
        !(g.is_blank() && r == g.centre_row() && c == g.centre_col()),
        is_letter(x),
    ensures
        ({
            let p = TilePlacement { letter: TileLetter::Char(x), row: r as usize, col: c as usize };
            let cross = g.put(p).line(d.cross(), pos_of(d, p));
            let k = line_of(d, p);
            match g.cross_set(dict, d, r, c) {
                None => !filled(cross, k - 1) && !filled(cross, k + 1),
                Some(s) => (filled(cross, k - 1) || filled(cross, k + 1)) && (s.contains(x) <==> dict.contains(
                    word_through(cross, k),
                )),
            }
        }),
{
    let p = TilePlacement { letter: TileLetter::Char(x), row: r as usize, col: c as usize };
    let cd = d.cross();
    let l = pos_of(d, p);
    let k = line_of(d, p);
    lemma_put_line(g, p, cd, l);
    let cl = g.line(cd, l);
    assert(g.cross_line(d, r, c) == cl);
    assert(cross_pos(d, r, c) == k);
    assert(cl.len() == g.line_len(cd));
    let cross = g.put(p).line(cd, l);
    assert(cross == cl.update(k, Some(p.letter)));
    assert(filled(cross, k - 1) == filled(cl, k - 1));
    assert(filled(cross, k + 1) == filled(cl, k + 1));
}

/// The anchors of a grid: the empty cells with a tile on one of their four
/// neighbours, and the centre exactly where the grid holds no tile.
pub proof fn law_anchors(g: Grid, r: int, c: int)
    requires
        g.wf(),
        g.in_bounds(r, c),
    ensures
        g.is_blank() ==> (g.is_anchor(r, c) <==> r == g.centre_row() && c == g.centre_col()),
        !g.is_blank() ==> (g.is_anchor(r, c) <==> !g.occupied(r, c) && g.has_neighbour(r, c)),
{
    if g.is_blank() {
        assert(!g.occupied(r, c));
        assert(!g.occupied(r - 1, c));
        assert(!g.occupied(r + 1, c));
        assert(!g.occupied(r, c - 1));
        assert(!g.occupied(r, c + 1));
    }
}

/// In a ranked list the scores never rise.
pub proof fn law_scores_descend(v: Seq<Ranked>, i: int, j: int)
    requires
        ranked(v),
        0 <= i <= j < v.len(),
    ensures
        v[i].score >= v[j].score,
{
    if i < j {
        assert(crate::ranking::ranks_before(v[i], v[j]));
    }
}

/// The ranking of the legal moves is unique: the same board, dictionary,
/// scoring policy and rack give the same list, solution by solution.
pub proof fn law_ranking_deterministic(
    sc: &Scoring,
    g: Grid,
    dict: Set<Seq<char>>,
    rack: Seq<RackLetter>,
    a: Seq<Ranked>,
    b: Seq<Ranked>,
)
    requires
        is_ranking(sc, g, dict, rack, a),
        is_ranking(sc, g, dict, rack, b),
    ensures
        a == b,
{
    assert forall|i: int| 0 <= i < a.len() implies b.contains(#[trigger] a[i]) by {
        assert(is_legal(g, dict, rack, a[i].placement));
        assert(holds(b, a[i].placement));
        let j = choose|j: int| 0 <= j < b.len() && (#[trigger] b[j]).placement == a[i].placement;
        assert(b[j].score == score_of(sc, g, dict, rack, b[j].placement));
        assert(b[j] == a[i]);
    }
    assert forall|j: int| 0 <= j < b.len() implies a.contains(#[trigger] b[j]) by {
        assert(is_legal(g, dict, rack, b[j].placement));
        assert(holds(a, b[j].placement));
        let i = choose|i: int| 0 <= i < a.len() && (#[trigger] a[i]).placement == b[j].placement;
        assert(a[i].score == score_of(sc, g, dict, rack, a[i].placement));
        assert(a[i] == b[j]);
    }
    lemma_ranking_unique(a, b);
}

/// The rack letters for the letters of a word.
pub open spec fn rack_letter_at(w: Seq<char>, i: int) -> RackLetter {
    RackLetter::Char(w[i])
}

/// The rack that holds the letters of a word, one tile for each.
pub open spec fn rack_of(w: Seq<char>) -> Seq<RackLetter> {
    Seq::new(w.len(), |i: int| rack_letter_at(w, i))
}

/// The placement of the `i`-th letter of `w` where `w` is laid along line
/// `l` of direction `d` from cell `start` on.
pub open spec fn word_tile(w: Seq<char>, d: Direction, l: int, start: int, i: int) -> TilePlacement {
    match d {
        Direction::Horizontal => TilePlacement {
            letter: TileLetter::Char(w[i]),
            row: l as usize,
            col: (start + i) as usize,
        },
        Direction::Vertical => TilePlacement {
            letter: TileLetter::Char(w[i]),
            row: (start + i) as usize,
            col: l as usize,
        },
    }
}

/// The move that lays `w` along line `l` of direction `d` from cell `start` on.
pub open spec fn word_move(w: Seq<char>, d: Direction, l: int, start: int) -> Seq<TilePlacement> {
    Seq::new(w.len(), |i: int| word_tile(w, d, l, start, i))
}

/// The line of direction `d` through the centre.
pub open spec fn centre_line(g: Grid, d: Direction) -> int {
    match d {
        Direction::Horizontal => g.centre_row(),
        Direction::Vertical => g.centre_col(),
    }
}

/// The position of the centre on the line of direction `d` through it.
pub open spec fn centre_pos(g: Grid, d: Direction) -> int {
    match d {
        Direction::Horizontal => g.centre_col(),
        Direction::Vertical => g.centre_row(),
    }
}

/// The cell from which a word of `n` letters, no longer than the line, is
/// laid through the centre: the centre, or as far before it as the word
/// needs to fit.
pub open spec fn start_cell(g: Grid, d: Direction, n: int) -> int {
    if centre_pos(g, d) + n <= g.line_len(d) {
        centre_pos(g, d)
    } else {
        g.line_len(d) - n
    }
}

/// The move that lays `w` through the centre in direction `d`.
pub open spec fn first_move(g: Grid, d: Direction, w: Seq<char>) -> Seq<TilePlacement> {
    word_move(w, d, centre_line(g, d), start_cell(g, d, w.len() as int))
}

/// The tiles of a word laid along a line use up the rack of the word.
proof fn lemma_word_move_uses(w: Seq<char>, d: Direction, l: int, start: int)
    ensures
        used(word_move(w, d, l, start)) == rack_of(w),
{
    assert(used(word_move(w, d, l, start)) =~= rack_of(w));
}

/// On a board without tiles, a word of the dictionary that is no longer
/// than a line of direction `d`, laid in that direction through the centre,
/// is a legal move for every rack that holds its letters, and the word that
/// it forms is that word.
pub proof fn law_first_word_is_legal(
    g: Grid,
    dict: Set<Seq<char>>,
    rack: Seq<RackLetter>,
    w: Seq<char>,
    d: Direction,
)
    requires
        g.wf(),
        g.rows <= usize::MAX,
        g.cols <= usize::MAX,
        g.is_blank(),
        dict.contains(w),
        w.len() > 0,
        all_letters(w),
        w.len() <= g.line_len(d),
        rack_of(w).to_multiset().subset_of(rack.to_multiset()),
    ensures
        is_legal(g, dict, rack, first_move(g, d, w)),
        is_play(g, dict, rack, d, first_move(g, d, w)),
        covers(first_move(g, d, w), g.centre_row(), g.centre_col()),
        main_word(g, d, first_move(g, d, w)) == w,
{
    let n = w.len() as int;
    let l = centre_line(g, d);
    let start = start_cell(g, d, n);
    let m = first_move(g, d, w);
    let line = g.line(d, l);
    assert(0 <= start <= centre_pos(g, d) < start + n <= g.line_len(d));
    assert forall|i: int| 0 <= i < m.len() implies line_of(d, #[trigger] m[i]) == l && pos_of(d, m[i])
        == start + i && m[i].letter == TileLetter::Char(w[i]) by {
        assert(m[i] == word_tile(w, d, l, start, i));
    }
    assert forall|i: int| 0 <= i < m.len() implies 0 <= pos_of(d, #[trigger] m[i]) < line.len() by {}
    assert forall|i: int| 0 <= i < m.len() implies g.in_bounds((#[trigger] m[i]).row as int, m[i].col as int)
        && !g.occupied(m[i].row as int, m[i].col as int) by {
        assert(line_of(d, m[i]) == l && pos_of(d, m[i]) == start + i);
    }
    assert forall|x: RackLetter| count_of(used(m), x) <= #[trigger] count_of(rack, x) by {
        lemma_word_move_uses(w, d, l, start);
        lemma_count_is_multiset_count(rack_of(w), x);
        lemma_count_is_multiset_count(rack, x);
        assert(rack_of(w).to_multiset().count(x) <= rack.to_multiset().count(x));
    }
    assert forall|i: int| 0 <= i < m.len() implies g.cross_ok(
        dict,
        d,
        (#[trigger] m[i]).row as int,
        m[i].col as int,
        m[i].letter.letter(),
    ) by {
        let r = m[i].row as int;
        let c = m[i].col as int;
        assert(line_of(d, m[i]) == l && pos_of(d, m[i]) == start + i);
        assert(!g.occupied(r, c));
        assert(is_letter(w[i]));
        if !(r == g.centre_row() && c == g.centre_col()) {
            let cl = g.cross_line(d, r, c);
            let k = cross_pos(d, r, c);
            assert(!filled(cl, k - 1)) by {
                if 0 <= k - 1 < cl.len() {
                    assert(!g.occupied(k - 1, c));
                    assert(!g.occupied(r, k - 1));
                }
            }
            assert(!filled(cl, k + 1)) by {
                if 0 <= k + 1 < cl.len() {
                    assert(!g.occupied(k + 1, c));
                    assert(!g.occupied(r, k + 1));
                }
            }
        }
    }
    let after = lay(line, d, m);
    lemma_lay(line, d, m, 0);
    assert forall|k: int| 0 <= k < line.len() implies #[trigger] after[k] == (if start <= k < start + n {
        Some(TileLetter::Char(w[k - start]))
    } else {
        None
    }) by {
        lemma_lay(line, d, m, k);
        if start <= k < start + n {
            assert(pos_of(d, m[k - start]) == k);
        } else {
            assert(line[k] == g.tile_on(d, l, k));
            assert(!g.occupied(l, k));
            assert(!g.occupied(k, l));
        }
    }
    lemma_run_before_is(after, start, 0);
    lemma_run_after_is(after, start, n - 1);
    assert(main_line(g, d, m) == after);
    assert(word_through(after, start) =~= w);
    assert(pos_of(d, m[m.len() - 1]) == start + n - 1);
    assert(is_play(g, dict, rack, d, m));
    let i0 = centre_pos(g, d) - start;
    assert(line_of(d, m[i0]) == l && pos_of(d, m[i0]) == centre_pos(g, d));
    assert(m[i0].row == g.centre_row() && m[i0].col == g.centre_col());
    assert(g.is_anchor(m[i0].row as int, m[i0].col as int));
}

/// On a board without tiles, the ranking of the legal moves for a rack
/// that holds the letters of a word of the dictionary, no longer than a
/// row or than a column, has a solution that lays the word through the
/// centre.
pub proof fn law_first_word_is_found(
    sc: &Scoring,
    g: Grid,
    dict: Set<Seq<char>>,
    rack: Seq<RackLetter>,
    w: Seq<char>,
    v: Seq<Ranked>,
)
    requires
        g.wf(),
        g.rows <= usize::MAX,
        g.cols <= usize::MAX,
        g.is_blank(),
        dict.contains(w),
        w.len() > 0,
        all_letters(w),
        w.len() <= g.cols || w.len() <= g.rows,
        rack_of(w).to_multiset().subset_of(rack.to_multiset()),
        is_ranking(sc, g, dict, rack, v),
    ensures
        exists|i: int, d: Direction|
            0 <= i < v.len() && #[trigger] is_play(g, dict, rack, d, v[i].placement) && covers(
                v[i].placement,
                g.centre_row(),
                g.centre_col(),
            ) && main_word(g, d, v[i].placement) == w,
{
    let d = if w.len() <= g.cols {
        Direction::Horizontal
    } else {
        Direction::Vertical
    };
    let m = first_move(g, d, w);
    law_first_word_is_legal(g, dict, rack, w, d);
    assert(holds(v, m));
    let i = choose|i: int| 0 <= i < v.len() && (#[trigger] v[i]).placement == m;
    assert(is_play(g, dict, rack, d, v[i].placement));
}

} // verus!
