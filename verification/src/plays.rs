//! What a legal play is: a move that lays rack tiles on empty cells of one
//! line, in one stretch together with the tiles already there, such that
//! the stretch reads as a dictionary word and every new tile fits its
//! cross-set.
use vstd::prelude::*;
use crate::grid::{
    all_in_bounds, all_on_empty, Grid, in_line, line_of, Line, pos_of, run_after, word_through,
};
use crate::tiles::{valid_tile, Direction, RackLetter, TilePlacement};

verus! {

/// How often `x` occurs in `s`.
pub open spec fn count_of(s: Seq<RackLetter>, x: RackLetter) -> nat
    decreases s.len(),
{
    if s.len() == 0 {
        0
    } else {
        count_of(s.drop_last(), x) + if s.last() == x {
            1nat
        } else {
            0nat
        }
    }
}

/// The rack letter that the `i`-th placement of `m` uses up.
pub open spec fn used_at(m: Seq<TilePlacement>, i: int) -> RackLetter {
    m[i].letter.rack_letter()
}

/// The rack letters that the placements of `m` use up, one by one.
pub open spec fn used(m: Seq<TilePlacement>) -> Seq<RackLetter> {
    Seq::new(m.len(), |i: int| used_at(m, i))
}

/// Whether the rack holds the tiles of the move: each letter and the blank
/// as often, at least, as the move uses it.
pub open spec fn within_rack(rack: Seq<RackLetter>, m: Seq<TilePlacement>) -> bool {
    forall|x: RackLetter| count_of(used(m), x) <= #[trigger] count_of(rack, x)
}

/// Whether every tile of the move shows a letter of the alphabet.
pub open spec fn all_valid(m: Seq<TilePlacement>) -> bool {
    forall|i: int| 0 <= i < m.len() ==> valid_tile((#[trigger] m[i]).letter)
}

/// Whether the placements come in the order of their cells along the line.
pub open spec fn ascending(d: Direction, m: Seq<TilePlacement>) -> bool {
    forall|i: int, j: int| 0 <= i < j < m.len() ==> pos_of(d, #[trigger] m[i]) < pos_of(d, #[trigger] m[j])
}

/// The line with the tiles of `m` laid on it, each at its position.
pub open spec fn lay(line: Line, d: Direction, m: Seq<TilePlacement>) -> Line
    decreases m.len(),
{
    if m.len() == 0 {
        line
    } else {
        lay(line, d, m.drop_last()).update(pos_of(d, m.last()), Some(m.last().letter))
    }
}

/// The line of the move after the move.
pub open spec fn main_line(g: Grid, d: Direction, m: Seq<TilePlacement>) -> Line {
    lay(g.line(d, line_of(d, m[0])), d, m)
}

/// The word that the move forms along its line: the stretch of tiles, old
/// and new, through its first placement.
pub open spec fn main_word(g: Grid, d: Direction, m: Seq<TilePlacement>) -> Seq<char> {
    word_through(main_line(g, d, m), pos_of(d, m[0]))
}

/// Whether the tiles of the move, with the tiles between them, make one
/// stretch without a gap.
pub open spec fn contiguous(g: Grid, d: Direction, m: Seq<TilePlacement>) -> bool {
    pos_of(d, m.last()) <= pos_of(d, m[0]) + run_after(main_line(g, d, m), pos_of(d, m[0]))
}

/// Whether every tile of the move fits the cross-set of its cell.
pub open spec fn cross_checked(g: Grid, dict: Set<Seq<char>>, d: Direction, m: Seq<TilePlacement>) -> bool {
    forall|i: int|
        0 <= i < m.len() ==> g.cross_ok(
            dict,
            d,
            (#[trigger] m[i]).row as int,
            m[i].col as int,
            m[i].letter.letter(),
        )
}

/// Whether `m` is a play in direction `d` on the grid `g` with the
/// dictionary `dict` and the rack `rack`: one tile or more, each showing a
/// letter, on empty cells of one line in the order of the line, taken from
/// the rack, each fitting its cross-set, with no gap, and forming a word of
/// the dictionary along the line.
pub open spec fn is_play(
    g: Grid,
    dict: Set<Seq<char>>,
    rack: Seq<RackLetter>,
    d: Direction,
    m: Seq<TilePlacement>,
) -> bool {
    &&& m.len() > 0
    &&& all_in_bounds(g, m)
    &&& all_on_empty(g, m)
    &&& all_valid(m)
    &&& in_line(d, m)
    &&& ascending(d, m)
    &&& within_rack(rack, m)
    &&& cross_checked(g, dict, d, m)
    &&& contiguous(g, d, m)
    &&& dict.contains(main_word(g, d, m))
}

/// Whether a placement of the move lies on cell `(r, c)`.
pub open spec fn covers(m: Seq<TilePlacement>, r: int, c: int) -> bool {
    exists|i: int| 0 <= i < m.len() && (#[trigger] m[i]).row == r && m[i].col == c
}

/// Whether a placement of the move lies on an anchor.
pub open spec fn on_anchor(g: Grid, m: Seq<TilePlacement>) -> bool {
    exists|i: int| 0 <= i < m.len() && g.is_anchor((#[trigger] m[i]).row as int, m[i].col as int)
}

/// The direction in which a move counts: along the row where it is a play
/// there, else down the column.
pub open spec fn play_direction(
    g: Grid,
    dict: Set<Seq<char>>,
    rack: Seq<RackLetter>,
    m: Seq<TilePlacement>,
) -> Direction {
    if is_play(g, dict, rack, Direction::Horizontal, m) {
        Direction::Horizontal
    } else {
        Direction::Vertical
    }
}

/// Whether `m` is a legal move: a play in one of the two directions that
/// lays a tile on an anchor.
pub open spec fn is_legal(g: Grid, dict: Set<Seq<char>>, rack: Seq<RackLetter>, m: Seq<TilePlacement>) -> bool {
    &&& is_play(g, dict, rack, play_direction(g, dict, rack, m), m)
    &&& on_anchor(g, m)
}

/// Counting after one more letter.
pub proof fn lemma_count_push(s: Seq<RackLetter>, y: RackLetter, x: RackLetter)
    ensures
        count_of(s.push(y), x) == count_of(s, x) + if y == x {
            1nat
        } else {
            0nat
        },
{
    assert(s.push(y).drop_last() =~= s);
}

/// Counting after one more letter in front.
pub proof fn lemma_count_front(s: Seq<RackLetter>, y: RackLetter, x: RackLetter)
    ensures
        count_of(seq![y] + s, x) == count_of(s, x) + if y == x {
            1nat
        } else {
            0nat
        },
    decreases s.len(),
{
    let t = seq![y] + s;
    if s.len() == 0 {
        assert(t.drop_last() =~= Seq::<RackLetter>::empty());
        assert(t.last() == y);
        assert(count_of(t.drop_last(), x) == 0);
    } else {
        assert(t.drop_last() =~= seq![y] + s.drop_last());
        assert(t.last() == s.last());
        lemma_count_front(s.drop_last(), y, x);
    }
}

/// A count is the count in the multiset of the sequence.
pub proof fn lemma_count_is_multiset_count(s: Seq<RackLetter>, x: RackLetter)
    ensures
        count_of(s, x) == s.to_multiset().count(x),
    decreases s.len(),
{
    if s.len() == 0 {
        s.to_multiset_ensures();
        assert(s.to_multiset().len() == 0);
        if s.to_multiset().count(x) > 0 {
            assert(s.contains(x));
        }
    } else {
        let r = s.drop_last();
        lemma_count_is_multiset_count(r, x);
        r.to_multiset_ensures();
        assert(r.push(s.last()) =~= s);
        assert(s.to_multiset() =~= r.to_multiset().insert(s.last()));
    }
}

/// Laying tiles keeps the length of the line, leaves the cells without a
/// placement as they were, and puts on each other cell the tile of its
/// placement.
pub proof fn lemma_lay(line: Line, d: Direction, m: Seq<TilePlacement>, k: int)
    requires
        forall|i: int| 0 <= i < m.len() ==> 0 <= pos_of(d, #[trigger] m[i]) < line.len(),
    ensures
        lay(line, d, m).len() == line.len(),
        0 <= k < line.len() && (forall|i: int| 0 <= i < m.len() ==> pos_of(d, #[trigger] m[i]) != k)
            ==> lay(line, d, m)[k] == line[k],
        forall|i: int|
            0 <= i < m.len() && pos_of(d, #[trigger] m[i]) == k && ascending(d, m) ==> lay(line, d, m)[k]
                == Some(m[i].letter),
    decreases m.len(),
{
    if m.len() > 0 {
        let rest = m.drop_last();
        assert forall|i: int| 0 <= i < rest.len() implies 0 <= pos_of(d, #[trigger] rest[i])
            < line.len() by {
            assert(rest[i] == m[i]);
        }
        lemma_lay(line, d, rest, k);
        assert(0 <= pos_of(d, m[m.len() - 1]) < line.len());
        if forall|i: int| 0 <= i < m.len() ==> pos_of(d, #[trigger] m[i]) != k {
            assert forall|i: int| 0 <= i < rest.len() implies pos_of(d, #[trigger] rest[i]) != k by {
                assert(rest[i] == m[i]);
            }
            assert(pos_of(d, m[m.len() - 1]) != k);
        }
        assert forall|i: int|
            0 <= i < m.len() && pos_of(d, #[trigger] m[i]) == k && ascending(d, m) implies lay(
            line,
            d,
            m,
        )[k] == Some(m[i].letter) by {
            if i < rest.len() {
                assert(rest[i] == m[i]);
                assert(pos_of(d, m[i]) < pos_of(d, m[m.len() - 1]));
                assert forall|a: int, b: int| 0 <= a < b < rest.len() implies pos_of(
                    d,
                    #[trigger] rest[a],
                ) < pos_of(d, #[trigger] rest[b]) by {
                    assert(rest[a] == m[a] && rest[b] == m[b]);
                }
            }
        }
    }
}

} // verus!
