//! Why a walk finds every play through its anchor: as long as the walk has
//! laid the tiles that a play has on the cells passed, it goes on to a cell
//! of the play's word, with the play's tile there.
use vstd::prelude::*;
use crate::dag::{
    lemma_accepts_push, lemma_walk_prefix, lemma_walk_push, rotation, Arc, Graph, Kind,
};
use crate::grid::{
    filled, lemma_run_after, lemma_run_before, letters, line_of, pos_of, run_after, run_before,
};
use crate::plays::{
    ascending, count_of, covers, is_play, lemma_count_push, lemma_lay, main_line, used,
};
use crate::tiles::{valid_tile, Direction, RackLetter, TileLetter, TilePlacement};
use crate::walk::{
    at, balanced, lemma_cell, lemma_cur_inside, lemma_cur_outside, lemma_passed_positions,
    lemma_step_left, lemma_step_right, lemma_trail_form, lemma_trail_left, lemma_trail_right,
    may_pass, passed, stock, trail, turned_form, with_tile, Site,
};

verus! {

/// Whether `m` is a play of the site that covers its anchor.
pub open spec fn aim(s: Site, m: Seq<TilePlacement>) -> bool {
    is_play(s.g, s.dict, s.rack, s.d, m) && covers(m, s.row_at(s.a), s.col_at(s.a))
}

/// The first cell of the word of the play `m`.
pub open spec fn span_lo(s: Site, m: Seq<TilePlacement>) -> int {
    pos_of(s.d, m[0]) - run_before(s.cur(m), pos_of(s.d, m[0]))
}

/// The last cell of the word of the play `m`.
pub open spec fn span_hi(s: Site, m: Seq<TilePlacement>) -> int {
    pos_of(s.d, m[0]) + run_after(s.cur(m), pos_of(s.d, m[0]))
}

/// What the word of a play is like: it lies on the line of the site, from
/// `span_lo` to `span_hi` around the anchor, with no tile of the board
/// before it nor after it; the tiles of the play lie on it, each on its
/// cell; and the other cells are as on the board.
#[verifier::rlimit(40)]
pub proof fn lemma_span(s: Site, m: Seq<TilePlacement>)
    requires
        s.wf(),
        aim(s, m),
    ensures
        main_line(s.g, s.d, m) == s.cur(m),
        s.cur(m).len() == s.len(),
        s.line().len() == s.len(),
        0 <= span_lo(s, m) <= s.a <= span_hi(s, m) < s.len(),
        forall|i: int|
            0 <= i < m.len() ==> line_of(s.d, #[trigger] m[i]) == s.l && span_lo(s, m) <= pos_of(s.d, m[i])
                <= span_hi(s, m) && s.cur(m)[pos_of(s.d, m[i])] == Some(m[i].letter) && !filled(
                s.line(),
                pos_of(s.d, m[i]),
            ),
        forall|k: int| span_lo(s, m) <= k <= span_hi(s, m) ==> #[trigger] filled(s.cur(m), k),
        !filled(s.cur(m), span_lo(s, m) - 1),
        !filled(s.cur(m), span_hi(s, m) + 1),
        !filled(s.line(), span_lo(s, m) - 1),
        !filled(s.line(), span_hi(s, m) + 1),
        s.dict.contains(letters(s.cur(m), span_lo(s, m), span_hi(s, m))),
{
    let i0 = choose|i: int| 0 <= i < m.len() && (#[trigger] m[i]).row == s.row_at(s.a) && m[i].col == s.col_at(s.a);
    assert(line_of(s.d, m[i0]) == s.l);
    assert(pos_of(s.d, m[i0]) == s.a);
    assert(line_of(s.d, m[0]) == s.l);
    assert forall|i: int| 0 <= i < m.len() implies 0 <= pos_of(s.d, #[trigger] m[i]) < s.line().len()
        && line_of(s.d, m[i]) == s.l by {
        assert(s.g.in_bounds(m[i].row as int, m[i].col as int));
    }
    let lm = s.cur(m);
    let first = pos_of(s.d, m[0]);
    let last = pos_of(s.d, m[m.len() - 1]);
    lemma_lay(s.line(), s.d, m, 0);
    lemma_run_before(lm, first);
    lemma_run_after(lm, first);
    assert(first <= s.a) by {
        if i0 > 0 {
            assert(pos_of(s.d, m[0]) < pos_of(s.d, m[i0]));
        }
    }
    assert(s.a <= last) by {
        if i0 < m.len() - 1 {
            assert(pos_of(s.d, m[i0]) < pos_of(s.d, m[m.len() - 1]));
        }
    }
    assert forall|i: int| 0 <= i < m.len() implies span_lo(s, m) <= pos_of(s.d, #[trigger] m[i])
        <= span_hi(s, m) && s.cur(m)[pos_of(s.d, m[i])] == Some(m[i].letter) && !filled(
        s.line(),
        pos_of(s.d, m[i]),
    ) by {
        if i > 0 {
            assert(pos_of(s.d, m[0]) < pos_of(s.d, m[i]));
        }
        if i < m.len() - 1 {
            assert(pos_of(s.d, m[i]) < pos_of(s.d, m[m.len() - 1]));
        }
        lemma_lay(s.line(), s.d, m, pos_of(s.d, m[i]));
        assert(!s.g.occupied(m[i].row as int, m[i].col as int));
        lemma_cell(s, pos_of(s.d, m[i]));
    }
    let lo = span_lo(s, m);
    let hi = span_hi(s, m);
    if lo > 0 {
        lemma_lay(s.line(), s.d, m, lo - 1);
        if filled(s.line(), lo - 1) {
            assert forall|i: int| 0 <= i < m.len() implies pos_of(s.d, #[trigger] m[i]) != lo - 1 by {}
        }
    }
    if hi + 1 < s.len() {
        lemma_lay(s.line(), s.d, m, hi + 1);
        if filled(s.line(), hi + 1) {
            assert forall|i: int| 0 <= i < m.len() implies pos_of(s.d, #[trigger] m[i]) != hi + 1 by {}
        }
    }
}

/// A cell of the word of a play holds the tile that the board has there,
/// or else the tile of the one placement of the play on the cell.
pub proof fn lemma_span_cell(s: Site, m: Seq<TilePlacement>, k: int) -> (i: int)
    requires
        s.wf(),
        aim(s, m),
        span_lo(s, m) <= k <= span_hi(s, m),
    ensures
        filled(s.line(), k) ==> s.cur(m)[k] == s.line()[k] && i == -1,
        !filled(s.line(), k) ==> 0 <= i < m.len() && pos_of(s.d, m[i]) == k && m[i].row == s.row_at(k)
            && m[i].col == s.col_at(k) && s.cur(m)[k] == Some(m[i].letter),
        forall|j: int| 0 <= j < m.len() && pos_of(s.d, #[trigger] m[j]) == k ==> j == i,
{
    lemma_span(s, m);
    lemma_lay(s.line(), s.d, m, k);
    assert forall|j: int| 0 <= j < m.len() implies 0 <= pos_of(s.d, #[trigger] m[j]) < s.line().len() by {}
    if filled(s.line(), k) {
        assert forall|j: int| 0 <= j < m.len() implies pos_of(s.d, #[trigger] m[j]) != k by {}
        -1
    } else {
        assert(filled(s.cur(m), k));
        if forall|j: int| 0 <= j < m.len() ==> pos_of(s.d, #[trigger] m[j]) != k {
            assert(false);
        }
        let i = choose|i: int| 0 <= i < m.len() && pos_of(s.d, #[trigger] m[i]) == k;
        assert(line_of(s.d, m[i]) == s.l);
        assert forall|j: int| 0 <= j < m.len() && pos_of(s.d, #[trigger] m[j]) == k implies j == i by {
            if j < i {
                assert(pos_of(s.d, m[j]) < pos_of(s.d, m[i]));
            }
            if i < j {
                assert(pos_of(s.d, m[i]) < pos_of(s.d, m[j]));
            }
        }
        i
    }
}

/// Whether the walk that has passed the cells `lo..=hi` and laid the tiles
/// `placed` is on the way to the play `m`: the cells lie in the word of the
/// play, and the tiles that the play has on them are laid.
pub open spec fn tracks(s: Site, m: Seq<TilePlacement>, placed: Seq<TilePlacement>, lo: int, hi: int) -> bool {
    &&& span_lo(s, m) <= lo
    &&& hi <= span_hi(s, m)
    &&& forall|i: int|
        0 <= i < m.len() && lo <= pos_of(s.d, #[trigger] m[i]) <= hi ==> placed.contains(m[i])
}

/// A walk on the way to a play has laid tiles of the play only, and the
/// cells passed hold what they hold after the play.
#[verifier::rlimit(40)]
pub proof fn lemma_agree(s: Site, m: Seq<TilePlacement>, placed: Seq<TilePlacement>, lo: int, hi: int)
    requires
        s.wf(),
        aim(s, m),
        passed(s, placed, lo, hi),
        tracks(s, m, placed, lo, hi),
    ensures
        forall|k: int| lo <= k <= hi ==> #[trigger] s.cur(placed)[k] == s.cur(m)[k],
        forall|j: int| 0 <= j < placed.len() ==> m.contains(#[trigger] placed[j]),
        letters(s.cur(placed), lo, hi) == letters(s.cur(m), lo, hi),
{
    lemma_span(s, m);
    lemma_passed_positions(s, placed, lo, hi);
    assert forall|k: int| lo <= k <= hi implies #[trigger] s.cur(placed)[k] == s.cur(m)[k] by {
        let i = lemma_span_cell(s, m, k);
        if filled(s.line(), k) {
            lemma_cur_outside(s, placed, lo, hi, k);
        } else {
            let j = lemma_cur_inside(s, placed, lo, hi, k);
            assert(placed.contains(m[i]));
            let j2 = choose|j2: int| 0 <= j2 < placed.len() && placed[j2] == m[i];
            if j2 < j {
                assert(pos_of(s.d, placed[j2]) < pos_of(s.d, placed[j]));
            }
            if j < j2 {
                assert(pos_of(s.d, placed[j]) < pos_of(s.d, placed[j2]));
            }
        }
    }
    assert forall|j: int| 0 <= j < placed.len() implies m.contains(#[trigger] placed[j]) by {
        let k = pos_of(s.d, placed[j]);
        assert(lo <= k <= hi);
        assert(!s.g.occupied(placed[j].row as int, placed[j].col as int));
        lemma_cell(s, k);
        let i = lemma_span_cell(s, m, k);
        assert(placed.contains(m[i]));
        let j2 = choose|j2: int| 0 <= j2 < placed.len() && placed[j2] == m[i];
        if j2 < j {
            assert(pos_of(s.d, placed[j2]) < pos_of(s.d, placed[j]));
        }
        if j < j2 {
            assert(pos_of(s.d, placed[j]) < pos_of(s.d, placed[j2]));
        }
        assert(placed[j] == m[i]);
    }
    assert(letters(s.cur(placed), lo, hi) =~= letters(s.cur(m), lo, hi));
}

/// Two lists of placements in the order of the line with the same
/// placements are the same list.
#[verifier::rlimit(40)]
pub proof fn lemma_same_moves(d: Direction, a: Seq<TilePlacement>, b: Seq<TilePlacement>)
    requires
        ascending(d, a),
        ascending(d, b),
        forall|i: int| 0 <= i < a.len() ==> b.contains(#[trigger] a[i]),
        forall|j: int| 0 <= j < b.len() ==> a.contains(#[trigger] b[j]),
    ensures
        a == b,
    decreases a.len(),
{
    if a.len() == 0 {
        if b.len() > 0 {
            assert(a.contains(b[0]));
        }
        assert(a =~= b);
    } else if b.len() == 0 {
        assert(b.contains(a[0]));
    } else {
        let x = a.last();
        let y = b.last();
        assert(b.contains(a[a.len() - 1]));
        assert(a.contains(b[b.len() - 1]));
        let jx = choose|j: int| 0 <= j < b.len() && b[j] == x;
        let iy = choose|i: int| 0 <= i < a.len() && a[i] == y;
        if jx < b.len() - 1 {
            assert(pos_of(d, b[jx]) < pos_of(d, b[b.len() - 1]));
        }
        if iy < a.len() - 1 {
            assert(pos_of(d, a[iy]) < pos_of(d, a[a.len() - 1]));
        }
        assert(x == y);
        let ra = a.drop_last();
        let rb = b.drop_last();
        assert forall|i: int, j: int| 0 <= i < j < ra.len() implies pos_of(d, #[trigger] ra[i]) < pos_of(
            d,
            #[trigger] ra[j],
        ) by {
            assert(ra[i] == a[i] && ra[j] == a[j]);
        }
        assert forall|i: int, j: int| 0 <= i < j < rb.len() implies pos_of(d, #[trigger] rb[i]) < pos_of(
            d,
            #[trigger] rb[j],
        ) by {
            assert(rb[i] == b[i] && rb[j] == b[j]);
        }
        assert forall|i: int| 0 <= i < ra.len() implies rb.contains(#[trigger] ra[i]) by {
            assert(ra[i] == a[i]);
            assert(b.contains(a[i]));
            let j = choose|j: int| 0 <= j < b.len() && b[j] == a[i];
            assert(pos_of(d, a[i]) < pos_of(d, a[a.len() - 1]));
            assert(j < b.len() - 1);
            assert(rb[j] == ra[i]);
        }
        assert forall|j: int| 0 <= j < rb.len() implies ra.contains(#[trigger] rb[j]) by {
            assert(rb[j] == b[j]);
            assert(a.contains(b[j]));
            let i = choose|i: int| 0 <= i < a.len() && a[i] == b[j];
            assert(pos_of(d, b[j]) < pos_of(d, b[b.len() - 1]));
            assert(i < a.len() - 1);
            assert(ra[i] == rb[j]);
        }
        lemma_same_moves(d, ra, rb);
        assert(a =~= ra.push(x));
        assert(b =~= rb.push(y));
    }
}

/// A list of placements in the order of the line, all of them among those
/// of another such list, uses up no rack letter more often than the other.
#[verifier::rlimit(40)]
pub proof fn lemma_fewer_used(
    d: Direction,
    a: Seq<TilePlacement>,
    b: Seq<TilePlacement>,
    x: RackLetter,
)
    requires
        ascending(d, a),
        ascending(d, b),
        forall|i: int| 0 <= i < a.len() ==> b.contains(#[trigger] a[i]),
    ensures
        count_of(used(a), x) <= count_of(used(b), x),
    decreases b.len(),
{
    if b.len() == 0 {
        if a.len() > 0 {
            assert(b.contains(a[0]));
        }
        assert(used(a) =~= Seq::<RackLetter>::empty());
    } else {
        let rb = b.drop_last();
        assert(used(b) =~= used(rb).push(b.last().letter.rack_letter()));
        lemma_count_push(used(rb), b.last().letter.rack_letter(), x);
        assert forall|i: int, j: int| 0 <= i < j < rb.len() implies pos_of(d, #[trigger] rb[i]) < pos_of(
            d,
            #[trigger] rb[j],
        ) by {
            assert(rb[i] == b[i] && rb[j] == b[j]);
        }
        if a.len() > 0 && a.last() == b.last() {
            let ra = a.drop_last();
            assert(used(a) =~= used(ra).push(a.last().letter.rack_letter()));
            lemma_count_push(used(ra), a.last().letter.rack_letter(), x);
            assert forall|i: int, j: int| 0 <= i < j < ra.len() implies pos_of(d, #[trigger] ra[i])
                < pos_of(d, #[trigger] ra[j]) by {
                assert(ra[i] == a[i] && ra[j] == a[j]);
            }
            assert forall|i: int| 0 <= i < ra.len() implies rb.contains(#[trigger] ra[i]) by {
                assert(ra[i] == a[i]);
                assert(b.contains(a[i]));
                let j = choose|j: int| 0 <= j < b.len() && b[j] == a[i];
                assert(pos_of(d, a[i]) < pos_of(d, a[a.len() - 1]));
                assert(j < b.len() - 1);
                assert(rb[j] == ra[i]);
            }
            lemma_fewer_used(d, ra, rb, x);
        } else {
            assert forall|i: int| 0 <= i < a.len() implies rb.contains(#[trigger] a[i]) by {
                assert(b.contains(a[i]));
                let j = choose|j: int| 0 <= j < b.len() && b[j] == a[i];
                if j == b.len() - 1 {
                    assert(i < a.len() - 1);
                    assert(pos_of(d, a[i]) < pos_of(d, a[a.len() - 1]));
                    assert(b.contains(a[a.len() - 1]));
                    let j2 = choose|j2: int| 0 <= j2 < b.len() && b[j2] == a[a.len() - 1];
                    if j2 < j {
                        assert(pos_of(d, b[j2]) < pos_of(d, b[j]));
                    }
                    assert(false);
                }
                assert(rb[j] == a[i]);
            }
            lemma_fewer_used(d, a, rb, x);
        }
    }
}

/// The beginning of a rotated form within its reversed part is the rotated
/// form of the letters that it reverses.
pub proof fn lemma_form_begins_left(w: Seq<char>, i: int, n: int)
    requires
        0 <= n <= i <= w.len(),
    ensures
        rotation(w, i).take(n) == rotation(w.subrange(i - n, i), n),
{
    assert(rotation(w, i).take(n) =~= rotation(w.subrange(i - n, i), n));
}

/// The beginning of a rotated form up to a letter after the delimiter is
/// the form of the letters up to that letter.
pub proof fn lemma_form_begins_right(w: Seq<char>, i: int, n: int)
    requires
        0 <= i <= n <= w.len(),
        i < w.len(),
    ensures
        rotation(w, i).take(n + 1) == turned_form(w.take(n), i),
{
    assert(rotation(w, i).take(n + 1) =~= turned_form(w.take(n), i));
}

/// Whether the walk that is about to pass cell `pos`, having passed the
/// cells `lo..=hi` and laid the tiles `placed`, is on the way to the play
/// `m` and has not left its word: `m` is a play through the anchor, the
/// walk has laid the tiles of `m` on the cells passed, the cell `pos` lies
/// in the word of `m`, and right of the anchor the cells passed begin where
/// the word begins.
#[verifier::opaque]
pub open spec fn wanted(
    s: Site,
    m: Seq<TilePlacement>,
    pos: int,
    placed: Seq<TilePlacement>,
    lo: int,
    hi: int,
) -> bool {
    &&& aim(s, m)
    &&& tracks(s, m, placed, lo, hi)
    &&& span_lo(s, m) <= pos <= span_hi(s, m)
    &&& (pos > s.a ==> lo == span_lo(s, m))
}

/// Whether the walk is on the way to the play `m`, which has the tile `t`
/// on the cell `pos` that the walk is about to pass.
#[verifier::opaque]
pub open spec fn wanted_with(
    s: Site,
    m: Seq<TilePlacement>,
    pos: int,
    placed: Seq<TilePlacement>,
    lo: int,
    hi: int,
    t: TileLetter,
) -> bool {
    wanted(s, m, pos, placed, lo, hi) && s.cur(m)[pos] == Some(t)
}

/// Whether the walk is on the way to the play `m`, whose tile on the cell
/// `pos` shows one of the first `x` letters of the alphabet.
#[verifier::opaque]
pub open spec fn due(
    s: Site,
    m: Seq<TilePlacement>,
    pos: int,
    placed: Seq<TilePlacement>,
    lo: int,
    hi: int,
    x: int,
) -> bool {
    wanted(s, m, pos, placed, lo, hi) && crate::letters::letter_index(s.cur(m)[pos]->0.letter()) < x
}

/// Every play through the anchor is wanted at the start of the walk.
pub proof fn lemma_wanted_at_start(s: Site, m: Seq<TilePlacement>)
    requires
        s.wf(),
        aim(s, m),
    ensures
        wanted(s, m, s.a, Seq::<TilePlacement>::empty(), s.a + 1, s.a),
{
    reveal(wanted);
    lemma_span(s, m);
}

/// A play that the walk is on the way to has, on a cell that holds a tile
/// of the board, that tile.
pub proof fn lemma_pass_tile(
    s: Site,
    m: Seq<TilePlacement>,
    pos: int,
    placed: Seq<TilePlacement>,
    lo: int,
    hi: int,
    t: TileLetter,
)
    requires
        s.wf(),
        wanted(s, m, pos, placed, lo, hi),
        s.line()[pos] == Some(t),
    ensures
        wanted_with(s, m, pos, placed, lo, hi, t),
{
    reveal(wanted);
    reveal(wanted_with);
    lemma_span(s, m);
    let i = lemma_span_cell(s, m, pos);
}

/// The tiles laid with one more tile of the play `m` are tiles of `m`, and
/// the walk stays on the way to `m`.
#[verifier::rlimit(40)]
proof fn lemma_tracks_step(
    s: Site,
    m: Seq<TilePlacement>,
    pos: int,
    placed: Seq<TilePlacement>,
    lo: int,
    hi: int,
    t: TileLetter,
    fresh: bool,
)
    requires
        s.wf(),
        aim(s, m),
        passed(s, placed, lo, hi),
        tracks(s, m, placed, lo, hi),
        pos == lo - 1 || pos == hi + 1,
        span_lo(s, m) <= pos <= span_hi(s, m),
        may_pass(s, t, pos, fresh),
        s.cur(m)[pos] == Some(t),
    ensures
        ({
            let next = with_tile(s, placed, t, pos, fresh);
            let lo2 = if pos < lo {
                pos
            } else {
                lo
            };
            let hi2 = if pos > hi {
                pos
            } else {
                hi
            };
            &&& passed(s, next, lo2, hi2)
            &&& tracks(s, m, next, lo2, hi2)
            &&& letters(s.cur(next), lo2, hi2) == letters(s.cur(m), lo2, hi2)
            &&& forall|j: int| 0 <= j < next.len() ==> m.contains(#[trigger] next[j])
        }),
{
    let next = with_tile(s, placed, t, pos, fresh);
    let lo2 = if pos < lo {
        pos
    } else {
        lo
    };
    let hi2 = if pos > hi {
        pos
    } else {
        hi
    };
    lemma_span(s, m);
    if pos < lo {
        lemma_step_left(s, placed, lo, hi, t, fresh);
    } else {
        lemma_step_right(s, placed, lo, hi, t, fresh);
    }
    lemma_cell(s, pos);
    let i0 = lemma_span_cell(s, m, pos);
    assert forall|i: int| 0 <= i < m.len() && lo2 <= pos_of(s.d, #[trigger] m[i]) <= hi2 implies next.contains(
        m[i],
    ) by {
        if pos_of(s.d, m[i]) == pos {
            assert(i == i0);
            assert(fresh);
            let p = s.placement(t, pos);
            assert(p == m[i]);
            if pos < lo {
                assert(next[0] == p);
            } else {
                assert(next[next.len() - 1] == p);
            }
        } else {
            assert(placed.contains(m[i]));
            let j = choose|j: int| 0 <= j < placed.len() && placed[j] == m[i];
            if fresh {
                if pos < lo {
                    assert(next[j + 1] == placed[j]);
                } else {
                    assert(next[j] == placed[j]);
                }
            }
        }
    }
    lemma_agree(s, m, next, lo2, hi2);
}

/// What a play that the walk is on the way to needs on an empty cell: a
/// tile that shows a letter, fits the cross-set of the cell, and is in stock.
#[verifier::rlimit(40)]
pub proof fn lemma_need(
    s: Site,
    graph: &Graph,
    m: Seq<TilePlacement>,
    pos: int,
    placed: Seq<TilePlacement>,
    arc: Arc,
    lo: int,
    hi: int,
    avail: Seq<usize>,
)
    requires
        s.wf(),
        at(s, graph, pos, placed, arc, lo, hi),
        balanced(s.rack, placed, avail),
        wanted(s, m, pos, placed, lo, hi),
        !filled(s.line(), pos),
    ensures
        s.cur(m)[pos] is Some,
        valid_tile(s.cur(m)[pos]->0),
        s.g.cross_ok(s.dict, s.d, s.row_at(pos), s.col_at(pos), s.cur(m)[pos]->0.letter()),
        stock(avail, s.cur(m)[pos]->0.rack_letter()) > 0,
{
    reveal(wanted);
    reveal(at);
    lemma_span(s, m);
    let i = lemma_span_cell(s, m, pos);
    let t = m[i].letter;
    assert(valid_tile(t));
    assert(s.g.cross_ok(s.dict, s.d, m[i].row as int, m[i].col as int, m[i].letter.letter()));
    lemma_tracks_step(s, m, pos, placed, lo, hi, t, true);
    let next = with_tile(s, placed, t, pos, true);
    let y = t.rack_letter();
    lemma_fewer_used(s.d, next, m, y);
    let p = s.placement(t, pos);
    if pos <= s.a {
        assert(used(next) =~= seq![y] + used(placed));
        crate::plays::lemma_count_front(used(placed), y, y);
    } else {
        assert(used(next) =~= used(placed).push(y));
        lemma_count_push(used(placed), y, y);
    }
    assert(count_of(used(m), y) <= count_of(s.rack, y));
    assert(count_of(used(placed), y) + stock(avail, y) == count_of(s.rack, y));
}

/// How the graph holds a word of the dictionary along the cells left of
/// the anchor: it has the arcs for the letters from the anchor down to any
/// cell of the word; at the first cell of the word it goes on with the
/// delimiter where the word goes on after the anchor, and stores the
/// letters as a form where the word ends on the anchor.
pub proof fn lemma_word_walk_left(graph: &Graph, word: Seq<char>, im: int, n: int)
    requires
        graph.wf(),
        graph@.contains(word),
        1 <= n <= im <= word.len(),
    ensures
        ({
            let w2 = word.subrange(im - n, im);
            &&& graph.init.walk(rotation(w2, n)) is Some
            &&& (n == im && im < word.len() ==> graph.init.walk(rotation(w2, n).push(Kind::Delim)) is Some)
            &&& (n == im && im == word.len() ==> graph.init.accepts(rotation(w2, n)))
        }),
{
    let q = rotation(word, im);
    let w2 = word.subrange(im - n, im);
    graph.lemma_any_rotation(word, im);
    lemma_form_begins_left(word, im, n);
    lemma_walk_prefix(graph.init, q, n);
    if n == im {
        if im < word.len() {
            lemma_walk_prefix(graph.init, q, n + 1);
            assert(q.take(n + 1) =~= q.take(n).push(Kind::Delim));
        } else {
            assert(w2 =~= word);
        }
    }
}

/// How the graph holds a word of the dictionary along the cells right of
/// the anchor: it has the arcs for the letters from the anchor down to the
/// first cell of the word, the delimiter, and the letters after the anchor
/// up to any cell of the word; and it stores them as a form where the word
/// ends.
pub proof fn lemma_word_walk_right(graph: &Graph, word: Seq<char>, i: int, n: int)
    requires
        graph.wf(),
        graph@.contains(word),
        1 <= i < n <= word.len(),
    ensures
        ({
            let w2 = word.take(n);
            &&& graph.init.walk(turned_form(w2, i)) is Some
            &&& (n == word.len() ==> graph.init.accepts(turned_form(w2, i)))
        }),
{
    let q = rotation(word, i);
    graph.lemma_any_rotation(word, i);
    lemma_form_begins_right(word, i, n);
    lemma_walk_prefix(graph.init, q, n + 1);
    if n == word.len() {
        assert(word.take(n) =~= word);
        lemma_trail_form(word, i);
    }
}

/// Whether the walk has passed the cells `lo..=hi` with the tiles `placed`
/// on the way to the play `m`.
#[verifier::opaque]
pub open spec fn on_way(s: Site, m: Seq<TilePlacement>, placed: Seq<TilePlacement>, lo: int, hi: int) -> bool {
    aim(s, m) && passed(s, placed, lo, hi) && tracks(s, m, placed, lo, hi)
}

/// A walk on the way to a play is wanted at the next cell of the play's word.
pub proof fn lemma_still_wanted(
    s: Site,
    m: Seq<TilePlacement>,
    pos: int,
    placed: Seq<TilePlacement>,
    lo: int,
    hi: int,
)
    requires
        on_way(s, m, placed, lo, hi),
        span_lo(s, m) <= pos <= span_hi(s, m),
        pos > s.a ==> lo == span_lo(s, m),
    ensures
        wanted(s, m, pos, placed, lo, hi),
{
    reveal(on_way);
    reveal(wanted);
}

/// A walk that has passed the whole word of the play that it is on the way
/// to has laid the play.
pub proof fn lemma_all_laid(s: Site, m: Seq<TilePlacement>, placed: Seq<TilePlacement>)
    requires
        s.wf(),
        on_way(s, m, placed, span_lo(s, m), span_hi(s, m)),
    ensures
        placed == m,
{
    reveal(on_way);
    lemma_span(s, m);
    lemma_agree(s, m, placed, span_lo(s, m), span_hi(s, m));
    assert forall|i: int| 0 <= i < m.len() implies placed.contains(#[trigger] m[i]) by {
        assert(span_lo(s, m) <= pos_of(s.d, m[i]) <= span_hi(s, m));
    }
    lemma_same_moves(s.d, placed, m);
}

/// The state of the walk and of the graph once the walk has passed, on the
/// way to the play `m`, a cell on the anchor or left of it.
#[verifier::rlimit(60)]
pub proof fn lemma_left_facts(
    s: Site,
    graph: &Graph,
    m: Seq<TilePlacement>,
    pos: int,
    placed: Seq<TilePlacement>,
    arc: Arc,
    lo: int,
    hi: int,
    t: TileLetter,
    fresh: bool,
)
    requires
        s.wf(),
        graph.wf(),
        s.dict == graph@,
        at(s, graph, pos, placed, arc, lo, hi),
        pos <= s.a,
        may_pass(s, t, pos, fresh),
        wanted_with(s, m, pos, placed, lo, hi, t),
    ensures
        ({
            let next = with_tile(s, placed, t, pos, fresh);
            let child = arc.next.child(Kind::Char(t.letter()));
            let w2 = letters(s.cur(next), pos, hi);
            let slo = span_lo(s, m);
            let shi = span_hi(s, m);
            let word = letters(s.cur(m), slo, shi);
            &&& 0 <= slo <= pos <= s.a <= shi < s.len()
            &&& hi == s.a
            &&& on_way(s, m, next, pos, hi)
            &&& s.dict.contains(word)
            &&& word.len() == shi - slo + 1
            &&& w2 == word.subrange(pos - slo, s.a - slo + 1)
            &&& graph.init.walk(rotation(w2, w2.len() as int)) == child
            &&& graph.init.walk(rotation(w2, w2.len() as int).push(Kind::Delim)) == (match child {
                Some(c) => c.next.child(Kind::Delim),
                None => None,
            })
            &&& arc.letter_set@.contains(t.letter()) == graph.init.accepts(rotation(w2, w2.len() as int))
            &&& !filled(s.line(), slo - 1)
            &&& !filled(s.line(), shi + 1)
        }),
{
    reveal(at);
    reveal(wanted);
    reveal(wanted_with);
    reveal(on_way);
    let next = with_tile(s, placed, t, pos, fresh);
    let x = t.letter();
    let w = letters(s.cur(placed), lo, hi);
    let w2 = letters(s.cur(next), pos, hi);
    let path = trail(w, s.a - lo + 1, false);
    let slo = span_lo(s, m);
    let shi = span_hi(s, m);
    let word = letters(s.cur(m), slo, shi);
    assert(0 <= slo <= pos <= s.a <= shi < s.len() && s.dict.contains(word) && !filled(s.line(), slo - 1)
        && !filled(s.line(), shi + 1)) by {
        lemma_span(s, m);
    }
    assert(passed(s, next, pos, hi) && tracks(s, m, next, pos, hi) && w2 == letters(s.cur(m), pos, hi)
        && w2 == seq![x] + w) by {
        lemma_tracks_step(s, m, pos, placed, lo, hi, t, fresh);
        lemma_step_left(s, placed, lo, hi, t, fresh);
    }
    assert(w2 =~= word.subrange(pos - slo, s.a - slo + 1));
    let path2 = path.push(Kind::Char(x));
    assert(path2 == rotation(w2, w2.len() as int)) by {
        lemma_trail_left(w, x);
    }
    lemma_walk_push(graph.init, path, Kind::Char(x));
    lemma_accepts_push(graph.init, path, Kind::Char(x));
    lemma_walk_push(graph.init, path2, Kind::Delim);
}

/// Going on from a cell on the anchor or left of it, on the way to the
/// play `m`: where the word of `m` begins further left, the graph has an arc
/// for the letter and the walk stays on the way at the next cell to the
/// left; where the word begins here and ends after the anchor, the graph
/// continues with the delimiter and the walk stays on the way at the cell
/// right of the anchor; where the word begins here and ends on the anchor,
/// the walk has laid `m` and records it.
#[verifier::rlimit(60)]
pub proof fn lemma_left_complete(
    s: Site,
    graph: &Graph,
    m: Seq<TilePlacement>,
    pos: int,
    placed: Seq<TilePlacement>,
    arc: Arc,
    lo: int,
    hi: int,
    t: TileLetter,
    fresh: bool,
)
    requires
        s.wf(),
        graph.wf(),
        s.dict == graph@,
        at(s, graph, pos, placed, arc, lo, hi),
        pos <= s.a,
        may_pass(s, t, pos, fresh),
        wanted_with(s, m, pos, placed, lo, hi, t),
    ensures
        ({
            let next = with_tile(s, placed, t, pos, fresh);
            let child = arc.next.child(Kind::Char(t.letter()));
            if span_lo(s, m) < pos {
                child is Some && pos > 0 && wanted(s, m, pos - 1, next, pos, hi)
            } else if span_hi(s, m) > s.a {
                child is Some && !filled(s.line(), pos - 1) && s.a + 1 < s.len() && child->0.next.child(
                    Kind::Delim,
                ) is Some && wanted(s, m, s.a + 1, next, pos, hi)
            } else {
                arc.letter_set@.contains(t.letter()) && !filled(s.line(), pos - 1) && !filled(
                    s.line(),
                    s.a + 1,
                ) && next == m
            }
        }),
{
    let next = with_tile(s, placed, t, pos, fresh);
    let slo = span_lo(s, m);
    let shi = span_hi(s, m);
    let word = letters(s.cur(m), slo, shi);
    lemma_left_facts(s, graph, m, pos, placed, arc, lo, hi, t, fresh);
    lemma_word_walk_left(graph, word, s.a - slo + 1, s.a - pos + 1);
    if slo < pos {
        lemma_still_wanted(s, m, pos - 1, next, pos, hi);
    } else if shi > s.a {
        lemma_still_wanted(s, m, s.a + 1, next, pos, hi);
    } else {
        lemma_all_laid(s, m, next);
    }
}

/// The state of the walk and of the graph once the walk has passed, on the
/// way to the play `m`, a cell right of the anchor.
#[verifier::rlimit(40)]
pub proof fn lemma_right_facts(
    s: Site,
    graph: &Graph,
    m: Seq<TilePlacement>,
    pos: int,
    placed: Seq<TilePlacement>,
    arc: Arc,
    lo: int,
    hi: int,
    t: TileLetter,
    fresh: bool,
)
    requires
        s.wf(),
        graph.wf(),
        s.dict == graph@,
        at(s, graph, pos, placed, arc, lo, hi),
        pos > s.a,
        may_pass(s, t, pos, fresh),
        wanted_with(s, m, pos, placed, lo, hi, t),
    ensures
        ({
            let next = with_tile(s, placed, t, pos, fresh);
            let child = arc.next.child(Kind::Char(t.letter()));
            let w2 = letters(s.cur(next), lo, pos);
            let slo = span_lo(s, m);
            let shi = span_hi(s, m);
            let word = letters(s.cur(m), slo, shi);
            &&& 0 <= slo <= s.a < pos <= shi < s.len()
            &&& lo == slo
            &&& on_way(s, m, next, lo, pos)
            &&& s.dict.contains(word)
            &&& word.len() == shi - slo + 1
            &&& w2 == word.take(pos - lo + 1)
            &&& graph.init.walk(turned_form(w2, s.a - lo + 1)) == child
            &&& arc.letter_set@.contains(t.letter()) == graph.init.accepts(turned_form(w2, s.a - lo + 1))
            &&& !filled(s.line(), shi + 1)
        }),
{
    reveal(at);
    reveal(wanted);
    reveal(wanted_with);
    reveal(on_way);
    let next = with_tile(s, placed, t, pos, fresh);
    let x = t.letter();
    let w = letters(s.cur(placed), lo, hi);
    let w2 = letters(s.cur(next), lo, pos);
    let i = s.a - lo + 1;
    let path = trail(w, i, true);
    let slo = span_lo(s, m);
    let shi = span_hi(s, m);
    let word = letters(s.cur(m), slo, shi);
    assert(0 <= slo <= s.a <= shi < s.len() && s.dict.contains(word) && !filled(s.line(), shi + 1)) by {
        lemma_span(s, m);
    }
    assert(passed(s, next, lo, pos) && tracks(s, m, next, lo, pos) && w2 == letters(s.cur(m), lo, pos)
        && w2 == w.push(x)) by {
        lemma_tracks_step(s, m, pos, placed, lo, hi, t, fresh);
        lemma_step_right(s, placed, lo, hi, t, fresh);
    }
    assert(w2 =~= word.take(pos - lo + 1));
    assert(w.len() == hi - lo + 1);
    let path2 = path.push(Kind::Char(x));
    assert(path2 == turned_form(w2, i)) by {
        lemma_trail_right(w, i, x);
    }
    lemma_walk_push(graph.init, path, Kind::Char(x));
    lemma_accepts_push(graph.init, path, Kind::Char(x));
}

/// Going on from a cell right of the anchor, on the way to the play `m`:
/// where the word of `m` ends further right, the graph has an arc for the
/// letter and the walk stays on the way at the next cell to the right;
/// where the word ends here, the walk has laid `m` and records it.
#[verifier::rlimit(40)]
pub proof fn lemma_right_complete(
    s: Site,
    graph: &Graph,
    m: Seq<TilePlacement>,
    pos: int,
    placed: Seq<TilePlacement>,
    arc: Arc,
    lo: int,
    hi: int,
    t: TileLetter,
    fresh: bool,
)
    requires
        s.wf(),
        graph.wf(),
        s.dict == graph@,
        at(s, graph, pos, placed, arc, lo, hi),
        pos > s.a,
        may_pass(s, t, pos, fresh),
        wanted_with(s, m, pos, placed, lo, hi, t),
    ensures
        ({
            let next = with_tile(s, placed, t, pos, fresh);
            let child = arc.next.child(Kind::Char(t.letter()));
            if span_hi(s, m) > pos {
                child is Some && pos + 1 < s.len() && wanted(s, m, pos + 1, next, lo, pos)
            } else {
                arc.letter_set@.contains(t.letter()) && !filled(s.line(), pos + 1) && next == m
            }
        }),
{
    let next = with_tile(s, placed, t, pos, fresh);
    let slo = span_lo(s, m);
    let shi = span_hi(s, m);
    let word = letters(s.cur(m), slo, shi);
    lemma_right_facts(s, graph, m, pos, placed, arc, lo, hi, t, fresh);
    lemma_word_walk_right(graph, word, s.a - slo + 1, pos - slo + 1);
    if shi > pos {
        lemma_still_wanted(s, m, pos + 1, next, lo, pos);
    } else {
        lemma_all_laid(s, m, next);
    }
}

/// The word of the tiles that a walk has laid on the cells `lo..=hi`, with
/// no tile of the board before the first cell nor after the last, lies on
/// those cells.
pub proof fn lemma_span_is(s: Site, placed: Seq<TilePlacement>, lo: int, hi: int)
    requires
        s.wf(),
        passed(s, placed, lo, hi),
        lo <= s.a,
        !filled(s.line(), lo - 1),
        !filled(s.line(), hi + 1),
    ensures
        placed.len() > 0,
        span_lo(s, placed) == lo,
        span_hi(s, placed) == hi,
{
    let cur = s.cur(placed);
    lemma_passed_positions(s, placed, lo, hi);
    let i = lemma_cur_inside(s, placed, lo, hi, s.a);
    let first = pos_of(s.d, placed[0]);
    assert(lo <= first <= hi);
    if lo > 0 {
        lemma_cur_outside(s, placed, lo, hi, lo - 1);
    }
    if hi + 1 < s.len() {
        lemma_cur_outside(s, placed, lo, hi, hi + 1);
    }
    crate::grid::lemma_run_before_is(cur, first, first - lo);
    crate::grid::lemma_run_after_is(cur, first, hi - first);
}

/// Whether `(pos2, lo2, hi2)` is where the walk may go on to from cell
/// `pos`, with the cells `lo..=hi` passed before: the next cell to the left,
/// the cell right of the anchor where no tile of the board lies before
/// `pos`, or the next cell to the right.
pub open spec fn goes_on(s: Site, pos: int, lo: int, hi: int, pos2: int, lo2: int, hi2: int) -> bool {
    if pos <= s.a {
        lo2 == pos && hi2 == hi && (pos2 == pos - 1 || (pos2 == s.a + 1 && !filled(s.line(), pos - 1)))
    } else {
        lo2 == lo && hi2 == pos && pos2 == pos + 1
    }
}

/// A play that the walk is on the way to after it has passed cell `pos`
/// with the tile `t` is one that it was on the way to before and that has
/// `t` on the cell.
#[verifier::rlimit(60)]
pub proof fn lemma_wanted_back(
    s: Site,
    graph: &Graph,
    m: Seq<TilePlacement>,
    pos: int,
    placed: Seq<TilePlacement>,
    arc: Arc,
    lo: int,
    hi: int,
    t: TileLetter,
    fresh: bool,
    pos2: int,
    lo2: int,
    hi2: int,
)
    requires
        s.wf(),
        at(s, graph, pos, placed, arc, lo, hi),
        may_pass(s, t, pos, fresh),
        goes_on(s, pos, lo, hi, pos2, lo2, hi2),
        wanted(s, m, pos2, with_tile(s, placed, t, pos, fresh), lo2, hi2),
    ensures
        wanted_with(s, m, pos, placed, lo, hi, t),
{
    reveal(at);
    reveal(wanted);
    reveal(wanted_with);
    let next = with_tile(s, placed, t, pos, fresh);
    lemma_span(s, m);
    assert(passed(s, next, lo2, hi2) && s.cur(next)[pos] == Some(t)) by {
        if pos <= s.a {
            lemma_step_left(s, placed, lo, hi, t, fresh);
        } else {
            lemma_step_right(s, placed, lo, hi, t, fresh);
        }
    }
    assert(s.cur(m)[pos] == Some(t)) by {
        lemma_agree(s, m, next, lo2, hi2);
    }
    lemma_cell(s, pos);
    assert forall|i: int| 0 <= i < m.len() && lo <= pos_of(s.d, #[trigger] m[i]) <= hi implies placed.contains(
        m[i],
    ) by {
        assert(next.contains(m[i]));
        let j = choose|j: int| 0 <= j < next.len() && next[j] == m[i];
        if fresh {
            let p = s.placement(t, pos);
            assert(pos_of(s.d, p) == pos);
            if pos <= s.a {
                assert(next[0] == p);
                assert(j > 0);
                assert(placed[j - 1] == next[j]);
            } else {
                assert(next[next.len() - 1] == p);
                assert(j < placed.len());
                assert(placed[j] == next[j]);
            }
        }
    }
}

/// The play that a walk records is one that it was on the way to before it
/// passed the last cell, with the tile of that cell on it.
#[verifier::rlimit(60)]
pub proof fn lemma_recorded_wanted(
    s: Site,
    graph: &Graph,
    pos: int,
    placed: Seq<TilePlacement>,
    arc: Arc,
    lo: int,
    hi: int,
    t: TileLetter,
    fresh: bool,
)
    requires
        s.wf(),
        at(s, graph, pos, placed, arc, lo, hi),
        may_pass(s, t, pos, fresh),
        aim(s, with_tile(s, placed, t, pos, fresh)),
        if pos <= s.a {
            !filled(s.line(), pos - 1) && !filled(s.line(), s.a + 1)
        } else {
            !filled(s.line(), pos + 1)
        },
    ensures
        wanted_with(s, with_tile(s, placed, t, pos, fresh), pos, placed, lo, hi, t),
{
    reveal(at);
    reveal(wanted);
    reveal(wanted_with);
    let next = with_tile(s, placed, t, pos, fresh);
    let lo2 = if pos <= s.a {
        pos
    } else {
        lo
    };
    let hi2 = if pos <= s.a {
        hi
    } else {
        pos
    };
    assert(passed(s, next, lo2, hi2) && s.cur(next)[pos] == Some(t)) by {
        if pos <= s.a {
            lemma_step_left(s, placed, lo, hi, t, fresh);
        } else {
            lemma_step_right(s, placed, lo, hi, t, fresh);
        }
    }
    lemma_span_is(s, next, lo2, hi2);
    lemma_cell(s, pos);
    assert forall|i: int| 0 <= i < next.len() && lo <= pos_of(s.d, #[trigger] next[i]) <= hi implies placed.contains(
        next[i],
    ) by {
        if fresh {
            let p = s.placement(t, pos);
            assert(pos_of(s.d, p) == pos);
            if pos <= s.a {
                assert(next[0] == p);
                assert(i > 0);
                assert(placed[i - 1] == next[i]);
            } else {
                assert(next[next.len() - 1] == p);
                assert(i < placed.len());
                assert(placed[i] == next[i]);
            }
        } else {
            assert(placed[i] == next[i]);
        }
    }
}

/// Whether every move that the list `after` holds behind the list `before`
/// is a play that the walk is on the way to at cell `pos`.
#[verifier::opaque]
pub open spec fn added_wanted(
    s: Site,
    before: Seq<Vec<TilePlacement>>,
    after: Seq<Vec<TilePlacement>>,
    pos: int,
    placed: Seq<TilePlacement>,
    lo: int,
    hi: int,
) -> bool {
    forall|i: int| before.len() <= i < after.len() ==> wanted(s, (#[trigger] after[i])@, pos, placed, lo, hi)
}

/// Whether every move that the list `after` holds behind the list `before`
/// is a play that the walk is on the way to at cell `pos` and that has the
/// tile `t` on that cell.
#[verifier::opaque]
pub open spec fn added_wanted_with(
    s: Site,
    before: Seq<Vec<TilePlacement>>,
    after: Seq<Vec<TilePlacement>>,
    pos: int,
    placed: Seq<TilePlacement>,
    lo: int,
    hi: int,
    t: TileLetter,
) -> bool {
    forall|i: int|
        before.len() <= i < after.len() ==> wanted_with(s, (#[trigger] after[i])@, pos, placed, lo, hi, t)
}

/// Nothing is added to a list that stays as it is.
pub proof fn lemma_added_none(
    s: Site,
    list: Seq<Vec<TilePlacement>>,
    pos: int,
    placed: Seq<TilePlacement>,
    lo: int,
    hi: int,
    t: TileLetter,
)
    ensures
        added_wanted(s, list, list, pos, placed, lo, hi),
        added_wanted_with(s, list, list, pos, placed, lo, hi, t),
{
    reveal(added_wanted);
    reveal(added_wanted_with);
}

/// What is added in two steps with the same tile on the cell.
pub proof fn lemma_added_twice(
    s: Site,
    a: Seq<Vec<TilePlacement>>,
    b: Seq<Vec<TilePlacement>>,
    c: Seq<Vec<TilePlacement>>,
    pos: int,
    placed: Seq<TilePlacement>,
    lo: int,
    hi: int,
    t: TileLetter,
)
    requires
        added_wanted_with(s, a, b, pos, placed, lo, hi, t),
        added_wanted_with(s, b, c, pos, placed, lo, hi, t),
        b.len() <= c.len(),
        forall|i: int| 0 <= i < b.len() ==> c[i] == b[i],
    ensures
        added_wanted_with(s, a, c, pos, placed, lo, hi, t),
{
    reveal(added_wanted_with);
    assert forall|i: int| a.len() <= i < c.len() implies wanted_with(
        s,
        (#[trigger] c[i])@,
        pos,
        placed,
        lo,
        hi,
        t,
    ) by {
        if i < b.len() {
            assert(c[i] == b[i]);
        }
    }
}

/// What is added at a cell with one tile after another.
pub proof fn lemma_added_more(
    s: Site,
    a: Seq<Vec<TilePlacement>>,
    b: Seq<Vec<TilePlacement>>,
    c: Seq<Vec<TilePlacement>>,
    pos: int,
    placed: Seq<TilePlacement>,
    lo: int,
    hi: int,
    t: TileLetter,
)
    requires
        added_wanted(s, a, b, pos, placed, lo, hi),
        added_wanted_with(s, b, c, pos, placed, lo, hi, t),
        b.len() <= c.len(),
        forall|i: int| 0 <= i < b.len() ==> c[i] == b[i],
    ensures
        added_wanted(s, a, c, pos, placed, lo, hi),
{
    reveal(added_wanted);
    reveal(added_wanted_with);
    reveal(wanted_with);
    assert forall|i: int| a.len() <= i < c.len() implies wanted(s, (#[trigger] c[i])@, pos, placed, lo, hi) by {
        if i < b.len() {
            assert(c[i] == b[i]);
        }
    }
}

/// What the walk adds where it goes on to from a cell are plays that it was
/// on the way to at the cell, with the tile of the cell on it.
pub proof fn lemma_added_step(
    s: Site,
    graph: &Graph,
    pos: int,
    placed: Seq<TilePlacement>,
    arc: Arc,
    lo: int,
    hi: int,
    t: TileLetter,
    fresh: bool,
    before: Seq<Vec<TilePlacement>>,
    after: Seq<Vec<TilePlacement>>,
    pos2: int,
    lo2: int,
    hi2: int,
)
    requires
        s.wf(),
        at(s, graph, pos, placed, arc, lo, hi),
        may_pass(s, t, pos, fresh),
        goes_on(s, pos, lo, hi, pos2, lo2, hi2),
        added_wanted(s, before, after, pos2, with_tile(s, placed, t, pos, fresh), lo2, hi2),
    ensures
        added_wanted_with(s, before, after, pos, placed, lo, hi, t),
{
    reveal(added_wanted);
    reveal(added_wanted_with);
    assert forall|i: int| before.len() <= i < after.len() implies wanted_with(
        s,
        (#[trigger] after[i])@,
        pos,
        placed,
        lo,
        hi,
        t,
    ) by {
        lemma_wanted_back(s, graph, after[i]@, pos, placed, arc, lo, hi, t, fresh, pos2, lo2, hi2);
    }
}

/// What the walk adds where it records the tiles laid is a play that it
/// was on the way to at the cell, with the tile of the cell on it.
pub proof fn lemma_added_record(
    s: Site,
    graph: &Graph,
    pos: int,
    placed: Seq<TilePlacement>,
    arc: Arc,
    lo: int,
    hi: int,
    t: TileLetter,
    fresh: bool,
    before: Seq<Vec<TilePlacement>>,
    after: Seq<Vec<TilePlacement>>,
)
    requires
        s.wf(),
        at(s, graph, pos, placed, arc, lo, hi),
        may_pass(s, t, pos, fresh),
        aim(s, with_tile(s, placed, t, pos, fresh)),
        if pos <= s.a {
            !filled(s.line(), pos - 1) && !filled(s.line(), s.a + 1)
        } else {
            !filled(s.line(), pos + 1)
        },
        after == before || (after.len() == before.len() + 1 && after.last()@ == with_tile(
            s,
            placed,
            t,
            pos,
            fresh,
        )),
    ensures
        added_wanted_with(s, before, after, pos, placed, lo, hi, t),
{
    reveal(added_wanted_with);
    lemma_recorded_wanted(s, graph, pos, placed, arc, lo, hi, t, fresh);
}

} // verus!
