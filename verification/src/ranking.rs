//! Solutions and their ranking: by score, the higher first, and among equal
//! scores by their placements, in the order of rows, columns and letters.
use vstd::prelude::*;
use crate::tiles::{TileLetter, TilePlacement};

verus! {

/// A solution: the placement of the letters and its total score.
#[derive(Clone, Debug)]
pub struct Solution {
    pub placement: Vec<TilePlacement>,
    pub score: u32,
}

/// What a solution is, as mathematics.
pub struct Ranked {
    pub placement: Seq<TilePlacement>,
    pub score: u32,
}

impl View for Solution {
    type V = Ranked;

    open spec fn view(&self) -> Ranked {
        Ranked { placement: self.placement@, score: self.score }
    }
}

/// The solutions of a list, as mathematics.
pub open spec fn views(v: Seq<Solution>) -> Seq<Ranked> {
    Seq::new(v.len(), |i: int| v[i]@)
}

/// The rank of a tile among the tiles: by its character, a letter tile
/// before the blank that stands for the same character.
pub open spec fn tile_code(t: TileLetter) -> int {
    match t {
        TileLetter::Char(c) => 2 * (c as int),
        TileLetter::Blank(c) => 2 * (c as int) + 1,
    }
}

/// Whether the placement `a` comes before `b`: by row, then by column,
/// then by tile.
pub open spec fn placement_before(a: TilePlacement, b: TilePlacement) -> bool {
    a.row < b.row || (a.row == b.row && (a.col < b.col || (a.col == b.col && tile_code(a.letter)
        < tile_code(b.letter))))
}

/// Whether the list of placements `a` comes before `b` in the order of a
/// dictionary: at the first place where they differ, `a` ends or has the
/// placement that comes first.
pub open spec fn key_before(a: Seq<TilePlacement>, b: Seq<TilePlacement>) -> bool
    decreases a.len(),
{
    if b.len() == 0 {
        false
    } else if a.len() == 0 {
        true
    } else if a[0] == b[0] {
        key_before(a.drop_first(), b.drop_first())
    } else {
        placement_before(a[0], b[0])
    }
}

/// Whether the solution `a` ranks before `b`: it has the higher score, or
/// the same score and the placements that come first.
pub open spec fn ranks_before(a: Ranked, b: Ranked) -> bool {
    a.score > b.score || (a.score == b.score && key_before(a.placement, b.placement))
}

/// Whether a list of solutions is ranked: each solution ranks before all
/// that follow it.
pub open spec fn ranked(v: Seq<Ranked>) -> bool {
    forall|i: int, j: int| 0 <= i < j < v.len() ==> ranks_before(#[trigger] v[i], #[trigger] v[j])
}

/// Whether the list holds a solution with the placements `m`.
pub open spec fn holds(v: Seq<Ranked>, m: Seq<TilePlacement>) -> bool {
    exists|i: int| 0 <= i < v.len() && (#[trigger] v[i]).placement == m
}

/// Different placements are in order, one way or the other.
pub proof fn lemma_placement_total(a: TilePlacement, b: TilePlacement)
    ensures
        a == b || placement_before(a, b) || placement_before(b, a),
        !(placement_before(a, b) && placement_before(b, a)),
{
    if a.row == b.row && a.col == b.col && tile_code(a.letter) == tile_code(b.letter) {
        assert(a.letter == b.letter);
    }
}

/// No list of placements comes before itself.
pub proof fn lemma_key_irreflexive(a: Seq<TilePlacement>)
    ensures
        !key_before(a, a),
    decreases a.len(),
{
    if a.len() > 0 {
        lemma_key_irreflexive(a.drop_first());
    }
}

/// The order of lists of placements is transitive.
pub proof fn lemma_key_transitive(a: Seq<TilePlacement>, b: Seq<TilePlacement>, c: Seq<TilePlacement>)
    requires
        key_before(a, b),
        key_before(b, c),
    ensures
        key_before(a, c),
    decreases a.len(),
{
    if a.len() > 0 {
        if a[0] == b[0] && b[0] == c[0] {
            lemma_key_transitive(a.drop_first(), b.drop_first(), c.drop_first());
        }
    }
}

/// Different lists of placements are in order, one way or the other.
pub proof fn lemma_key_total(a: Seq<TilePlacement>, b: Seq<TilePlacement>)
    ensures
        a == b || key_before(a, b) || key_before(b, a),
    decreases a.len(),
{
    if a.len() == 0 || b.len() == 0 {
        if a.len() == 0 && b.len() == 0 {
            assert(a =~= b);
        }
    } else if a[0] == b[0] {
        lemma_key_total(a.drop_first(), b.drop_first());
        if a.drop_first() == b.drop_first() {
            assert(a =~= seq![a[0]] + a.drop_first());
            assert(b =~= seq![b[0]] + b.drop_first());
        }
    } else {
        lemma_placement_total(a[0], b[0]);
    }
}

/// No solution ranks before itself, and no two rank before each other.
pub proof fn lemma_rank_strict(a: Ranked, b: Ranked)
    ensures
        !ranks_before(a, a),
        !(ranks_before(a, b) && ranks_before(b, a)),
{
    lemma_key_irreflexive(a.placement);
    if ranks_before(a, b) && ranks_before(b, a) {
        lemma_key_transitive(a.placement, b.placement, a.placement);
    }
}

/// The ranking is transitive.
pub proof fn lemma_rank_transitive(a: Ranked, b: Ranked, c: Ranked)
    requires
        ranks_before(a, b),
        ranks_before(b, c),
    ensures
        ranks_before(a, c),
{
    if a.score == b.score && b.score == c.score {
        lemma_key_transitive(a.placement, b.placement, c.placement);
    }
}

/// Solutions with different placements are ranked, one way or the other.
pub proof fn lemma_rank_total(a: Ranked, b: Ranked)
    requires
        a.placement != b.placement,
    ensures
        ranks_before(a, b) || ranks_before(b, a),
{
    lemma_key_total(a.placement, b.placement);
}

/// The ranking is unique: two ranked lists with the same solutions are the
/// same list, solution by solution.
pub proof fn lemma_ranking_unique(a: Seq<Ranked>, b: Seq<Ranked>)
    requires
        ranked(a),
        ranked(b),
        forall|i: int| 0 <= i < a.len() ==> b.contains(#[trigger] a[i]),
        forall|j: int| 0 <= j < b.len() ==> a.contains(#[trigger] b[j]),
    ensures
        a == b,
    decreases a.len(),
{
    if a.len() == 0 {
        if b.len() > 0 {
            assert(a.contains(b[0]));
        }
        assert(a =~= b);
    } else if b.len() == 0 {
        assert(b.contains(a[0]));
    } else {
        let x = a.last();
        let y = b.last();
        assert(b.contains(a[a.len() - 1]));
        assert(a.contains(b[b.len() - 1]));
        let jx = choose|j: int| 0 <= j < b.len() && b[j] == x;
        let iy = choose|i: int| 0 <= i < a.len() && a[i] == y;
        if jx < b.len() - 1 && iy < a.len() - 1 {
            assert(ranks_before(b[jx], b[b.len() - 1]));
            assert(ranks_before(a[iy], a[a.len() - 1]));
            lemma_rank_strict(x, y);
        }
        assert(x == y);
        let ra = a.drop_last();
        let rb = b.drop_last();
        assert forall|i: int, j: int| 0 <= i < j < ra.len() implies ranks_before(
            #[trigger] ra[i],
            #[trigger] ra[j],
        ) by {
            assert(ra[i] == a[i] && ra[j] == a[j]);
        }
        assert forall|i: int, j: int| 0 <= i < j < rb.len() implies ranks_before(
            #[trigger] rb[i],
            #[trigger] rb[j],
        ) by {
            assert(rb[i] == b[i] && rb[j] == b[j]);
        }
        assert forall|i: int| 0 <= i < ra.len() implies rb.contains(#[trigger] ra[i]) by {
            assert(ra[i] == a[i]);
            assert(b.contains(a[i]));
            let j = choose|j: int| 0 <= j < b.len() && b[j] == a[i];
            assert(ranks_before(a[i], a[a.len() - 1]));
            lemma_rank_strict(a[i], x);
            assert(j < b.len() - 1);
            assert(rb[j] == ra[i]);
        }
        assert forall|j: int| 0 <= j < rb.len() implies ra.contains(#[trigger] rb[j]) by {
            assert(rb[j] == b[j]);
            assert(a.contains(b[j]));
            let i = choose|i: int| 0 <= i < a.len() && a[i] == b[j];
            assert(ranks_before(b[j], b[b.len() - 1]));
            lemma_rank_strict(b[j], y);
            assert(i < a.len() - 1);
            assert(ra[i] == rb[j]);
        }
        lemma_ranking_unique(ra, rb);
        assert(a =~= ra.push(x));
        assert(b =~= rb.push(y));
    }
}

/// The rank of a tile among the tiles.
pub fn tile_rank(t: TileLetter) -> (r: u32)
    ensures
        r == tile_code(t),
{
    match t {
        TileLetter::Char(c) => 2 * (c as u32),
        TileLetter::Blank(c) => 2 * (c as u32) + 1,
    }
}

/// Tests whether two placements are the same.
pub fn same_placement(a: &TilePlacement, b: &TilePlacement) -> (r: bool)
    ensures
        r == (*a == *b),
{
    proof {
        lemma_placement_total(*a, *b);
    }
    a.row == b.row && a.col == b.col && tile_rank(a.letter) == tile_rank(b.letter)
}

/// Tests whether the placement `a` comes before `b`.
pub fn placement_precedes(a: &TilePlacement, b: &TilePlacement) -> (r: bool)
    ensures
        r == placement_before(*a, *b),
{
    a.row < b.row || (a.row == b.row && (a.col < b.col || (a.col == b.col && tile_rank(a.letter)
        < tile_rank(b.letter))))
}

/// Tests whether two lists of placements are the same.
pub fn same_placements(a: &Vec<TilePlacement>, b: &Vec<TilePlacement>) -> (r: bool)
    ensures
        r == (a@ == b@),
{
    if a.len() != b.len() {
        return false;
    }
    let mut i: usize = 0;
    while i < a.len()
        invariant
            i <= a.len(),
            a.len() == b.len(),
            forall|j: int| 0 <= j < i ==> a@[j] == b@[j],
        decreases a.len() - i,
    {
        if !same_placement(&a[i], &b[i]) {
            return false;
        }
        i += 1;
    }
    assert(a@ =~= b@);
    true
}

/// Tests whether the list of placements `a` comes before `b`.
pub fn key_precedes(a: &Vec<TilePlacement>, b: &Vec<TilePlacement>) -> (r: bool)
    ensures
        r == key_before(a@, b@),
{
    let mut i: usize = 0;
    assert(a@.skip(0) =~= a@ && b@.skip(0) =~= b@);
    while i < a.len() && i < b.len()
        invariant
            i <= a.len(),
            i <= b.len(),
            key_before(a@, b@) == key_before(a@.skip(i as int), b@.skip(i as int)),
        decreases a.len() - i,
    {
        proof {
            assert(a@.skip(i as int)[0] == a@[i as int]);
            assert(b@.skip(i as int)[0] == b@[i as int]);
            assert(a@.skip(i as int).drop_first() =~= a@.skip(i + 1));
            assert(b@.skip(i as int).drop_first() =~= b@.skip(i + 1));
        }
        if !same_placement(&a[i], &b[i]) {
            return placement_precedes(&a[i], &b[i]);
        }
        i += 1;
    }
    i < b.len()
}

impl Solution {
    /// Tests whether this solution ranks before `other`.
    pub fn precedes(&self, other: &Solution) -> (r: bool)
        ensures
            r == ranks_before(self@, other@),
    {
        self.score > other.score || (self.score == other.score && key_precedes(
            &self.placement,
            &other.placement,
        ))
    }
}

/// Tests whether the list holds a solution with the placements `m`.
pub fn find_placement(list: &Vec<Solution>, m: &Vec<TilePlacement>) -> (r: bool)
    ensures
        r == holds(views(list@), m@),
{
    let mut i: usize = 0;
    while i < list.len()
        invariant
            i <= list.len(),
            forall|j: int| 0 <= j < i ==> (#[trigger] views(list@)[j]).placement != m@,
        decreases list.len() - i,
    {
        if same_placements(&list[i].placement, m) {
            assert(views(list@)[i as int].placement == m@);
            return true;
        }
        i += 1;
    }
    false
}

/// Puts a solution into a ranked list that holds none with its placements,
/// at its rank.
pub fn insert_ranked(list: &mut Vec<Solution>, sol: Solution)
    requires
        ranked(views(old(list)@)),
        !holds(views(old(list)@), sol@.placement),
    ensures
        ranked(views(final(list)@)),
        exists|p: int|
            0 <= p <= old(list)@.len() && views(final(list)@) == #[trigger] views(old(list)@).insert(p, sol@),
{
    let ghost before = views(list@);
    let mut p: usize = 0;
    while p < list.len() && list[p].precedes(&sol)
        invariant
            p <= list.len(),
            before == views(list@),
            forall|i: int| 0 <= i < p ==> ranks_before(#[trigger] before[i], sol@),
        decreases list.len() - p,
    {
        p += 1;
    }
    let ghost x = sol@;
    list.insert(p, sol);
    proof {
        let after = views(list@);
        assert(after =~= before.insert(p as int, x));
        assert forall|i: int, j: int| 0 <= i < j < after.len() implies ranks_before(
            #[trigger] after[i],
            #[trigger] after[j],
        ) by {
            if j < p {
                assert(ranks_before(before[i], before[j]));
            } else if j == p {
            } else if i == p {
                assert(before[p as int].placement != x.placement);
                lemma_rank_total(before[p as int], x);
                if j - 1 > p {
                    assert(ranks_before(before[p as int], before[j - 1]));
                    lemma_rank_transitive(x, before[p as int], before[j - 1]);
                }
            } else if i < p {
                assert(ranks_before(before[i], before[j - 1]));
            } else {
                assert(ranks_before(before[i - 1], before[j - 1]));
            }
        }
    }
}

} // verus!
