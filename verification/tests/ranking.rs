use scrabble_solver::ranking::{
    find_placement, insert_ranked, key_precedes, placement_precedes, same_placement, same_placements,
    tile_rank, Solution,
};
use scrabble_solver::tiles::{TileLetter, TilePlacement};

fn tile(ch: char, row: usize, col: usize) -> TilePlacement {
    TilePlacement { letter: TileLetter::Char(ch), row, col }
}

fn blank(ch: char, row: usize, col: usize) -> TilePlacement {
    TilePlacement { letter: TileLetter::Blank(ch), row, col }
}

fn solution(score: u32, placement: Vec<TilePlacement>) -> Solution {
    Solution { placement, score }
}

#[test]
fn rank_of_a_tile() {
    assert_eq!(tile_rank(TileLetter::Char('a')), 194);
    assert_eq!(tile_rank(TileLetter::Blank('a')), 195);
    assert_eq!(tile_rank(TileLetter::Char('b')), 196);
    assert!(tile_rank(TileLetter::Blank('y')) < tile_rank(TileLetter::Char('z')));
}

#[test]
fn order_of_placements() {
    assert!(placement_precedes(&tile('z', 1, 9), &tile('a', 2, 0)));
    assert!(!placement_precedes(&tile('a', 2, 0), &tile('z', 1, 9)));
    assert!(placement_precedes(&tile('z', 1, 3), &tile('a', 1, 4)));
    assert!(placement_precedes(&tile('a', 1, 3), &tile('b', 1, 3)));
    assert!(placement_precedes(&tile('a', 1, 3), &blank('a', 1, 3)));
    assert!(!placement_precedes(&blank('a', 1, 3), &tile('a', 1, 3)));
    assert!(!placement_precedes(&tile('a', 1, 3), &tile('a', 1, 3)));
    assert!(same_placement(&tile('a', 1, 3), &tile('a', 1, 3)));
    assert!(!same_placement(&tile('a', 1, 3), &blank('a', 1, 3)));
    assert!(!same_placement(&tile('a', 1, 3), &tile('a', 3, 1)));
}

#[test]
fn order_of_lists_of_placements() {
    let ab = vec![tile('a', 0, 0), tile('b', 0, 1)];
    let ac = vec![tile('a', 0, 0), tile('c', 0, 1)];
    let a = vec![tile('a', 0, 0)];
    let none: Vec<TilePlacement> = vec![];
    assert!(key_precedes(&ab, &ac));
    assert!(!key_precedes(&ac, &ab));
    assert!(key_precedes(&a, &ab));
    assert!(!key_precedes(&ab, &a));
    assert!(key_precedes(&none, &a));
    assert!(!key_precedes(&a, &none));
    assert!(!key_precedes(&ab, &ab));
    assert!(!key_precedes(&none, &none));
    assert!(same_placements(&ab, &ab.clone()));
    assert!(!same_placements(&ab, &ac));
    assert!(!same_placements(&ab, &a));
    assert!(same_placements(&none, &none));
}

#[test]
fn higher_score_first_then_the_placements() {
    let high = solution(9, vec![tile('z', 5, 5)]);
    let low = solution(3, vec![tile('a', 0, 0)]);
    let low_later = solution(3, vec![tile('a', 0, 1)]);
    assert!(high.precedes(&low));
    assert!(!low.precedes(&high));
    assert!(low.precedes(&low_later));
    assert!(!low_later.precedes(&low));
    assert!(!low.precedes(&low));
}

#[test]
fn a_solution_is_put_at_its_rank() {
    let mut list: Vec<Solution> = Vec::new();
    insert_ranked(&mut list, solution(5, vec![tile('b', 1, 1)]));
    insert_ranked(&mut list, solution(7, vec![tile('c', 2, 2)]));
    insert_ranked(&mut list, solution(5, vec![tile('a', 1, 1)]));
    insert_ranked(&mut list, solution(1, vec![tile('d', 0, 0)]));
    insert_ranked(&mut list, solution(5, vec![tile('a', 1, 0), tile('b', 1, 1)]));
    insert_ranked(&mut list, solution(9, vec![tile('e', 9, 9)]));
    let scores: Vec<u32> = list.iter().map(|s| s.score).collect();
    assert_eq!(scores, vec![9, 7, 5, 5, 5, 1]);
    assert_eq!(list[2].placement, vec![tile('a', 1, 0), tile('b', 1, 1)]);
    assert_eq!(list[3].placement, vec![tile('a', 1, 1)]);
    assert_eq!(list[4].placement, vec![tile('b', 1, 1)]);
    for pair in list.windows(2) {
        assert!(pair[0].precedes(&pair[1]));
    }
    assert!(find_placement(&list, &vec![tile('c', 2, 2)]));
    assert!(find_placement(&list, &vec![tile('a', 1, 0), tile('b', 1, 1)]));
    assert!(!find_placement(&list, &vec![tile('a', 1, 0)]));
    assert!(!find_placement(&list, &vec![blank('c', 2, 2)]));
    assert!(!find_placement(&Vec::new(), &vec![tile('c', 2, 2)]));
}
