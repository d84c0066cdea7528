use scrabble_solver::ranking::Solution;
use scrabble_solver::scoring::{Premium, Scoring};
use scrabble_solver::solver::Solver;
use scrabble_solver::tiles::{Direction, RackLetter, SolverError, TileLetter, TilePlacement};

fn tile(ch: char, row: usize, col: usize) -> TilePlacement {
    TilePlacement { letter: TileLetter::Char(ch), row, col }
}

fn blank(ch: char, row: usize, col: usize) -> TilePlacement {
    TilePlacement { letter: TileLetter::Blank(ch), row, col }
}

fn rack(letters: &str) -> Vec<RackLetter> {
    letters.chars().map(|c| if c == '?' { RackLetter::Blank } else { RackLetter::Char(c) }).collect()
}

/// One point for every letter, a double word score on the centre, and the
/// bonus for a play of seven tiles.
fn centre_double(rows: usize, cols: usize) -> Scoring {
    let mut premiums = vec![Premium::Plain; rows * cols];
    premiums[(rows / 2) * cols + cols / 2] = Premium::DoubleWord;
    Scoring { letter_values: vec![1; 26], premiums, bingo_bonus: 50, bingo_threshold: Some(7) }
}

fn solver_with(words: &[&str]) -> Solver {
    let mut solver = Solver::with_scoring(15, 15, centre_double(15, 15)).unwrap();
    for word in words {
        solver.add_dictionary_word(word).unwrap();
    }
    solver
}

fn word_of(solution: &Solution) -> String {
    solution.placement.iter().map(|p| p.letter.to_char()).collect()
}

fn direction_of(solution: &Solution) -> Direction {
    if solution.placement.iter().all(|p| p.row == solution.placement[0].row) {
        Direction::Horizontal
    } else {
        Direction::Vertical
    }
}

fn find<'a>(solutions: &'a [Solution], placement: &[TilePlacement]) -> Option<&'a Solution> {
    solutions.iter().find(|s| s.placement == placement)
}

#[test]
fn empty_board_one_word() {
    let solver = solver_with(&["care"]);
    let solutions = solver.generate_moves(&rack("carexyz"), None);
    let wanted = [tile('c', 7, 7), tile('a', 7, 8), tile('r', 7, 9), tile('e', 7, 10)];
    let found = find(&solutions, &wanted).expect("care from the centre to the right");
    assert_eq!(found.score, 8);
    // the word fits through the centre at four places in each direction
    assert_eq!(solutions.len(), 8);
    for solution in &solutions {
        assert_eq!(word_of(solution), "care");
        assert_eq!(solution.score, 8);
        assert!(solution.placement.iter().any(|p| p.row == 7 && p.col == 7));
    }
}

#[test]
fn cross_word() {
    let mut solver = solver_with(&["care", "at", "ate"]);
    solver
        .place_tiles(vec![tile('c', 7, 7), tile('a', 7, 8), tile('r', 7, 9), tile('e', 7, 10)])
        .unwrap();
    let solutions = solver.generate_moves(&rack("at"), None);
    let wanted = [tile('a', 5, 10), tile('t', 6, 10)];
    let found = find(&solutions, &wanted).expect("at above the e of care");
    // a, t and the e that was there: three points, no premium left
    assert_eq!(found.score, 3);
    // the only other play: t under the a of care
    let other = find(&solutions, &[tile('t', 8, 8)]).expect("t under the a of care");
    assert_eq!(other.score, 2);
    assert_eq!(solutions.len(), 2);
    assert_eq!(solutions[0].placement, wanted);
}

#[test]
fn cross_words_are_scored_with_the_main_word() {
    let mut solver = solver_with(&["care", "at", "ta", "er"]);
    solver
        .place_tiles(vec![tile('c', 7, 7), tile('a', 7, 8), tile('r', 7, 9), tile('e', 7, 10)])
        .unwrap();
    let solutions = solver.generate_moves(&rack("tr"), None);
    // "tr" is no word, but t under a and r under e form "at" and "er" down
    // the columns; laid side by side they would form "tr" along the row
    assert!(find(&solutions, &[tile('t', 8, 8), tile('r', 8, 10)]).is_none());
    let t = find(&solutions, &[tile('t', 8, 8)]).expect("t under the a of care");
    assert_eq!(t.score, 2);
    let r = find(&solutions, &[tile('r', 8, 10)]).expect("r under the e of care");
    assert_eq!(r.score, 2);
    // t above the a forms "ta"
    let above = find(&solutions, &[tile('t', 6, 8)]).expect("t above the a of care");
    assert_eq!(above.score, 2);
    assert_eq!(solutions.len(), 3);
}

#[test]
fn blank_realisation() {
    let solver = solver_with(&["care"]);
    let solutions = solver.generate_moves(&rack("car?"), None);
    let wanted = [tile('c', 7, 7), tile('a', 7, 8), tile('r', 7, 9), blank('e', 7, 10)];
    let found = find(&solutions, &wanted).expect("care with the blank as its last letter");
    assert_eq!(found.placement.last().unwrap().letter, TileLetter::Blank('e'));
    // the blank adds nothing: (1 + 1 + 1 + 0) doubled
    assert_eq!(found.score, 6);
    for solution in &solutions {
        assert_eq!(word_of(solution), "care");
        assert_eq!(solution.placement[3].letter, TileLetter::Blank('e'));
        assert_eq!(solution.score, 6);
    }
    assert_eq!(solutions.len(), 8);
}

#[test]
fn blank_for_any_letter() {
    let solver = solver_with(&["care"]);
    let solutions = solver.generate_moves(&rack("c?re"), None);
    assert!(find(&solutions, &[tile('c', 7, 7), blank('a', 7, 8), tile('r', 7, 9), tile('e', 7, 10)]).is_some());
    let two = solver.generate_moves(&rack("??re"), None);
    assert!(find(&two, &[blank('c', 7, 7), blank('a', 7, 8), tile('r', 7, 9), tile('e', 7, 10)]).is_some());
    // with a blank beside the letter, each tile of the word may be either
    let both = solver.generate_moves(&rack("care?"), None);
    assert!(find(&both, &[tile('c', 7, 7), tile('a', 7, 8), tile('r', 7, 9), tile('e', 7, 10)]).is_some());
    assert!(find(&both, &[blank('c', 7, 7), tile('a', 7, 8), tile('r', 7, 9), tile('e', 7, 10)]).is_some());
    assert_eq!(both.len(), 8 * 5);
}

#[test]
fn no_legal_move() {
    let mut solver = solver_with(&["care"]);
    solver
        .place_tiles(vec![tile('c', 7, 7), tile('a', 7, 8), tile('r', 7, 9), tile('e', 7, 10)])
        .unwrap();
    // no letter goes above or below the word, nor before or after it
    for col in 7..11 {
        let above = solver.board().cross_set(6, col, Direction::Horizontal).unwrap();
        let below = solver.board().cross_set(8, col, Direction::Horizontal).unwrap();
        for ch in 'a'..='z' {
            assert!(!above.contains(ch));
            assert!(!below.contains(ch));
        }
    }
    let before = solver.board().cross_set(7, 6, Direction::Vertical).unwrap();
    let after = solver.board().cross_set(7, 11, Direction::Vertical).unwrap();
    for ch in 'a'..='z' {
        assert!(!before.contains(ch));
        assert!(!after.contains(ch));
    }
    assert!(solver.generate_moves(&rack("xyz"), None).is_empty());
    assert!(solver.generate_moves(&rack("caa"), None).is_empty());
    assert!(solver.generate_moves(&rack("?"), None).is_empty());
    // with the letters of the word itself, it can be laid across each of its letters
    let across = solver.generate_moves(&rack("care"), None);
    assert_eq!(across.len(), 4);
    for solution in &across {
        assert_eq!(solution.placement.len(), 3);
        assert_eq!(solution.score, 4);
    }
}

#[test]
fn empty_rack_and_empty_dictionary() {
    let solver = solver_with(&["care"]);
    assert!(solver.generate_moves(&[], None).is_empty());
    let bare = solver_with(&[]);
    assert!(bare.generate_moves(&rack("care"), None).is_empty());
}

#[test]
fn full_board() {
    let mut solver = Solver::new(1, 3).unwrap();
    solver.add_dictionary_word("abc").unwrap();
    solver.add_dictionary_word("ab").unwrap();
    assert_eq!(solver.generate_moves(&rack("abc"), None).len(), 3);
    solver.place_tiles(vec![tile('a', 0, 0), tile('b', 0, 1), tile('c', 0, 2)]).unwrap();
    assert!(solver.board().anchor_cells().is_empty());
    assert!(solver.generate_moves(&rack("abc"), None).is_empty());
    assert_eq!(solver.place_tiles(vec![tile('a', 0, 0)]), Err(SolverError::OccupiedCell));
}

#[test]
fn first_move_rejection() {
    let mut solver = solver_with(&["ca", "c"]);
    assert_eq!(
        solver.place_tiles(vec![tile('c', 0, 0), tile('a', 0, 1)]),
        Err(SolverError::IllegalFirstMove)
    );
    assert_eq!(solver.place_tiles(vec![tile('c', 7, 7)]), Err(SolverError::IllegalFirstMove));
    assert_eq!(solver.place_tiles(vec![]), Err(SolverError::IllegalFirstMove));
    // the board is as it was
    assert!(solver.board().is_bare());
    assert!(solver.board().is_anchor(7, 7));
    assert_eq!(solver.place_tiles(vec![tile('c', 7, 7), tile('a', 7, 8)]), Ok(()));
    assert!(!solver.board().is_bare());
}

#[test]
fn dedup() {
    let solver = solver_with(&["aa"]);
    let solutions = solver.generate_moves(&rack("aa"), None);
    for (i, a) in solutions.iter().enumerate() {
        for b in &solutions[i + 1..] {
            assert!(a.placement != b.placement);
        }
    }
    // in each direction: the word ending on the centre, and beginning there
    assert_eq!(solutions.len(), 4);
    for dir in [Direction::Horizontal, Direction::Vertical] {
        let from_centre: Vec<&Solution> = solutions
            .iter()
            .filter(|s| direction_of(s) == dir && s.placement[0].row == 7 && s.placement[0].col == 7)
            .collect();
        assert_eq!(from_centre.len(), 1);
        let to_centre: Vec<&Solution> = solutions
            .iter()
            .filter(|s| direction_of(s) == dir && s.placement[1].row == 7 && s.placement[1].col == 7)
            .collect();
        assert_eq!(to_centre.len(), 1);
    }
}

#[test]
fn single_letter_word_is_found_once() {
    let solver = solver_with(&["a"]);
    let solutions = solver.generate_moves(&rack("aa"), None);
    assert_eq!(solutions.len(), 1);
    assert_eq!(solutions[0].placement, vec![tile('a', 7, 7)]);
    assert_eq!(solutions[0].score, 2);
}

#[test]
fn every_added_word_is_found_through_the_centre() {
    let words = ["care", "at", "zebra", "a", "quizzes", "abcdefghijklmno"];
    for word in words {
        let solver = solver_with(&[word]);
        let solutions = solver.generate_moves(&rack(word), None);
        let found = solutions.iter().any(|s| {
            word_of(s) == word
                && s.placement.iter().any(|p| p.row == 7 && p.col == 7)
                && direction_of(s) == Direction::Horizontal
        });
        assert!(found, "{}", word);
    }
}

#[test]
fn every_word_formed_is_in_the_dictionary() {
    let words = ["care", "cat", "at", "ta", "ar", "era", "tea", "rat", "art", "car", "ace", "eat"];
    let mut solver = solver_with(&words);
    solver
        .place_tiles(vec![tile('c', 7, 7), tile('a', 7, 8), tile('r', 7, 9), tile('e', 7, 10)])
        .unwrap();
    let the_rack = rack("taer?");
    let solutions = solver.generate_moves(&the_rack, None);
    assert!(!solutions.is_empty());
    for solution in &solutions {
        let mut after = Solver::with_scoring(15, 15, centre_double(15, 15)).unwrap();
        for word in words {
            after.add_dictionary_word(word).unwrap();
        }
        after
            .place_tiles(vec![tile('c', 7, 7), tile('a', 7, 8), tile('r', 7, 9), tile('e', 7, 10)])
            .unwrap();
        assert_eq!(after.place_tiles(solution.placement.clone()), Ok(()));
        // read every word of two letters or more through a new tile
        for p in &solution.placement {
            for dir in [Direction::Horizontal, Direction::Vertical] {
                let (line, pos) = match dir {
                    Direction::Horizontal => (p.row, p.col),
                    Direction::Vertical => (p.col, p.row),
                };
                let mut lo = pos;
                while lo > 0 && after.board().tile_on(dir, line, lo - 1).is_some() {
                    lo -= 1;
                }
                let mut hi = pos;
                while after.board().tile_on(dir, line, hi + 1).is_some() {
                    hi += 1;
                }
                if hi > lo {
                    let word: String =
                        (lo..=hi).map(|k| after.board().tile_on(dir, line, k).unwrap().to_char()).collect();
                    assert!(after.graph().contains(&word), "{}", word);
                }
            }
        }
        // the tiles come from the rack
        let mut left = the_rack.clone();
        for p in &solution.placement {
            let needed = match p.letter {
                TileLetter::Blank(_) => RackLetter::Blank,
                TileLetter::Char(ch) => RackLetter::Char(ch),
            };
            let at = left.iter().position(|x| *x == needed).expect("a tile of the rack");
            left.remove(at);
        }
    }
}

#[test]
fn ranking_is_by_score_then_by_placements() {
    let mut scoring = centre_double(15, 15);
    scoring.letter_values[(b'z' - b'a') as usize] = 10;
    let mut solver = Solver::with_scoring(15, 15, scoring).unwrap();
    for word in ["za", "az", "aa"] {
        solver.add_dictionary_word(word).unwrap();
    }
    let solutions = solver.generate_moves(&rack("zaa"), None);
    assert_eq!(solutions.len(), 12);
    for pair in solutions.windows(2) {
        assert!(pair[0].precedes(&pair[1]));
        assert!(pair[0].score >= pair[1].score);
        assert!(!pair[1].precedes(&pair[0]));
    }
    // (10 + 1) doubled for the words with the z, (1 + 1) doubled for "aa"
    assert_eq!(solutions[0].score, 22);
    assert_eq!(solutions[7].score, 22);
    assert_eq!(solutions[8].score, 4);
    // among equal scores: by row, then column, then letter
    assert_eq!(solutions[0].placement, vec![tile('a', 6, 7), tile('z', 7, 7)]);
    assert_eq!(solutions[1].placement, vec![tile('z', 6, 7), tile('a', 7, 7)]);
    assert_eq!(solutions[2].placement, vec![tile('a', 7, 6), tile('z', 7, 7)]);
    // the same inputs give the same list
    let again = solver.generate_moves(&rack("zaa"), None);
    assert_eq!(again.len(), solutions.len());
    for (a, b) in solutions.iter().zip(again.iter()) {
        assert_eq!(a.placement, b.placement);
        assert_eq!(a.score, b.score);
    }
}

#[test]
fn limit_cuts_the_ranking() {
    let solver = solver_with(&["care"]);
    let all = solver.generate_moves(&rack("care"), None);
    assert_eq!(all.len(), 8);
    let three = solver.generate_moves(&rack("care"), Some(3));
    assert_eq!(three.len(), 3);
    for (a, b) in all.iter().zip(three.iter()) {
        assert_eq!(a.placement, b.placement);
        assert_eq!(a.score, b.score);
    }
    assert_eq!(solver.generate_moves(&rack("care"), Some(0)).len(), 0);
    assert_eq!(solver.generate_moves(&rack("care"), Some(8)).len(), 8);
    assert_eq!(solver.generate_moves(&rack("care"), Some(100)).len(), 8);
    assert_eq!(solver.all_moves(&rack("care")).len(), 8);
}

#[test]
fn bingo_bonus_for_the_whole_rack() {
    // the plain solver: one point a letter, no premium, 50 for the whole rack
    let mut solver = Solver::new(15, 15).unwrap();
    solver.add_dictionary_word("care").unwrap();
    let whole = solver.generate_moves(&rack("care"), Some(1));
    assert_eq!(whole[0].score, 54);
    let part = solver.generate_moves(&rack("carex"), Some(1));
    assert_eq!(part[0].score, 4);
}

#[test]
fn invalid_dimensions() {
    assert!(matches!(Solver::new(0, 15), Err(SolverError::InvalidDimensions)));
    assert!(matches!(Solver::new(15, 0), Err(SolverError::InvalidDimensions)));
    assert!(matches!(Solver::new(14, 15), Err(SolverError::InvalidDimensions)));
    assert!(matches!(Solver::new(15, 14), Err(SolverError::InvalidDimensions)));
    assert!(Solver::new(1, 1).is_ok());
    assert!(Solver::new(3, 31).is_ok());
}

#[test]
fn invalid_word() {
    let mut solver = Solver::new(15, 15).unwrap();
    assert_eq!(solver.add_dictionary_word(""), Err(SolverError::InvalidWord));
    assert_eq!(solver.add_dictionary_word("Care"), Err(SolverError::InvalidWord));
    assert_eq!(solver.add_dictionary_word("ca re"), Err(SolverError::InvalidWord));
    assert_eq!(solver.add_dictionary_word("caf\u{e9}"), Err(SolverError::InvalidWord));
    assert!(!solver.graph().contains("care"));
    assert_eq!(solver.add_dictionary_word("care"), Ok(()));
    assert_eq!(solver.add_dictionary_word("care"), Ok(()));
    assert!(solver.graph().contains("care"));
}

#[test]
fn words_added_after_a_move_count_for_the_cross_sets() {
    let mut solver = solver_with(&["care"]);
    solver
        .place_tiles(vec![tile('c', 7, 7), tile('a', 7, 8), tile('r', 7, 9), tile('e', 7, 10)])
        .unwrap();
    assert!(solver.generate_moves(&rack("s"), None).is_empty());
    solver.add_dictionary_word("cares").unwrap();
    let after = solver.board().cross_set(7, 11, Direction::Vertical).unwrap();
    assert!(after.contains('s'));
    assert!(!after.contains('d'));
    let solutions = solver.generate_moves(&rack("s"), None);
    assert_eq!(solutions.len(), 1);
    assert_eq!(solutions[0].placement, vec![tile('s', 7, 11)]);
    assert_eq!(solutions[0].score, 5);
}
