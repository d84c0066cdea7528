use scrabble_solver::board::Board;
use scrabble_solver::dag::Graph;
use scrabble_solver::scoring::{
    add_capped, letter_multiplier, mul_capped, tile_after, word_multiplier, Premium, Scoring, BINGO_BONUS,
};
use scrabble_solver::solver::Solver;
use scrabble_solver::tiles::{Direction, RackLetter, TileLetter, TilePlacement};

fn tile(ch: char, row: usize, col: usize) -> TilePlacement {
    TilePlacement { letter: TileLetter::Char(ch), row, col }
}

fn blank(ch: char, row: usize, col: usize) -> TilePlacement {
    TilePlacement { letter: TileLetter::Blank(ch), row, col }
}

/// a = 1, b = 2, .. z = 26, no premium, no bonus.
fn by_position(rows: usize, cols: usize) -> Scoring {
    Scoring {
        letter_values: (1..=26).collect(),
        premiums: vec![Premium::Plain; rows * cols],
        bingo_bonus: 0,
        bingo_threshold: None,
    }
}

fn board_with(moves: &[Vec<TilePlacement>]) -> Board {
    let graph = Graph::new();
    let mut board = Board::new(15, 15).unwrap();
    for m in moves {
        board.place_tiles(&graph, m).unwrap();
    }
    board
}

fn care() -> Vec<TilePlacement> {
    vec![tile('c', 7, 7), tile('a', 7, 8), tile('r', 7, 9), tile('e', 7, 10)]
}

#[test]
fn capped_arithmetic() {
    assert_eq!(add_capped(2, 3), 5);
    assert_eq!(add_capped(u32::MAX, 0), u32::MAX);
    assert_eq!(add_capped(u32::MAX - 1, 1), u32::MAX);
    assert_eq!(add_capped(u32::MAX, u32::MAX), u32::MAX);
    assert_eq!(add_capped(u32::MAX - 5, 4), u32::MAX - 1);
    assert_eq!(mul_capped(6, 7), 42);
    assert_eq!(mul_capped(0, u32::MAX), 0);
    assert_eq!(mul_capped(u32::MAX, 1), u32::MAX);
    assert_eq!(mul_capped(65536, 65536), u32::MAX);
    assert_eq!(mul_capped(65535, 65537), u32::MAX);
    assert_eq!(mul_capped(65535, 65536), 4294901760);
}

#[test]
fn factors_of_the_premiums() {
    assert_eq!(letter_multiplier(Premium::Plain), 1);
    assert_eq!(letter_multiplier(Premium::DoubleLetter), 2);
    assert_eq!(letter_multiplier(Premium::TripleLetter), 3);
    assert_eq!(letter_multiplier(Premium::DoubleWord), 1);
    assert_eq!(letter_multiplier(Premium::TripleWord), 1);
    assert_eq!(word_multiplier(Premium::Plain), 1);
    assert_eq!(word_multiplier(Premium::DoubleLetter), 1);
    assert_eq!(word_multiplier(Premium::TripleLetter), 1);
    assert_eq!(word_multiplier(Premium::DoubleWord), 2);
    assert_eq!(word_multiplier(Premium::TripleWord), 3);
}

#[test]
fn face_values() {
    let scoring = by_position(15, 15);
    assert_eq!(scoring.face_value(TileLetter::Char('a')), 1);
    assert_eq!(scoring.face_value(TileLetter::Char('z')), 26);
    assert_eq!(scoring.face_value(TileLetter::Blank('z')), 0);
    assert_eq!(scoring.face_value(TileLetter::Char('A')), 0);
    let short = Scoring { letter_values: vec![5, 6], premiums: vec![], bingo_bonus: 0, bingo_threshold: None };
    assert_eq!(short.face_value(TileLetter::Char('b')), 6);
    assert_eq!(short.face_value(TileLetter::Char('c')), 0);
    let flat = Scoring::flat();
    assert_eq!(flat.face_value(TileLetter::Char('q')), 1);
    assert_eq!(flat.bingo_bonus, BINGO_BONUS);
    assert_eq!(flat.bingo_bonus, 50);
    assert_eq!(flat.bingo_threshold, None);
    assert!(flat.premiums.is_empty());
}

#[test]
fn premium_of_a_cell() {
    let mut scoring = by_position(3, 5);
    scoring.premiums[1 * 5 + 4] = Premium::TripleWord;
    scoring.premiums[2 * 5 + 0] = Premium::DoubleLetter;
    assert_eq!(scoring.premium(5, 1, 4), Premium::TripleWord);
    assert_eq!(scoring.premium(5, 2, 0), Premium::DoubleLetter);
    assert_eq!(scoring.premium(5, 0, 0), Premium::Plain);
    // beyond the table, and beyond the row
    assert_eq!(scoring.premium(5, 3, 0), Premium::Plain);
    assert_eq!(scoring.premium(5, 0, 5), Premium::Plain);
    assert_eq!(scoring.premium(5, usize::MAX, 4), Premium::Plain);
    assert_eq!(scoring.premium(usize::MAX, 2, 3), Premium::Plain);
}

#[test]
fn main_word_without_premiums() {
    let board = board_with(&[]);
    let scoring = by_position(15, 15);
    // c + a + r + e = 3 + 1 + 18 + 5
    assert_eq!(scoring.score_play(&board, Direction::Horizontal, &care(), 7), 27);
    let down = vec![tile('c', 7, 7), tile('a', 8, 7), tile('r', 9, 7), tile('e', 10, 7)];
    assert_eq!(scoring.score_play(&board, Direction::Vertical, &down, 7), 27);
    // a blank counts nothing
    let with_blank = vec![tile('c', 7, 7), tile('a', 7, 8), blank('r', 7, 9), tile('e', 7, 10)];
    assert_eq!(scoring.score_play(&board, Direction::Horizontal, &with_blank, 7), 9);
}

#[test]
fn letter_and_word_premiums() {
    let board = board_with(&[]);
    let mut scoring = by_position(15, 15);
    scoring.premiums[7 * 15 + 9] = Premium::DoubleLetter;
    // r doubled: 3 + 1 + 36 + 5
    assert_eq!(scoring.score_play(&board, Direction::Horizontal, &care(), 7), 45);
    scoring.premiums[7 * 15 + 9] = Premium::TripleLetter;
    assert_eq!(scoring.score_play(&board, Direction::Horizontal, &care(), 7), 63);
    scoring.premiums[7 * 15 + 7] = Premium::DoubleWord;
    assert_eq!(scoring.score_play(&board, Direction::Horizontal, &care(), 7), 126);
    scoring.premiums[7 * 15 + 10] = Premium::TripleWord;
    assert_eq!(scoring.score_play(&board, Direction::Horizontal, &care(), 7), 378);
    // a blank on a letter premium still counts nothing
    let with_blank = vec![tile('c', 7, 7), tile('a', 7, 8), blank('r', 7, 9), tile('e', 7, 10)];
    assert_eq!(scoring.score_play(&board, Direction::Horizontal, &with_blank, 7), 9 * 6);
}

#[test]
fn premiums_count_for_new_tiles_only() {
    let board = board_with(&[care()]);
    let mut scoring = by_position(15, 15);
    scoring.premiums[7 * 15 + 9] = Premium::TripleLetter;
    scoring.premiums[7 * 15 + 7] = Premium::TripleWord;
    // s behind care: 3 + 1 + 18 + 5 + 19, the premiums under care are used up
    assert_eq!(scoring.score_play(&board, Direction::Horizontal, &vec![tile('s', 7, 11)], 7), 46);
    scoring.premiums[7 * 15 + 11] = Premium::DoubleWord;
    assert_eq!(scoring.score_play(&board, Direction::Horizontal, &vec![tile('s', 7, 11)], 7), 92);
    // the word through tiles of the board on both sides of the new ones
    let around = vec![tile('s', 7, 6), tile('d', 7, 11)];
    assert_eq!(scoring.score_play(&board, Direction::Horizontal, &around, 7), (19 + 27 + 4) * 2);
}

#[test]
fn cross_words() {
    let board = board_with(&[care()]);
    let mut scoring = by_position(15, 15);
    // t and o under a and r: main word "to" 20 + 15, cross-words "at" 1 + 20 and "ro" 18 + 15
    let m = vec![tile('t', 8, 8), tile('o', 8, 9)];
    assert_eq!(scoring.score_play(&board, Direction::Horizontal, &m, 7), 35 + 21 + 33);
    assert_eq!(scoring.cross_points(&board, Direction::Horizontal, &m[0]), 21);
    assert_eq!(scoring.cross_points(&board, Direction::Horizontal, &m[1]), 33);
    assert_eq!(scoring.cross_points(&board, Direction::Vertical, &m[0]), 0);
    assert_eq!(scoring.word_points(&board, Direction::Horizontal, 8, &m, 8), 35);
    assert_eq!(scoring.word_points(&board, Direction::Horizontal, 8, &m, 9), 35);
    // a letter premium counts in both words, a word premium for both words
    scoring.premiums[8 * 15 + 8] = Premium::DoubleLetter;
    assert_eq!(scoring.score_play(&board, Direction::Horizontal, &m, 7), (40 + 15) + (1 + 40) + 33);
    scoring.premiums[8 * 15 + 8] = Premium::TripleWord;
    assert_eq!(scoring.score_play(&board, Direction::Horizontal, &m, 7), 35 * 3 + 21 * 3 + 33);
    assert_eq!(scoring.word_multiple(&board, &m), 3);
    // one tile under the a, counted down the column: "at" is the main word
    scoring.premiums[8 * 15 + 8] = Premium::Plain;
    assert_eq!(scoring.score_play(&board, Direction::Vertical, &vec![tile('t', 8, 8)], 7), 21);
    // counted along the row, "t" is the main word and "at" the cross-word
    assert_eq!(scoring.score_play(&board, Direction::Horizontal, &vec![tile('t', 8, 8)], 7), 20 + 21);
}

#[test]
fn bingo() {
    let board = board_with(&[]);
    let mut scoring = by_position(15, 15);
    scoring.bingo_bonus = 50;
    // the whole rack of four
    assert_eq!(scoring.score_play(&board, Direction::Horizontal, &care(), 4), 77);
    assert_eq!(scoring.score_play(&board, Direction::Horizontal, &care(), 5), 27);
    assert_eq!(scoring.score_play(&board, Direction::Horizontal, &care(), 3), 77);
    scoring.bingo_threshold = Some(7);
    assert_eq!(scoring.score_play(&board, Direction::Horizontal, &care(), 4), 27);
    scoring.bingo_threshold = Some(4);
    assert_eq!(scoring.score_play(&board, Direction::Horizontal, &care(), 7), 77);
    scoring.bingo_threshold = Some(0);
    assert_eq!(scoring.score_play(&board, Direction::Horizontal, &care(), 7), 77);
}

#[test]
fn scores_stop_at_the_largest() {
    let board = board_with(&[]);
    let mut scoring = by_position(15, 15);
    scoring.bingo_bonus = u32::MAX;
    scoring.bingo_threshold = Some(1);
    assert_eq!(scoring.score_play(&board, Direction::Horizontal, &care(), 7), u32::MAX);
    scoring.bingo_bonus = u32::MAX - 27;
    assert_eq!(scoring.score_play(&board, Direction::Horizontal, &care(), 7), u32::MAX);
    scoring.bingo_bonus = u32::MAX - 28;
    assert_eq!(scoring.score_play(&board, Direction::Horizontal, &care(), 7), u32::MAX - 1);
}

#[test]
fn tile_on_the_line_after_the_move() {
    let board = board_with(&[care()]);
    let m = vec![tile('s', 7, 6), blank('d', 7, 11)];
    assert_eq!(tile_after(&board, Direction::Horizontal, 7, &m, 6), Some((TileLetter::Char('s'), true)));
    assert_eq!(tile_after(&board, Direction::Horizontal, 7, &m, 7), Some((TileLetter::Char('c'), false)));
    assert_eq!(tile_after(&board, Direction::Horizontal, 7, &m, 11), Some((TileLetter::Blank('d'), true)));
    assert_eq!(tile_after(&board, Direction::Horizontal, 7, &m, 12), None);
    assert_eq!(tile_after(&board, Direction::Horizontal, 7, &m, 15), None);
    assert_eq!(tile_after(&board, Direction::Horizontal, 7, &m, 5), None);
}

#[test]
fn the_solver_scores_with_its_policy() {
    let mut scoring = by_position(15, 15);
    scoring.premiums[7 * 15 + 7] = Premium::DoubleWord;
    scoring.premiums[7 * 15 + 11] = Premium::TripleLetter;
    let mut solver = Solver::with_scoring(15, 15, scoring).unwrap();
    solver.add_dictionary_word("care").unwrap();
    solver.add_dictionary_word("cares").unwrap();
    let rack: Vec<RackLetter> = "carexyz".chars().map(RackLetter::Char).collect();
    let first = solver.generate_moves(&rack, None);
    assert_eq!(first.len(), 8);
    assert_eq!(first[0].score, 54);
    solver.place_tiles(care()).unwrap();
    let s = [RackLetter::Char('s'), RackLetter::Char('q')];
    let second = solver.generate_moves(&s, None);
    assert_eq!(second.len(), 1);
    assert_eq!(second[0].placement, vec![tile('s', 7, 11)]);
    // 3 + 1 + 18 + 5 + 3 * 19, the double word score under the c is used up
    assert_eq!(second[0].score, 84);
    assert_eq!(solver.scoring().bingo_bonus, 0);
}
