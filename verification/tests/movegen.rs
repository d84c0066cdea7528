use scrabble_solver::board::Board;
use scrabble_solver::dag::Graph;
use scrabble_solver::movegen::{copy_placements, has_move, tally, MoveGenerator};
use scrabble_solver::tiles::{Direction, RackLetter, TileLetter, TilePlacement};

fn tile(ch: char, row: usize, col: usize) -> TilePlacement {
    TilePlacement { letter: TileLetter::Char(ch), row, col }
}

fn blank(ch: char, row: usize, col: usize) -> TilePlacement {
    TilePlacement { letter: TileLetter::Blank(ch), row, col }
}

fn rack(letters: &str) -> Vec<RackLetter> {
    letters.chars().map(|c| if c == '?' { RackLetter::Blank } else { RackLetter::Char(c) }).collect()
}

fn graph_of(words: &[&str]) -> Graph {
    let mut graph = Graph::new();
    for word in words {
        graph.add_word(word);
    }
    graph
}

fn board_with(graph: &Graph, moves: &[Vec<TilePlacement>]) -> Board {
    let mut board = Board::new(15, 15).unwrap();
    board.compute_cross_sets(graph);
    for m in moves {
        board.place_tiles(graph, m).unwrap();
    }
    board
}

fn care() -> Vec<TilePlacement> {
    vec![tile('c', 7, 7), tile('a', 7, 8), tile('r', 7, 9), tile('e', 7, 10)]
}

fn sorted(mut moves: Vec<Vec<TilePlacement>>) -> Vec<Vec<TilePlacement>> {
    moves.sort_by_key(|m| {
        m.iter()
            .map(|p| (p.row, p.col, p.letter.to_char(), matches!(p.letter, TileLetter::Blank(_))))
            .collect::<Vec<_>>()
    });
    moves
}

#[test]
fn tally_counts_the_rack() {
    let counts = tally(&rack("aab?z??"));
    assert_eq!(counts.len(), 27);
    assert_eq!(counts[0], 2);
    assert_eq!(counts[1], 1);
    assert_eq!(counts[2], 0);
    assert_eq!(counts[25], 1);
    assert_eq!(counts[26], 3);
    // what cannot be played is left out
    let odd = tally(&[RackLetter::Char('A'), RackLetter::Char(' '), RackLetter::Char('b')]);
    assert_eq!(odd.iter().sum::<usize>(), 1);
    assert_eq!(odd[1], 1);
    assert_eq!(tally(&[]), vec![0; 27]);
}

#[test]
fn lists_of_moves() {
    let moves = vec![care(), vec![tile('x', 0, 0)]];
    assert!(has_move(&moves, &care()));
    assert!(has_move(&moves, &vec![tile('x', 0, 0)]));
    assert!(!has_move(&moves, &vec![tile('x', 0, 1)]));
    assert!(!has_move(&moves, &vec![]));
    assert_eq!(copy_placements(&care()), care());
    assert_eq!(copy_placements(&vec![]), vec![]);
}

#[test]
fn plays_through_the_centre_of_an_empty_board() {
    let graph = graph_of(&["care", "car"]);
    let board = board_with(&graph, &[]);
    let moves = MoveGenerator::generate_moves(&board, &graph, &rack("care"), 7, 7, Direction::Horizontal);
    let mut expected = Vec::new();
    for start in 4..=7 {
        expected.push("care".chars().enumerate().map(|(i, ch)| tile(ch, 7, start + i)).collect::<Vec<_>>());
    }
    for start in 5..=7 {
        expected.push("car".chars().enumerate().map(|(i, ch)| tile(ch, 7, start + i)).collect::<Vec<_>>());
    }
    assert_eq!(sorted(moves), sorted(expected));
    let down = MoveGenerator::generate_moves(&board, &graph, &rack("rac"), 7, 7, Direction::Vertical);
    assert_eq!(down.len(), 3);
    for m in &down {
        assert!(m.iter().all(|p| p.col == 7));
        assert!(m.iter().any(|p| p.row == 7));
    }
}

#[test]
fn plays_through_one_anchor_beside_a_word() {
    let graph = graph_of(&["care", "cares", "scare", "scares", "at", "ta", "tat"]);
    let board = board_with(&graph, &[care()]);
    // before the word: s makes scare, and with a second s behind, scares
    let before = MoveGenerator::generate_moves(&board, &graph, &rack("ss"), 7, 6, Direction::Horizontal);
    assert_eq!(
        sorted(before),
        sorted(vec![vec![tile('s', 7, 6)], vec![tile('s', 7, 6), tile('s', 7, 11)]])
    );
    // behind the word
    let behind = MoveGenerator::generate_moves(&board, &graph, &rack("s?"), 7, 11, Direction::Horizontal);
    assert_eq!(
        sorted(behind),
        sorted(vec![
            vec![tile('s', 7, 11)],
            vec![blank('s', 7, 11)],
            vec![tile('s', 7, 6), blank('s', 7, 11)],
            vec![blank('s', 7, 6), tile('s', 7, 11)],
        ])
    );
    // above the a, down the column: ta, and tat through the a
    let above = MoveGenerator::generate_moves(&board, &graph, &rack("tt"), 6, 8, Direction::Vertical);
    assert_eq!(
        sorted(above),
        sorted(vec![vec![tile('t', 6, 8)], vec![tile('t', 6, 8), tile('t', 8, 8)]])
    );
    // above the a, along the row: t alone is no word, and beside it nothing fits
    let along = MoveGenerator::generate_moves(&board, &graph, &rack("tt"), 6, 8, Direction::Horizontal);
    assert!(along.is_empty());
    // under the c nothing fits
    let under = MoveGenerator::generate_moves(&board, &graph, &rack("at"), 8, 7, Direction::Horizontal);
    assert!(under.is_empty());
}

#[test]
fn a_play_along_a_word_with_cross_words() {
    let graph = graph_of(&["care", "at", "re", "te", "to", "ro", "ae"]);
    let board = board_with(&graph, &[care()]);
    // t and e under a and r: "te" along the row, "at" and "re" down the columns
    let moves = MoveGenerator::generate_moves(&board, &graph, &rack("teo"), 8, 8, Direction::Horizontal);
    assert_eq!(
        sorted(moves),
        sorted(vec![vec![tile('t', 8, 8), tile('e', 8, 9)], vec![tile('t', 8, 8), tile('o', 8, 9)]])
    );
}

#[test]
fn words_at_the_edge_of_the_board() {
    let graph = graph_of(&["abc", "bcd", "ab"]);
    let mut board = Board::new(1, 3).unwrap();
    let all = MoveGenerator::generate_moves(&board, &graph, &rack("abcd"), 0, 1, Direction::Horizontal);
    assert_eq!(
        sorted(all),
        sorted(vec![
            vec![tile('a', 0, 0), tile('b', 0, 1)],
            vec![tile('a', 0, 1), tile('b', 0, 2)],
            vec![tile('a', 0, 0), tile('b', 0, 1), tile('c', 0, 2)],
            vec![tile('b', 0, 0), tile('c', 0, 1), tile('d', 0, 2)],
        ])
    );
    board.place_tiles(&graph, &vec![tile('a', 0, 0), tile('b', 0, 1)]).unwrap();
    let last = MoveGenerator::generate_moves(&board, &graph, &rack("cd"), 0, 2, Direction::Horizontal);
    assert_eq!(last, vec![vec![tile('c', 0, 2)]]);
    let down = MoveGenerator::generate_moves(&board, &graph, &rack("cd"), 0, 2, Direction::Vertical);
    assert!(down.is_empty());
}
