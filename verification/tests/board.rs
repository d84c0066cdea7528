use scrabble_solver::board::Board;
use scrabble_solver::dag::Graph;
use scrabble_solver::rules::{
    cells_free, check_move, has_position, lies_in_line, line_index, next_to_tile, on_centre, position,
    within_bounds, without_gaps,
};
use scrabble_solver::tiles::{Direction, SolverError, TileLetter, TilePlacement};

fn tile(ch: char, row: usize, col: usize) -> TilePlacement {
    TilePlacement { letter: TileLetter::Char(ch), row, col }
}

fn graph_of(words: &[&str]) -> Graph {
    let mut graph = Graph::new();
    for word in words {
        graph.add_word(word);
    }
    graph
}

fn board_with(graph: &Graph, moves: &[Vec<TilePlacement>]) -> Board {
    let mut board = Board::new(15, 15).unwrap();
    board.compute_cross_sets(graph);
    for m in moves {
        board.place_tiles(graph, m).unwrap();
    }
    board
}

fn care() -> Vec<TilePlacement> {
    vec![tile('c', 7, 7), tile('a', 7, 8), tile('r', 7, 9), tile('e', 7, 10)]
}

fn letters_of(board: &Board, row: usize, col: usize, dir: Direction) -> Option<String> {
    board.cross_set(row, col, dir).map(|set| ('a'..='z').filter(|ch| set.contains(*ch)).collect())
}

#[test]
fn dimensions_must_be_odd() {
    assert!(matches!(Board::new(0, 0), Err(SolverError::InvalidDimensions)));
    assert!(matches!(Board::new(2, 3), Err(SolverError::InvalidDimensions)));
    assert!(matches!(Board::new(3, 2), Err(SolverError::InvalidDimensions)));
    assert!(matches!(Board::new(0, 3), Err(SolverError::InvalidDimensions)));
    let board = Board::new(3, 5).unwrap();
    assert_eq!(board.rows(), 3);
    assert_eq!(board.cols(), 5);
    assert!(board.is_bare());
}

#[test]
fn board_without_tiles() {
    let board = Board::new(15, 15).unwrap();
    assert_eq!(board.anchor_cells(), vec![(7, 7)]);
    for row in 0..15 {
        for col in 0..15 {
            assert_eq!(board.tile_at(row, col), None);
            assert_eq!(board.is_anchor(row, col), row == 7 && col == 7);
            for dir in [Direction::Horizontal, Direction::Vertical] {
                let set = letters_of(&board, row, col, dir);
                if row == 7 && col == 7 {
                    assert_eq!(set.unwrap(), "abcdefghijklmnopqrstuvwxyz");
                } else {
                    assert_eq!(set, None);
                }
            }
        }
    }
    // outside the grid there is nothing
    assert_eq!(board.tile_at(15, 0), None);
    assert_eq!(board.tile_at(0, 15), None);
    assert!(!board.is_anchor(15, 15));
    let small = Board::new(1, 1).unwrap();
    assert_eq!(small.anchor_cells(), vec![(0, 0)]);
}

#[test]
fn tiles_are_where_they_were_laid() {
    let graph = graph_of(&["care"]);
    let mut board = Board::new(15, 15).unwrap();
    let m = vec![
        tile('c', 7, 7),
        TilePlacement { letter: TileLetter::Blank('a'), row: 7, col: 8 },
        tile('r', 7, 9),
        tile('e', 7, 10),
    ];
    assert_eq!(board.place_tiles(&graph, &m), Ok(()));
    assert_eq!(board.tile_at(7, 7), Some(TileLetter::Char('c')));
    assert_eq!(board.tile_at(7, 8), Some(TileLetter::Blank('a')));
    assert_eq!(board.tile_at(7, 10), Some(TileLetter::Char('e')));
    assert_eq!(board.tile_at(7, 11), None);
    assert_eq!(board.tile_at(6, 7), None);
    assert_eq!(board.tile_on(Direction::Horizontal, 7, 9), Some(TileLetter::Char('r')));
    assert_eq!(board.tile_on(Direction::Vertical, 9, 7), Some(TileLetter::Char('r')));
    assert_eq!(board.tile_on(Direction::Vertical, 7, 9), None);
    assert!(board.has_neighbour(7, 6));
    assert!(board.has_neighbour(6, 8));
    assert!(!board.has_neighbour(5, 8));
    assert!(!board.has_neighbour(0, 0));
    assert!(!board.has_neighbour(14, 14));
}

#[test]
fn anchors_are_the_empty_cells_beside_tiles() {
    let graph = graph_of(&["care", "ate"]);
    let mut board = board_with(&graph, &[care()]);
    let mut expected = vec![(6, 7), (6, 8), (6, 9), (6, 10), (7, 6), (7, 11), (8, 7), (8, 8), (8, 9), (8, 10)];
    assert_eq!(board.anchor_cells(), expected);
    assert!(!board.is_anchor(7, 7));
    assert!(!board.is_anchor(6, 6));
    // a second move: a and t above the e
    board.place_tiles(&graph, &vec![tile('a', 5, 10), tile('t', 6, 10)]).unwrap();
    expected = vec![
        (4, 10),
        (5, 9),
        (5, 11),
        (6, 7),
        (6, 8),
        (6, 9),
        (6, 11),
        (7, 6),
        (7, 11),
        (8, 7),
        (8, 8),
        (8, 9),
        (8, 10),
    ];
    assert_eq!(board.anchor_cells(), expected);
    for row in 0..15 {
        for col in 0..15 {
            let empty = board.tile_at(row, col).is_none();
            let beside = (row > 0 && board.tile_at(row - 1, col).is_some())
                || board.tile_at(row + 1, col).is_some()
                || (col > 0 && board.tile_at(row, col - 1).is_some())
                || board.tile_at(row, col + 1).is_some();
            assert_eq!(board.is_anchor(row, col), empty && beside);
            assert_eq!(board.has_neighbour(row, col), beside);
        }
    }
}

#[test]
fn anchors_at_the_edge() {
    let graph = graph_of(&["abc"]);
    let mut board = Board::new(3, 3).unwrap();
    board.place_tiles(&graph, &vec![tile('a', 1, 0), tile('b', 1, 1), tile('c', 1, 2)]).unwrap();
    assert_eq!(board.anchor_cells(), vec![(0, 0), (0, 1), (0, 2), (2, 0), (2, 1), (2, 2)]);
}

#[test]
fn cross_sets_follow_the_board_and_the_dictionary() {
    let graph = graph_of(&["care", "cares", "scare", "at", "ta", "as", "er", "re", "ace", "ear"]);
    let board = board_with(&graph, &[care()]);
    // a tile on the board: no letter goes there
    assert_eq!(letters_of(&board, 7, 8, Direction::Horizontal).unwrap(), "");
    assert_eq!(letters_of(&board, 7, 8, Direction::Vertical).unwrap(), "");
    // above and below the a: the words down the column
    assert_eq!(letters_of(&board, 6, 8, Direction::Horizontal).unwrap(), "t");
    assert_eq!(letters_of(&board, 8, 8, Direction::Horizontal).unwrap(), "st");
    assert_eq!(letters_of(&board, 6, 8, Direction::Vertical), None);
    // above the c: no word of two letters ends in c
    assert_eq!(letters_of(&board, 6, 7, Direction::Horizontal).unwrap(), "");
    // above and below the r and the e
    assert_eq!(letters_of(&board, 6, 9, Direction::Horizontal).unwrap(), "e");
    assert_eq!(letters_of(&board, 8, 9, Direction::Horizontal).unwrap(), "e");
    assert_eq!(letters_of(&board, 6, 10, Direction::Horizontal).unwrap(), "r");
    assert_eq!(letters_of(&board, 8, 10, Direction::Horizontal).unwrap(), "r");
    // before and after the word: the words along the row
    assert_eq!(letters_of(&board, 7, 6, Direction::Vertical).unwrap(), "s");
    assert_eq!(letters_of(&board, 7, 11, Direction::Vertical).unwrap(), "s");
    assert_eq!(letters_of(&board, 7, 6, Direction::Horizontal), None);
    // away from the tiles: no constraint
    assert_eq!(letters_of(&board, 5, 8, Direction::Horizontal), None);
    assert_eq!(letters_of(&board, 7, 12, Direction::Vertical), None);
    // the centre is no longer special
    assert_eq!(letters_of(&board, 7, 7, Direction::Horizontal).unwrap(), "");
}

#[test]
fn cross_set_between_two_tiles() {
    let graph = graph_of(&["care", "ear", "ace", "ape", "axe", "rea", "rya", "at", "car"]);
    let mut board = board_with(&graph, &[care()]);
    // a and r under the e, then e and a before that r
    board.place_tiles(&graph, &vec![tile('a', 8, 10), tile('r', 9, 10)]).unwrap();
    board.place_tiles(&graph, &vec![tile('e', 9, 8), tile('a', 9, 9)]).unwrap();
    // between the a above and the e below: a ? e down the column
    assert_eq!(letters_of(&board, 8, 8, Direction::Horizontal).unwrap(), "cpx");
    // between the r above and the a below: r ? a
    assert_eq!(letters_of(&board, 8, 9, Direction::Horizontal).unwrap(), "ey");
    // along the row the cell at (8, 9) stands before the a of (8, 10): ? a
    assert_eq!(letters_of(&board, 8, 9, Direction::Vertical).unwrap(), "");
    // and the cell at (8, 8) joins nothing along the row
    assert_eq!(letters_of(&board, 8, 8, Direction::Vertical), None);
    // under the c of care, with nothing below
    assert_eq!(letters_of(&board, 8, 7, Direction::Horizontal).unwrap(), "");
}

#[test]
fn cross_sets_agree_with_a_lookup_of_each_word() {
    let words = ["care", "ear", "ace", "ape", "axe", "rea", "rya", "at", "car", "as", "es", "re", "er", "ta"];
    let graph = graph_of(&words);
    let mut board = board_with(&graph, &[care()]);
    board.place_tiles(&graph, &vec![tile('a', 8, 10), tile('r', 9, 10)]).unwrap();
    board.place_tiles(&graph, &vec![tile('e', 9, 8), tile('a', 9, 9)]).unwrap();
    for row in 0..15 {
        for col in 0..15 {
            for dir in [Direction::Horizontal, Direction::Vertical] {
                let found = letters_of(&board, row, col, dir);
                if board.tile_at(row, col).is_some() {
                    assert_eq!(found.unwrap(), "");
                    continue;
                }
                // the cell as a position on the line that crosses the direction of play
                let cross = dir.crossing();
                let (line, pos) = match cross {
                    Direction::Horizontal => (row, col),
                    Direction::Vertical => (col, row),
                };
                let mut before = String::new();
                let mut k = pos;
                while k > 0 && board.tile_on(cross, line, k - 1).is_some() {
                    k -= 1;
                    before.insert(0, board.tile_on(cross, line, k).unwrap().to_char());
                }
                let mut after = String::new();
                let mut k = pos + 1;
                while let Some(t) = board.tile_on(cross, line, k) {
                    after.push(t.to_char());
                    k += 1;
                }
                if before.is_empty() && after.is_empty() {
                    assert_eq!(found, None);
                } else {
                    let expected: String = ('a'..='z')
                        .filter(|ch| graph.contains(&format!("{}{}{}", before, ch, after)))
                        .collect();
                    assert_eq!(found.unwrap(), expected);
                }
            }
        }
    }
}

#[test]
fn cross_set_along_a_single_row() {
    let graph = graph_of(&["ab", "abc", "cab", "zab"]);
    let mut board = Board::new(1, 5).unwrap();
    board.place_tiles(&graph, &vec![tile('a', 0, 2), tile('b', 0, 3)]).unwrap();
    assert_eq!(letters_of(&board, 0, 4, Direction::Vertical).unwrap(), "c");
    assert_eq!(letters_of(&board, 0, 1, Direction::Vertical).unwrap(), "cz");
    assert_eq!(letters_of(&board, 0, 0, Direction::Vertical), None);
    assert_eq!(letters_of(&board, 0, 4, Direction::Horizontal), None);
    assert_eq!(board.anchor_cells(), vec![(0, 1), (0, 4)]);
}

#[test]
fn cross_sets_are_computed_anew_for_a_new_dictionary() {
    let small = graph_of(&["care"]);
    let large = graph_of(&["care", "cares", "at"]);
    let mut board = board_with(&small, &[care()]);
    assert_eq!(letters_of(&board, 7, 11, Direction::Vertical).unwrap(), "");
    assert_eq!(letters_of(&board, 8, 8, Direction::Horizontal).unwrap(), "");
    board.compute_cross_sets(&large);
    assert_eq!(letters_of(&board, 7, 11, Direction::Vertical).unwrap(), "s");
    assert_eq!(letters_of(&board, 8, 8, Direction::Horizontal).unwrap(), "t");
    board.set_dictionary(&small);
    assert_eq!(letters_of(&board, 7, 11, Direction::Vertical).unwrap(), "");
    // on a board without tiles nothing depends on the dictionary
    let mut bare = Board::new(15, 15).unwrap();
    bare.set_dictionary(&large);
    assert_eq!(letters_of(&bare, 7, 7, Direction::Horizontal).unwrap().len(), 26);
    assert_eq!(letters_of(&bare, 7, 8, Direction::Horizontal), None);
}

#[test]
fn out_of_bounds() {
    let graph = graph_of(&["care"]);
    let mut board = Board::new(15, 15).unwrap();
    assert_eq!(board.place_tiles(&graph, &vec![tile('c', 7, 14), tile('a', 7, 15)]), Err(SolverError::OutOfBounds));
    assert_eq!(board.place_tiles(&graph, &vec![tile('c', 15, 7)]), Err(SolverError::OutOfBounds));
    // before every other rule
    let mut played = board_with(&graph, &[care()]);
    assert_eq!(
        played.place_tiles(&graph, &vec![tile('x', 7, 7), tile('y', 0, 0), tile('z', 20, 20)]),
        Err(SolverError::OutOfBounds)
    );
    assert!(board.is_bare());
}

#[test]
fn occupied_cell() {
    let graph = graph_of(&["care"]);
    let mut board = board_with(&graph, &[care()]);
    assert_eq!(board.place_tiles(&graph, &vec![tile('x', 7, 7)]), Err(SolverError::OccupiedCell));
    assert_eq!(
        board.place_tiles(&graph, &vec![tile('x', 6, 7), tile('y', 7, 7), tile('z', 8, 7)]),
        Err(SolverError::OccupiedCell)
    );
    // the same cell twice in one move
    assert_eq!(
        board.place_tiles(&graph, &vec![tile('x', 6, 7), tile('y', 6, 7)]),
        Err(SolverError::OccupiedCell)
    );
    // before the rule of one line
    assert_eq!(
        board.place_tiles(&graph, &vec![tile('x', 7, 7), tile('y', 0, 0), tile('z', 3, 5)]),
        Err(SolverError::OccupiedCell)
    );
    assert_eq!(board.tile_at(7, 7), Some(TileLetter::Char('c')));
    assert_eq!(board.tile_at(6, 7), None);
}

#[test]
fn discontiguous_move() {
    let graph = graph_of(&["care"]);
    let mut board = Board::new(15, 15).unwrap();
    // not in one line
    assert_eq!(
        board.place_tiles(&graph, &vec![tile('c', 7, 7), tile('a', 8, 8)]),
        Err(SolverError::DiscontiguousMove)
    );
    // a gap
    assert_eq!(
        board.place_tiles(&graph, &vec![tile('c', 7, 7), tile('a', 7, 9)]),
        Err(SolverError::DiscontiguousMove)
    );
    assert_eq!(
        board.place_tiles(&graph, &vec![tile('c', 5, 7), tile('a', 7, 7), tile('r', 8, 7)]),
        Err(SolverError::DiscontiguousMove)
    );
    assert!(board.is_bare());
    let mut played = board_with(&graph, &[care()]);
    assert_eq!(
        played.place_tiles(&graph, &vec![tile('x', 8, 7), tile('y', 8, 9)]),
        Err(SolverError::DiscontiguousMove)
    );
    // a tile of the board between the tiles of the move closes the gap
    assert_eq!(played.place_tiles(&graph, &vec![tile('x', 6, 8), tile('y', 8, 8)]), Ok(()));
    assert_eq!(played.tile_at(6, 8), Some(TileLetter::Char('x')));
    assert_eq!(played.tile_at(8, 8), Some(TileLetter::Char('y')));
}

#[test]
fn the_order_of_the_placements_does_not_matter() {
    let graph = graph_of(&["care"]);
    let mut board = Board::new(15, 15).unwrap();
    let m = vec![tile('e', 7, 10), tile('c', 7, 7), tile('r', 7, 9), tile('a', 7, 8)];
    assert_eq!(board.place_tiles(&graph, &m), Ok(()));
    assert_eq!(board.tile_at(7, 8), Some(TileLetter::Char('a')));
}

#[test]
fn illegal_first_move() {
    let graph = graph_of(&["care"]);
    let mut board = Board::new(15, 15).unwrap();
    assert_eq!(
        board.place_tiles(&graph, &vec![tile('c', 0, 0), tile('a', 0, 1)]),
        Err(SolverError::IllegalFirstMove)
    );
    assert_eq!(
        board.place_tiles(&graph, &vec![tile('c', 7, 8), tile('a', 7, 9)]),
        Err(SolverError::IllegalFirstMove)
    );
    assert_eq!(board.place_tiles(&graph, &vec![tile('c', 7, 7)]), Err(SolverError::IllegalFirstMove));
    assert_eq!(board.place_tiles(&graph, &vec![]), Err(SolverError::IllegalFirstMove));
    assert!(board.is_bare());
    assert_eq!(board.anchor_cells(), vec![(7, 7)]);
    // down the centre column, ending on the centre
    assert_eq!(board.place_tiles(&graph, &vec![tile('c', 6, 7), tile('a', 7, 7)]), Ok(()));
}

#[test]
fn disconnected_move() {
    let graph = graph_of(&["care"]);
    let mut board = board_with(&graph, &[care()]);
    assert_eq!(
        board.place_tiles(&graph, &vec![tile('x', 0, 0), tile('y', 0, 1)]),
        Err(SolverError::DisconnectedMove)
    );
    assert_eq!(board.place_tiles(&graph, &vec![tile('x', 5, 7)]), Err(SolverError::DisconnectedMove));
    assert_eq!(board.place_tiles(&graph, &vec![tile('x', 6, 6)]), Err(SolverError::DisconnectedMove));
    assert_eq!(board.place_tiles(&graph, &vec![]), Err(SolverError::DisconnectedMove));
    assert_eq!(board.tile_at(0, 0), None);
    assert_eq!(board.place_tiles(&graph, &vec![tile('x', 6, 7)]), Ok(()));
    assert_eq!(board.place_tiles(&graph, &vec![tile('y', 7, 11), tile('z', 7, 12)]), Ok(()));
}

#[test]
fn the_rules_one_by_one() {
    let graph = graph_of(&["care"]);
    let board = board_with(&graph, &[care()]);
    let inside = vec![tile('x', 6, 7), tile('y', 6, 9)];
    let outside = vec![tile('x', 6, 7), tile('y', 6, 15)];
    assert!(within_bounds(&board, &inside));
    assert!(!within_bounds(&board, &outside));
    assert!(within_bounds(&board, &vec![]));
    assert!(cells_free(&board, &inside));
    assert!(!cells_free(&board, &vec![tile('x', 7, 7)]));
    assert!(!cells_free(&board, &vec![tile('x', 6, 7), tile('y', 6, 7)]));
    assert!(lies_in_line(Direction::Horizontal, &inside));
    assert!(!lies_in_line(Direction::Vertical, &inside));
    assert!(lies_in_line(Direction::Vertical, &vec![tile('x', 6, 7)]));
    assert!(lies_in_line(Direction::Vertical, &vec![]));
    assert!(has_position(Direction::Horizontal, &inside, 9));
    assert!(!has_position(Direction::Horizontal, &inside, 8));
    assert!(has_position(Direction::Vertical, &inside, 6));
    assert!(!without_gaps(&board, &inside, Direction::Horizontal));
    assert!(without_gaps(&board, &vec![tile('x', 6, 8), tile('y', 8, 8)], Direction::Vertical));
    assert!(without_gaps(&board, &vec![tile('x', 6, 8), tile('y', 6, 9)], Direction::Horizontal));
    assert!(!on_centre(&board, &inside));
    assert!(on_centre(&board, &vec![tile('x', 7, 7)]));
    assert!(next_to_tile(&board, &inside));
    assert!(!next_to_tile(&board, &vec![tile('x', 0, 0)]));
    assert_eq!(position(Direction::Horizontal, &tile('x', 3, 5)), 5);
    assert_eq!(position(Direction::Vertical, &tile('x', 3, 5)), 3);
    assert_eq!(line_index(Direction::Horizontal, &tile('x', 3, 5)), 3);
    assert_eq!(line_index(Direction::Vertical, &tile('x', 3, 5)), 5);
    assert_eq!(check_move(&board, &inside), Err(SolverError::DiscontiguousMove));
    assert_eq!(check_move(&board, &outside), Err(SolverError::OutOfBounds));
    assert_eq!(check_move(&board, &vec![tile('x', 6, 7), tile('y', 6, 8)]), Ok(()));
}
