use scrabble_solver::letters::{
    char_at, check_letter, index_to_letter, letter_to_index, LetterSet, ALPHABET_SIZE,
};
use scrabble_solver::tiles::{Direction, TileLetter};

#[test]
fn letters_and_their_positions() {
    assert_eq!(ALPHABET_SIZE, 26);
    assert!(check_letter('a'));
    assert!(check_letter('m'));
    assert!(check_letter('z'));
    assert!(!check_letter('A'));
    assert!(!check_letter('`'));
    assert!(!check_letter('{'));
    assert!(!check_letter(' '));
    assert!(!check_letter('\u{e9}'));
    assert_eq!(letter_to_index('a'), 0);
    assert_eq!(letter_to_index('c'), 2);
    assert_eq!(letter_to_index('z'), 25);
    assert_eq!(index_to_letter(0), 'a');
    assert_eq!(index_to_letter(25), 'z');
    for i in 0..26 {
        assert_eq!(letter_to_index(index_to_letter(i)), i);
    }
    assert_eq!(char_at(&vec!['x', 'y'], 1), 'y');
}

#[test]
fn empty_and_full_sets() {
    let empty = LetterSet::empty();
    let full = LetterSet::full();
    for ch in 'a'..='z' {
        assert!(!empty.contains(ch));
        assert!(full.contains(ch));
    }
    for ch in ['A', '{', '`', ' ', '\u{e9}', '\u{10ffff}'] {
        assert!(!empty.contains(ch));
        assert!(!full.contains(ch));
    }
}

#[test]
fn insert_adds_one_letter() {
    let mut set = LetterSet::empty();
    set.insert('e');
    assert!(set.contains('e'));
    assert!(!set.contains('d'));
    assert!(!set.contains('f'));
    set.insert('a');
    set.insert('z');
    set.insert('e');
    let members: String = ('a'..='z').filter(|ch| set.contains(*ch)).collect();
    assert_eq!(members, "aez");
    let copy = set;
    assert!(copy.contains('z'));
}

#[test]
fn tiles_and_directions() {
    assert_eq!(TileLetter::Char('q').to_char(), 'q');
    assert_eq!(TileLetter::Blank('q').to_char(), 'q');
    assert_eq!(Direction::Horizontal.crossing(), Direction::Vertical);
    assert_eq!(Direction::Vertical.crossing(), Direction::Horizontal);
}
