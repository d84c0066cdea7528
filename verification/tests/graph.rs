use scrabble_solver::dag::{is_valid_word, rotation_path, word_chars, Arc, Graph, Kind};

fn path_of(symbols: &str) -> Vec<Kind> {
    symbols.chars().map(|c| if c == '>' { Kind::Delim } else { Kind::Char(c) }).collect()
}

#[test]
fn it_works() {
    let words = vec!["care"];
    let mut g = Graph::new();
    for word in words {
        g.add_word(word);
    }
}

#[test]
fn added_word_is_found() {
    let mut g = Graph::new();
    assert!(!g.contains("care"));
    g.add_word("care");
    assert!(g.contains("care"));
    assert!(!g.contains("car"));
    assert!(!g.contains("are"));
    assert!(!g.contains("cares"));
    assert!(!g.contains("erac"));
    assert!(!g.contains("c"));
    assert!(!g.contains(""));
    assert!(!g.contains("Care"));
    g.add_word("car");
    g.add_word("a");
    assert!(g.contains("car"));
    assert!(g.contains("care"));
    assert!(g.contains("a"));
    assert!(!g.contains("ca"));
}

/// Every arc of the graph: the symbols that lead to it, its letter set, and
/// the length of the arc table behind it.
fn arcs_of(arc: &Arc, path: String, out: &mut Vec<(String, String, usize)>) {
    let letters: String = ('a'..='z').filter(|ch| arc.letter_set.contains(*ch)).collect();
    out.push((path.clone(), letters, arc.next.arcs.len()));
    for (slot, entry) in arc.next.arcs.iter().enumerate() {
        if let Some(child) = entry {
            let symbol = if slot == 26 { '>' } else { (b'a' + slot as u8) as char };
            arcs_of(child, format!("{}{}", path, symbol), out);
        }
    }
}

fn dump(g: &Graph) -> Vec<(String, String, usize)> {
    let mut out = Vec::new();
    arcs_of(g.initial_arc(), String::new(), &mut out);
    out
}

#[test]
fn a_new_graph_is_bare() {
    let g = Graph::new();
    assert_eq!(dump(&g), vec![(String::new(), String::new(), 0)]);
    for ch in 'a'..='z' {
        assert!(g.initial_arc().next_arc(Kind::Char(ch)).is_none());
    }
    assert!(g.initial_arc().next_arc(Kind::Delim).is_none());
}

#[test]
fn the_arcs_are_those_of_the_rotated_forms() {
    let mut g = Graph::new();
    g.add_word("at");
    let paths: Vec<(String, String)> = dump(&g).into_iter().map(|(p, l, _)| (p, l)).collect();
    let expected = [("", ""), ("a", ""), ("a>", "t"), ("a>t", ""), ("t", "a"), ("ta", "")];
    let expected: Vec<(String, String)> =
        expected.iter().map(|(p, l)| (p.to_string(), l.to_string())).collect();
    assert_eq!(paths, expected);
}

#[test]
fn what_was_stored_stays() {
    let mut g = Graph::new();
    g.add_word("care");
    let before = dump(&g);
    g.add_word("cares");
    g.add_word("at");
    let after = dump(&g);
    for (path, letters, _) in &before {
        let (_, now, _) = after.iter().find(|(p, _, _)| p == path).expect("the path is still there");
        assert!(letters.chars().all(|ch| now.contains(ch)));
    }
    assert!(after.len() > before.len());
}

#[test]
fn the_order_of_adding_makes_no_difference() {
    let mut one = Graph::new();
    let mut other = Graph::new();
    for word in ["care", "scare", "at", "cat", "a"] {
        one.add_word(word);
    }
    for word in ["a", "cat", "at", "scare", "care", "at"] {
        other.add_word(word);
    }
    assert_eq!(dump(&one), dump(&other));
}

#[test]
fn adding_a_word_again_changes_nothing() {
    let mut g = Graph::new();
    g.add_word("care");
    g.add_word("car");
    let before = dump(&g);
    g.add_word("care");
    assert_eq!(dump(&g), before);
    g.add_word("car");
    g.add_word("care");
    assert_eq!(dump(&g), before);
    assert!(g.contains("care"));
    for form in ["erac", "rac>e", "ac>re", "c>are"] {
        assert!(g.initial_arc().stores(&path_of(form)), "{}", form);
    }
}

#[test]
fn every_rotation_is_a_path() {
    let mut g = Graph::new();
    g.add_word("care");
    // a, c, Delim, r, e
    let a = g.initial_arc().next_arc(Kind::Char('a')).unwrap();
    let c = a.next_arc(Kind::Char('c')).unwrap();
    let d = c.next_arc(Kind::Delim).unwrap();
    let r = d.next_arc(Kind::Char('r')).unwrap();
    assert!(r.letter_set.contains('e'));
    assert!(!r.letter_set.contains('r'));
    assert!(r.next_arc(Kind::Char('e')).is_some());
    assert!(g.initial_arc().next_arc(Kind::Delim).is_none());
    for form in ["erac", "rac>e", "ac>re", "c>are"] {
        let path = path_of(form);
        assert!(g.initial_arc().follow(&path, path.len()).is_some(), "{}", form);
        assert!(g.initial_arc().stores(&path), "{}", form);
    }
    // the whole reversal has no delimiter behind it
    let whole = path_of("erac");
    assert!(g.initial_arc().follow(&whole, 4).unwrap().next_arc(Kind::Delim).is_none());
    // the letter sets mark the ends of the forms only
    for form in ["era", "rac>", "ac>r", "c>ar", "c>a", "e", "care", "c>arer"] {
        assert!(!g.initial_arc().stores(&path_of(form)), "{}", form);
    }
    assert!(!g.initial_arc().stores(&Vec::new()));
    assert!(g.initial_arc().follow(&path_of("x"), 1).is_none());
    assert!(g.initial_arc().follow(&path_of("x"), 0).is_some());
    assert!(g.initial_arc().follow(&path_of("eracx"), 5).is_none());
    assert!(g.initial_arc().follow(&path_of("eracx"), 4).is_some());
}

#[test]
fn every_split_gives_the_same_answer() {
    let mut g = Graph::new();
    g.add_word("care");
    g.add_word("scare");
    for split in 1..=4 {
        assert!(g.has_word(&vec!['c', 'a', 'r', 'e'], split));
        assert!(!g.has_word(&vec!['c', 'a', 'r', 'd'], split));
        assert!(!g.has_word(&vec!['c', 'a', 'r', 's'], split));
    }
    for split in 1..=5 {
        assert!(g.has_word(&vec!['s', 'c', 'a', 'r', 'e'], split));
        assert!(!g.has_word(&vec!['c', 'a', 'r', 'e', 's'], split));
    }
    for split in 1..=3 {
        assert!(!g.has_word(&vec!['c', 'a', 'r'], split));
        assert!(!g.has_word(&vec!['a', 'r', 'e'], split));
    }
}

#[test]
fn rotated_forms() {
    let word = vec!['c', 'a', 'r', 'e'];
    assert_eq!(rotation_path(&word, 1), path_of("c>are"));
    assert_eq!(rotation_path(&word, 2), path_of("ac>re"));
    assert_eq!(rotation_path(&word, 3), path_of("rac>e"));
    assert_eq!(rotation_path(&word, 4), path_of("erac"));
    assert_eq!(rotation_path(&vec!['a'], 1), path_of("a"));
}

#[test]
fn words_and_their_characters() {
    assert_eq!(word_chars("care"), vec!['c', 'a', 'r', 'e']);
    assert_eq!(word_chars(""), Vec::<char>::new());
    assert_eq!(word_chars("caf\u{e9}"), vec!['c', 'a', 'f', '\u{e9}']);
    assert!(is_valid_word(&vec!['c', 'a', 'r', 'e']));
    assert!(is_valid_word(&vec!['z']));
    assert!(!is_valid_word(&vec![]));
    assert!(!is_valid_word(&vec!['c', 'A']));
    assert!(!is_valid_word(&vec!['c', ' ', 'a']));
    assert!(!is_valid_word(&vec!['\u{e9}']));
}

#[test]
fn symbols_and_their_slots() {
    assert_eq!(Kind::Char('a').slot(), Some(0));
    assert_eq!(Kind::Char('z').slot(), Some(25));
    assert_eq!(Kind::Delim.slot(), Some(26));
    assert_eq!(Kind::Char('A').slot(), None);
    assert_eq!(Kind::Char('{').slot(), None);
    let mut g = Graph::new();
    g.add_word("b");
    assert!(g.initial_arc().letter_set.contains('b'));
    assert!(g.initial_arc().next.get(Kind::Char('b')).is_some());
    assert!(g.initial_arc().next.get(Kind::Char('a')).is_none());
    assert!(g.initial_arc().next.get(Kind::Char('c')).is_none());
    assert!(g.initial_arc().next.get(Kind::Char('B')).is_none());
    assert!(g.initial_arc().next.get(Kind::Delim).is_none());
}
