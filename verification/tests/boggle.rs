use boggle::Board;
use boggle::Dictionary;
use boggle::DimensionMismatch;
use boggle::Status;
use boggle::Traversal;
use boggle::index_rc;
use boggle::rc_index;

fn strings(words: &[&str]) -> Vec<String> {
    words.iter().map(|w| w.to_string()).collect()
}

fn collect_words(t: &mut Traversal) -> Vec<String> {
    let mut found = Vec::new();
    while let Some(w) = t.next() {
        found.push(w);
    }
    found
}

#[test]
fn scenario_two_by_two_bat_tab() {
    let dict = Dictionary::build(&strings(&["bat", "tab"]));
    let board = Board::new(2, 2, strings(&["b", "s", "t", "a"])).unwrap();
    let mut t = board.traversal(&dict);
    let found = collect_words(&mut t);
    assert_eq!(found, vec!["bat".to_string(), "tab".to_string()]);
}

#[test]
fn determinism_same_sequence() {
    let dict = Dictionary::build(&strings(&["bat", "tab", "bats", "stab", "at", "as"]));
    let board = Board::new(2, 2, strings(&["b", "s", "t", "a"])).unwrap();
    let mut t1 = board.traversal(&dict);
    let mut t2 = board.traversal(&dict);
    let found1 = collect_words(&mut t1);
    let found2 = collect_words(&mut t2);
    assert_eq!(found1, found2);
}

#[test]
fn next_stays_none_after_exhaustion() {
    let dict = Dictionary::build(&strings(&["bat", "tab"]));
    let board = Board::new(2, 2, strings(&["b", "s", "t", "a"])).unwrap();
    let mut t = board.traversal(&dict);
    while let Some(_) = t.next() {}
    assert_eq!(t.next(), None);
    assert_eq!(t.next(), None);
}

#[test]
fn cursor_scenario_app_le() {
    let dict = Dictionary::build(&strings(&["apple", "app", "application"]));
    assert!(dict.contains("app"));
    assert!(!dict.contains("appl"));
    let mut cursor = dict.cursor();
    assert_eq!(cursor.advance("app"), Status::PrefixAndMatch);
    assert_eq!(cursor.advance("le"), Status::Match);
}

#[test]
fn cursor_clone_explores_siblings_independently() {
    let dict = Dictionary::build(&strings(&["apple", "app", "application"]));
    let mut base = dict.cursor();
    assert_eq!(base.advance("appl"), Status::Prefix);
    let mut left = base.clone();
    let mut right = base.clone();
    assert_eq!(left.advance("e"), Status::Match);
    assert_eq!(right.advance("ication"), Status::Match);
}

#[test]
fn cursor_dead_stays_dead() {
    let dict = Dictionary::build(&strings(&["apple"]));
    let mut cursor = dict.cursor();
    assert_eq!(cursor.advance("zz"), Status::NoMatch);
    assert_eq!(cursor.advance("apple"), Status::NoMatch);
}

#[test]
fn cursor_empty_token_is_no_match() {
    let dict = Dictionary::build(&strings(&["apple"]));
    let mut cursor = dict.cursor();
    assert_eq!(cursor.advance(""), Status::NoMatch);
}

#[test]
fn dimension_mismatch() {
    let tiles = strings(&["a", "b", "c", "d", "e"]);
    assert!(matches!(Board::new(2, 3, tiles), Err(DimensionMismatch)));
}

#[test]
fn board_accepts_matching_dimensions() {
    let board = Board::new(2, 3, strings(&["a", "b", "c", "d", "e", "f"])).unwrap();
    assert_eq!(board.tile_at(0, 2).as_str(), "c");
    assert_eq!(board.tile_at(1, 0).as_str(), "d");
}

#[test]
fn multi_char_tile_consumed_atomically() {
    let dict = Dictionary::build(&strings(&["quit"]));
    let board = Board::new(1, 2, strings(&["qu", "it"])).unwrap();
    let mut t = board.traversal(&dict);
    assert_eq!(collect_words(&mut t), vec!["quit".to_string()]);
}

#[test]
fn words_are_lowercased_at_ingestion() {
    let dict = Dictionary::build(&strings(&["ApP"]));
    assert!(dict.contains("app"));
    assert!(!dict.contains("ApP"));
    assert!(!dict.contains("APP"));
}

#[test]
fn duplicates_and_empty_entries() {
    let dict = Dictionary::build(&strings(&["app", "app", ""]));
    assert!(dict.contains("app"));
    assert!(!dict.contains(""));
}

#[test]
fn empty_tile_is_pruned() {
    let dict = Dictionary::build(&strings(&["b"]));
    let board = Board::new(1, 2, strings(&["", "b"])).unwrap();
    let mut t = board.traversal(&dict);
    assert_eq!(collect_words(&mut t), vec!["b".to_string()]);
}

#[test]
fn same_word_from_two_paths_yields_twice() {
    let dict = Dictionary::build(&strings(&["aba"]));
    let board = Board::new(1, 3, strings(&["a", "b", "a"])).unwrap();
    let mut t = board.traversal(&dict);
    assert_eq!(collect_words(&mut t), vec!["aba".to_string(), "aba".to_string()]);
}

#[test]
fn prefix_without_word_yields_nothing() {
    let dict = Dictionary::build(&strings(&["batman"]));
    let board = Board::new(2, 2, strings(&["b", "s", "t", "a"])).unwrap();
    let mut t = board.traversal(&dict);
    assert_eq!(collect_words(&mut t), Vec::<String>::new());
}

#[test]
fn empty_dictionary_finds_nothing() {
    let words: Vec<String> = Vec::new();
    let dict = Dictionary::build(&words);
    assert!(!dict.contains("a"));
    let board = Board::new(2, 2, strings(&["b", "s", "t", "a"])).unwrap();
    let mut t = board.traversal(&dict);
    assert_eq!(t.next(), None);
}

#[test]
fn neighbors_follow_fixed_order() {
    let tiles = strings(&["a", "b", "c", "d", "e", "f", "g", "h", "i"]);
    let board = Board::new(3, 3, tiles).unwrap();
    assert_eq!(board.neighbors_of(4), vec![0, 1, 2, 3, 5, 6, 7, 8]);
    assert_eq!(board.neighbors_of(0), vec![1, 3, 4]);
    assert_eq!(board.neighbors_of(8), vec![4, 5, 7]);
}

#[test]
fn index_round_trip() {
    assert_eq!(rc_index(1, 2, 3), 5);
    assert_eq!(index_rc(5, 3), (1, 2));
    assert_eq!(rc_index(0, 0, 7), 0);
    assert_eq!(index_rc(0, 7), (0, 0));
}

#[test]
fn every_yield_is_a_dictionary_word() {
    let dict = Dictionary::build(&strings(&["eta", "ate", "tea", "eat", "gin", "nag", "net"]));
    let board = Board::new(4, 4, strings(&[
        "e", "g", "t", "e", "qu", "i", "n", "a", "a", "p", "e", "s", "c", "o", "r", "t",
    ]))
    .unwrap();
    let mut t = board.traversal(&dict);
    let found = collect_words(&mut t);
    assert!(!found.is_empty());
    for w in &found {
        assert!(dict.contains(w));
    }
}
