use wordrack::counts::{can_spell, char_counts};
use wordrack::dict::Dictionary;
use wordrack::rank::{lex_less_bytes, rank};
use wordrack::registry::Registry;
use wordrack::scoring::word_power;
use wordrack::tiles::{parse_rack, RackError, Tile};

#[test]
fn parse_rack_letters_wildcards_spaces() {
    let tiles = parse_rack(&b"a b?z".to_vec()).expect("parses");
    assert_eq!(
        tiles,
        vec![Tile::Letter(b'a'), Tile::Letter(b'b'), Tile::Wildcard, Tile::Letter(b'z')]
    );
}

#[test]
fn parse_rack_rejects_bad_symbol() {
    assert_eq!(parse_rack(&b"ab3".to_vec()), Err(RackError::BadSymbol));
    assert_eq!(parse_rack(&b"A".to_vec()), Err(RackError::BadSymbol));
}

#[test]
fn parse_rack_rejects_empty() {
    assert_eq!(parse_rack(&b"".to_vec()), Err(RackError::Empty));
    assert_eq!(parse_rack(&b"   ".to_vec()), Err(RackError::Empty));
}

#[test]
fn word_power_values() {
    // Per-letter table: default 4; b c f h m p = 5; v w y = 6;
    // j k = 7; x z = 8; q = 11.
    assert_eq!(word_power(&b"cat".to_vec()), 13);
    assert_eq!(word_power(&b"at".to_vec()), 8);
    assert_eq!(word_power(&b"quiz".to_vec()), 27);
    assert_eq!(word_power(&b"jaw".to_vec()), 17);
    assert_eq!(word_power(&b"".to_vec()), 0);
}

#[test]
fn char_counts_letters_and_wildcards() {
    let c = char_counts(&b"ba?na  na".to_vec());
    assert_eq!(c.values[(b'a' - b'a') as usize], 3);
    assert_eq!(c.values[(b'n' - b'a') as usize], 2);
    assert_eq!(c.values[(b'b' - b'a') as usize], 1);
    assert_eq!(c.values[(b'z' - b'a') as usize], 0);
    // The '?' and the two spaces all count as wildcards.
    assert_eq!(c.wildcards, 3);
}

#[test]
fn can_spell_with_and_without_wildcards() {
    let rack = char_counts(&b"tac".to_vec());
    assert!(can_spell(&char_counts(&b"cat".to_vec()), &rack));
    assert!(can_spell(&char_counts(&b"at".to_vec()), &rack));
    assert!(!can_spell(&char_counts(&b"car".to_vec()), &rack));
    let wild = char_counts(&b"ca?".to_vec());
    assert!(can_spell(&char_counts(&b"car".to_vec()), &wild));
    assert!(!can_spell(&char_counts(&b"carr".to_vec()), &wild));
}

#[test]
fn dictionary_oracles() {
    let words: Vec<Vec<u8>> = vec![b"cat".to_vec(), b"car".to_vec(), b"at".to_vec()];
    let dict = Dictionary::new(words).expect("valid");
    assert!(dict.is_word(&b"cat".to_vec()));
    assert!(!dict.is_word(&b"ca".to_vec()));
    assert!(dict.has_words_with_prefix(&b"ca".to_vec()));
    assert!(dict.has_words_with_prefix(&b"cat".to_vec()));
    assert!(!dict.has_words_with_prefix(&b"x".to_vec()));
    assert!(dict.has_words_with_prefix(&b"".to_vec()));
}

#[test]
fn dictionary_rejects_bad_words() {
    assert!(Dictionary::new(vec![b"ok".to_vec(), b"".to_vec()]).is_none());
    assert!(Dictionary::new(vec![b"Ok".to_vec()]).is_none());
    assert!(Dictionary::new(vec![b"with space".to_vec()]).is_none());
}

#[test]
fn registry_insert_if_absent() {
    let mut reg = Registry::new();
    assert_eq!(reg.len(), 0);
    assert!(reg.insert_if_absent(b"ab".to_vec()));
    assert!(!reg.insert_if_absent(b"ab".to_vec()));
    assert!(reg.insert_if_absent(b"ba".to_vec()));
    assert_eq!(reg.len(), 2);
    assert!(reg.contains(&b"ab".to_vec()));
    assert!(!reg.contains(&b"a".to_vec()));
}

#[test]
fn lex_order() {
    assert!(lex_less_bytes(&b"ab".to_vec(), &b"ba".to_vec()));
    assert!(!lex_less_bytes(&b"ba".to_vec(), &b"ab".to_vec()));
    assert!(lex_less_bytes(&b"a".to_vec(), &b"ab".to_vec()));
    assert!(!lex_less_bytes(&b"ab".to_vec(), &b"ab".to_vec()));
    assert!(lex_less_bytes(&b"".to_vec(), &b"a".to_vec()));
}

#[test]
fn rank_orders_by_score_then_lex() {
    // ox = 4 + 8 = 12 beats ba and ab at 9 each; the tie breaks
    // lexicographically, ab before ba.
    let words: Vec<Vec<u8>> = vec![b"ba".to_vec(), b"ab".to_vec(), b"ox".to_vec()];
    let ranked = rank(&words, 10);
    assert_eq!(ranked.len(), 3);
    assert_eq!(ranked[0], (b"ox".to_vec(), 12));
    assert_eq!(ranked[1], (b"ab".to_vec(), 9));
    assert_eq!(ranked[2], (b"ba".to_vec(), 9));
}

#[test]
fn rank_truncates() {
    let words: Vec<Vec<u8>> = vec![b"a".to_vec(), b"b".to_vec(), b"c".to_vec()];
    let ranked = rank(&words, 2);
    assert_eq!(ranked.len(), 2);
    assert_eq!(ranked[0].0, b"b".to_vec());
    assert_eq!(ranked[1].0, b"c".to_vec());
    assert_eq!(rank(&words, 0).len(), 0);
}
