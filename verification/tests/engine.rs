use wordrack::dict::Dictionary;
use wordrack::registry::Registry;
use wordrack::search::{explore, find_words, query};
use wordrack::tiles::parse_rack;

fn dict_of(words: &[&str]) -> Dictionary {
    let list: Vec<Vec<u8>> = words.iter().map(|w| w.as_bytes().to_vec()).collect();
    Dictionary::new(list).expect("valid dictionary")
}

fn rack_of(line: &str) -> Vec<wordrack::tiles::Tile> {
    parse_rack(&line.as_bytes().to_vec()).expect("valid rack")
}

fn as_set(words: Vec<Vec<u8>>) -> Vec<String> {
    let mut out: Vec<String> = words
        .into_iter()
        .map(|w| String::from_utf8(w).expect("utf8"))
        .collect();
    out.sort();
    out
}

#[test]
fn concrete_scenario_cat() {
    // dictionary {cat, car, at}, rack "c a t": the result set is
    // {cat, at}; "car" needs an r the rack does not hold.
    let dict = dict_of(&["cat", "car", "at"]);
    let rack = rack_of("c a t");
    let found = as_set(find_words(&dict, &rack));
    assert_eq!(found, vec!["at".to_string(), "cat".to_string()]);

    // Scored: cat = 5 + 4 + 4 = 13 ranks above at = 4 + 4 = 8.
    let ranked = query(&dict, &rack, 10);
    assert_eq!(ranked.len(), 2);
    assert_eq!(ranked[0].0, b"cat".to_vec());
    assert_eq!(ranked[0].1, 13);
    assert_eq!(ranked[1].0, b"at".to_vec());
    assert_eq!(ranked[1].1, 8);
}

#[test]
fn wildcard_scenario_ax() {
    // dictionary {ax}, rack "a ?": the wildcard expands to x.
    let dict = dict_of(&["ax"]);
    let rack = rack_of("a ?");
    let found = as_set(find_words(&dict, &rack));
    assert_eq!(found, vec!["ax".to_string()]);
    let ranked = query(&dict, &rack, 10);
    assert_eq!(ranked.len(), 1);
    assert_eq!(ranked[0].0, b"ax".to_vec());
    assert_eq!(ranked[0].1, 12);
}

#[test]
fn all_wildcards_find_every_short_word() {
    // A rack of two wildcards finds every dictionary word of length
    // at most two, each exactly once.
    let dict = dict_of(&["a", "ab", "abc", "zz", "q"]);
    let rack = rack_of("??");
    let found = as_set(find_words(&dict, &rack));
    assert_eq!(
        found,
        vec!["a".to_string(), "ab".to_string(), "q".to_string(), "zz".to_string()]
    );
}

#[test]
fn no_wildcards_matches_multiset_filter() {
    // Cross-check the enumeration against the direct multiset filter.
    let words = ["cat", "car", "at", "tact", "act", "cc"];
    let dict = dict_of(&words);
    let rack_line = "tac";
    let rack = rack_of(rack_line);
    let found = as_set(find_words(&dict, &rack));

    let rack_counts = wordrack::counts::char_counts(&rack_line.as_bytes().to_vec());
    let mut filtered: Vec<String> = words
        .iter()
        .filter(|w| {
            let wc = wordrack::counts::char_counts(&w.as_bytes().to_vec());
            wordrack::counts::can_spell(&wc, &rack_counts)
        })
        .map(|w| w.to_string())
        .collect();
    filtered.sort();
    assert_eq!(found, filtered);
    assert_eq!(
        found,
        vec!["act".to_string(), "at".to_string(), "cat".to_string()]
    );
}

#[test]
fn same_query_twice_same_results() {
    // Idempotence: an unmodified dictionary answers the same query with
    // the same set, and the ranking is deterministic too.
    let dict = dict_of(&["bed", "deb", "be", "ebb"]);
    let rack = rack_of("b e d ?");
    let first = find_words(&dict, &rack);
    let second = find_words(&dict, &rack);
    assert_eq!(as_set(first), as_set(second));
    let ranked1 = query(&dict, &rack, 10);
    let ranked2 = query(&dict, &rack, 10);
    assert_eq!(ranked1, ranked2);
}

#[test]
fn duplicate_tiles_claim_each_prefix_once() {
    // Deduplication: with two identical tiles, the prefix reachable via
    // either is claimed exactly once — the visited registry is a set.
    let dict = dict_of(&["a"]);
    let rack = rack_of("aa");
    let mut visited = Registry::new();
    let mut results = Registry::new();
    let prefix: Vec<u8> = Vec::new();
    explore(&dict, &rack, &prefix, &mut visited, &mut results);
    assert_eq!(visited.len(), 1);
    assert!(visited.contains(&b"a".to_vec()));
    assert_eq!(results.len(), 1);
}

#[test]
fn pruned_prefix_never_visited() {
    // Pruning: no dictionary word starts with "b" or "ab", so neither
    // is ever claimed, and nothing below them is found.
    let dict = dict_of(&["ax"]);
    let rack = rack_of("ab");
    let mut visited = Registry::new();
    let mut results = Registry::new();
    let prefix: Vec<u8> = Vec::new();
    explore(&dict, &rack, &prefix, &mut visited, &mut results);
    assert!(visited.contains(&b"a".to_vec()));
    assert!(!visited.contains(&b"b".to_vec()));
    assert!(!visited.contains(&b"ab".to_vec()));
    assert_eq!(results.len(), 0);
}

#[test]
fn wildcard_overlapping_concrete_tile() {
    // A wildcard may land on a letter also present concretely; the word
    // still counts once.
    let dict = dict_of(&["aa", "ab"]);
    let rack = rack_of("a?");
    let found = as_set(find_words(&dict, &rack));
    assert_eq!(found, vec!["aa".to_string(), "ab".to_string()]);
}

#[test]
fn query_truncates_to_k() {
    let dict = dict_of(&["a", "b", "c", "d"]);
    let rack = rack_of("????");
    let ranked = query(&dict, &rack, 2);
    assert_eq!(ranked.len(), 2);
    // b scores 5; a, c, d follow, ties broken lexicographically: c = 5.
    assert_eq!(ranked[0].0, b"b".to_vec());
    assert_eq!(ranked[1].0, b"c".to_vec());
}

#[test]
fn empty_dictionary_finds_nothing() {
    let dict = dict_of(&[]);
    let rack = rack_of("abc");
    assert_eq!(find_words(&dict, &rack).len(), 0);
}

#[test]
fn depth_cap_truncates_long_racks() {
    // A rack longer than the exploration depth still answers, but no
    // word longer than the cap of 16 letters can be built.
    let dict = dict_of(&["aaaaaaaaaaaaaaaa", "aaaaaaaaaaaaaaaaa"]);
    let rack = rack_of("aaaaaaaaaaaaaaaaa");
    let found = as_set(find_words(&dict, &rack));
    assert_eq!(found, vec!["aaaaaaaaaaaaaaaa".to_string()]);
}
