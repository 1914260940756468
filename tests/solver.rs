use wordle5solver::cliques::{find_cliques, intersect};
use wordle5solver::find_word_cliques;
use wordle5solver::graph::build_graph;
use wordle5solver::groups::group_words;
use wordle5solver::letters::word_key;
use wordle5solver::lex::{insert_unique, sort_texts, text_le};
use wordle5solver::report::join_texts;

fn strings(ws: &[&str]) -> Vec<String> {
    ws.iter().map(|w| w.to_string()).collect()
}

#[test]
fn key_of_first_letters() {
    assert_eq!(word_key("abcde"), Some(0b11111));
}

#[test]
fn key_of_fjord() {
    let expected = (1u32 << 5) | (1 << 9) | (1 << 14) | (1 << 17) | (1 << 3);
    assert_eq!(word_key("fjord"), Some(expected));
}

#[test]
fn anagrams_share_a_key() {
    assert_eq!(word_key("fjord"), word_key("dorfj"));
    assert_eq!(word_key("waltz"), word_key("zltaw"));
    assert_ne!(word_key("fjord"), word_key("waltz"));
}

#[test]
fn words_of_wrong_length_are_rejected() {
    assert_eq!(word_key(""), None);
    assert_eq!(word_key("abcd"), None);
    assert_eq!(word_key("abcdef"), None);
}

#[test]
fn words_with_repeated_letters_are_rejected() {
    assert_eq!(word_key("hello"), None);
    assert_eq!(word_key("aaaaa"), None);
    assert_eq!(word_key("abcda"), None);
}

#[test]
fn words_outside_lowercase_are_rejected() {
    assert_eq!(word_key("Fjord"), None);
    assert_eq!(word_key("fj0rd"), None);
    assert_eq!(word_key("fjörd"), None);
}

#[test]
fn groups_collect_anagrams_in_input_order() {
    let words = strings(&["fjord", "hello", "waltz", "dorfj", "fjord", "abc"]);
    let g = group_words(&words);
    assert_eq!(g.keys.len(), 2);
    assert_eq!(g.groups.len(), 2);
    assert_eq!(g.keys[0], word_key("fjord").unwrap());
    assert_eq!(g.keys[1], word_key("waltz").unwrap());
    assert_eq!(g.groups[0], strings(&["fjord", "dorfj", "fjord"]));
    assert_eq!(g.groups[1], strings(&["waltz"]));
}

#[test]
fn groups_of_empty_input_are_empty() {
    let g = group_words(&Vec::new());
    assert!(g.keys.is_empty());
    assert!(g.groups.is_empty());
}

#[test]
fn graph_links_disjoint_keys_both_ways() {
    let keys = vec![
        word_key("fjord").unwrap(),
        word_key("waltz").unwrap(),
        word_key("world").unwrap(),
    ];
    let g = build_graph(keys);
    assert_eq!(g.adj.len(), 3);
    assert_eq!(g.adj[0], vec![1]);
    assert_eq!(g.adj[1], vec![0]);
    assert!(g.adj[2].is_empty());
}

#[test]
fn intersect_keeps_common_nodes_in_order() {
    assert_eq!(intersect(&vec![4, 1, 7, 3], &vec![3, 9, 4]), vec![4, 3]);
    assert_eq!(intersect(&vec![1, 2], &vec![]), Vec::<usize>::new());
}

#[test]
fn cliques_are_found_in_every_order() {
    let words = strings(&["fjord", "gucks", "nymph", "vibex", "waltz", "world"]);
    let g = group_words(&words);
    let graph = build_graph(g.keys.clone());
    let found = find_cliques(&graph);
    assert_eq!(found.len(), 120);
    for c in &found {
        assert_eq!(c.len(), 5);
        assert!(!c.contains(&5));
    }
}

#[test]
fn text_order_is_lexicographic() {
    assert!(text_le("abc", "abd"));
    assert!(!text_le("abd", "abc"));
    assert!(text_le("ab", "abc"));
    assert!(!text_le("abc", "ab"));
    assert!(text_le("", ""));
    assert!(text_le("same", "same"));
}

#[test]
fn sort_keeps_repeats() {
    let v = strings(&["pear", "apple", "fig", "apple"]);
    assert_eq!(sort_texts(&v), strings(&["apple", "apple", "fig", "pear"]));
    assert_eq!(sort_texts(&Vec::new()), Vec::<String>::new());
}

#[test]
fn insert_unique_skips_present_lines() {
    let mut out: Vec<String> = Vec::new();
    insert_unique(&mut out, "m".to_string());
    insert_unique(&mut out, "c".to_string());
    insert_unique(&mut out, "x".to_string());
    insert_unique(&mut out, "m".to_string());
    assert_eq!(out, strings(&["c", "m", "x"]));
}

#[test]
fn join_puts_separator_between_parts() {
    assert_eq!(join_texts(&strings(&["a", "b", "c"]), "|"), "a|b|c");
    assert_eq!(join_texts(&strings(&["one"]), ","), "one");
    assert_eq!(join_texts(&Vec::new(), ","), "");
}

#[test]
fn example_list_without_full_clique() {
    let words = strings(&["aegis", "hello", "nymph", "squad", "fjord", "blitz"]);
    assert!(find_word_cliques(&words).is_empty());
}

#[test]
fn known_clique_is_found() {
    let words = strings(&["fjord", "gucks", "nymph", "vibex", "waltz"]);
    assert_eq!(
        find_word_cliques(&words),
        strings(&["fjord,gucks,nymph,vibex,waltz"])
    );
}

#[test]
fn clique_never_joins_words_sharing_a_letter() {
    let words = strings(&[
        "aegis", "blitz", "fjord", "gucks", "nymph", "vibex", "waltz",
    ]);
    let out = find_word_cliques(&words);
    assert_eq!(out, strings(&["fjord,gucks,nymph,vibex,waltz"]));
    for line in &out {
        assert!(!(line.contains("aegis") && line.contains("blitz")));
    }
}

#[test]
fn anagrams_share_one_entry() {
    let words = strings(&["waltz", "fjord", "nymph", "vibex", "gucks", "dorfj"]);
    assert_eq!(
        find_word_cliques(&words),
        strings(&["dorfj|fjord,gucks,nymph,vibex,waltz"])
    );
}

#[test]
fn repeated_word_is_kept_in_its_entry() {
    let words = strings(&["fjord", "gucks", "nymph", "vibex", "waltz", "fjord"]);
    assert_eq!(
        find_word_cliques(&words),
        strings(&["fjord|fjord,gucks,nymph,vibex,waltz"])
    );
}

#[test]
fn two_cliques_come_sorted() {
    let words = strings(&[
        "fjord", "gucks", "nymph", "vibex", "waltz", "glent", "prick", "waqfs", "jumby",
        "vozhd",
    ]);
    assert_eq!(
        find_word_cliques(&words),
        strings(&[
            "fjord,gucks,nymph,vibex,waltz",
            "glent,jumby,prick,vozhd,waqfs",
        ])
    );
}

#[test]
fn running_twice_gives_the_same_lines() {
    let words = strings(&[
        "fjord", "gucks", "nymph", "vibex", "waltz", "dorfj", "glent", "prick", "waqfs",
        "jumby", "vozhd",
    ]);
    let first = find_word_cliques(&words);
    let second = find_word_cliques(&words);
    assert_eq!(first, second);
    assert_eq!(first.join("\n"), second.join("\n"));
}

#[test]
fn output_has_no_duplicate_lines() {
    let words = strings(&["fjord", "gucks", "nymph", "vibex", "waltz", "fjord", "waltz"]);
    let out = find_word_cliques(&words);
    let mut seen = out.clone();
    seen.dedup();
    assert_eq!(seen.len(), out.len());
    assert_eq!(out.len(), 1);
}

#[test]
fn empty_input_gives_empty_output() {
    assert!(find_word_cliques(&Vec::new()).is_empty());
}

#[test]
fn all_filtered_input_gives_empty_output() {
    let words = strings(&["hello", "abc", "toolong", "AEGIS", "sassy"]);
    assert!(find_word_cliques(&words).is_empty());
}

#[test]
fn four_compatible_words_are_not_enough() {
    let words = strings(&["fjord", "gucks", "nymph", "vibex"]);
    assert!(find_word_cliques(&words).is_empty());
}
