use letterboxed::chain_graph::graph;
use letterboxed::partition::side_filter;
use letterboxed::partition::Partition;
use letterboxed::search::path_covers;
use letterboxed::search::shortest_path;
use letterboxed::search::shortest_paths;
use letterboxed::words::prune_dictionary;
use letterboxed::words::word_passes_prune;
use letterboxed::words::Word;

fn puzzle_partition() -> Partition {
    // The 12 puzzle letters, grouped in consecutive runs of 3.
    let letters: Vec<char> = vec!['s', 'l', 'c', 'w', 'i', 'j', 'a', 'g', 'y', 'k', 'o', 'n'];
    let sides: Vec<usize> = (0..12).map(|i| i / 3).collect();
    Partition { letters, sides }
}

fn make_words(texts: &[&str]) -> Vec<Word> {
    texts.iter().map(|t| Word::new(t.to_string())).collect()
}

#[test]
fn prune_keeps_only_legal_words() {
    let words = vec!["slow", "cat", "ab1c", "bool", "wacky", "ax!b", "", "a"];
    let pruned = prune_dictionary(words);
    assert_eq!(pruned, vec!["slow", "wacky"]);
}

#[test]
fn prune_rejects_each_reason() {
    // Too short.
    assert!(!word_passes_prune("dog"));
    // Exactly 4 characters is long enough.
    assert!(word_passes_prune("dogs"));
    // Non-alphabetic character.
    assert!(!word_passes_prune("do2go"));
    assert!(!word_passes_prune("do go"));
    // Immediately repeated character.
    assert!(!word_passes_prune("ballot"));
    // Repeated but not adjacent is fine.
    assert!(word_passes_prune("yoyos"));
}

#[test]
fn prune_is_idempotent() {
    let words = vec!["slow", "cat", "bool", "wacky", "yogis"];
    let once = prune_dictionary(words);
    let twice = prune_dictionary(once.clone());
    assert_eq!(once, twice);
}

#[test]
fn word_caches_sorted_distinct_letters() {
    let w = Word::new("wacky".to_string());
    assert_eq!(w.string, "wacky");
    assert_eq!(w.unique_letters, vec!['a', 'c', 'k', 'w', 'y']);

    let w = Word::new("yoyo".to_string());
    assert_eq!(w.unique_letters, vec!['o', 'y']);
}

#[test]
fn partition_side_lookup() {
    let p = puzzle_partition();
    assert_eq!(p.side_of('s'), Some(0));
    assert_eq!(p.side_of('w'), Some(1));
    assert_eq!(p.side_of('y'), Some(2));
    assert_eq!(p.side_of('n'), Some(3));
    assert_eq!(p.side_of('x'), None);
}

#[test]
fn side_filter_drops_same_side_pairs() {
    let p = puzzle_partition();
    // "slow" traces s then l, both on the first side.
    // "sing" alternates sides: s(0) i(1) n(3) g(2).
    let kept = side_filter(vec!["slow", "sing"], &p);
    assert_eq!(kept, vec!["sing"]);
}

#[test]
fn side_filter_drops_words_with_letters_outside_alphabet() {
    let p = puzzle_partition();
    // 'x' and 'e' are not in the partition at all.
    let kept = side_filter(vec!["exam", "sing", "oxen"], &p);
    assert_eq!(kept, vec!["sing"]);
}

#[test]
fn graph_buckets_words_by_first_letter() {
    let words = make_words(&["slow", "wacky", "yogis", "whisk"]);
    let g = graph(&words);
    assert_eq!(g.len(), 26);
    assert_eq!(g[('s' as usize) - ('a' as usize)], vec![0]);
    assert_eq!(g[('w' as usize) - ('a' as usize)], vec![1, 3]);
    assert_eq!(g[('y' as usize) - ('a' as usize)], vec![2]);
    assert_eq!(g[('b' as usize) - ('a' as usize)], Vec::<usize>::new());
}

#[test]
fn coverage_test_counts_distinct_letters() {
    // 12 distinct letters over two words: not covering with one, covering
    // with both.
    let words = make_words(&["slcwij", "agykon"]);
    assert!(!path_covers(&words, &vec![0]));
    assert!(!path_covers(&words, &vec![1]));
    assert!(path_covers(&words, &vec![0, 1]));
}

#[test]
fn search_finds_unique_three_word_chain() {
    // The only chaining sequence covering all 12 puzzle letters:
    // "slow" -> "wacky" -> "yoginj" (last letters chain into first letters).
    let words = make_words(&["slow", "wacky", "yoginj"]);
    let g = graph(&words);

    let found = shortest_path(&g, &words, 3);
    assert_eq!(found, Some(vec![0, 1, 2]));

    let all = shortest_paths(&g, &words, 3);
    assert_eq!(all, vec![vec![0, 1, 2]]);

    // The returned chain really chains and covers.
    let path = &all[0];
    for k in 0..path.len() - 1 {
        let last = words[path[k]].string.chars().last().unwrap();
        let first = words[path[k + 1]].string.chars().next().unwrap();
        assert_eq!(last, first);
    }
    assert!(path_covers(&words, path));
}

#[test]
fn search_respects_max_depth() {
    let words = make_words(&["slow", "wacky", "yoginj"]);
    let g = graph(&words);
    // The covering chain needs 3 words, so a depth bound of 2 finds nothing.
    assert_eq!(shortest_path(&g, &words, 2), None);
    assert!(shortest_paths(&g, &words, 2).is_empty());
}

#[test]
fn search_on_empty_word_set_finds_nothing() {
    let words: Vec<Word> = Vec::new();
    let g = graph(&words);
    for max_depth in [0, 1, 2, 5] {
        assert_eq!(shortest_path(&g, &words, max_depth), None);
        assert!(shortest_paths(&g, &words, max_depth).is_empty());
    }
}

#[test]
fn search_with_zero_depth_finds_nothing() {
    let words = make_words(&["slcwijagykon"]);
    let g = graph(&words);
    assert_eq!(shortest_path(&g, &words, 0), None);
    assert!(shortest_paths(&g, &words, 0).is_empty());
}

#[test]
fn search_depth_one_needs_a_single_covering_word() {
    // No single word covers the 12 letters.
    let words = make_words(&["slow", "wacky", "yoginj"]);
    let g = graph(&words);
    assert_eq!(shortest_path(&g, &words, 1), None);
    assert!(shortest_paths(&g, &words, 1).is_empty());

    // One word with all 12 letters covers alone.
    let words = make_words(&["slcwijagykon"]);
    let g = graph(&words);
    assert_eq!(shortest_path(&g, &words, 1), Some(vec![0]));
    assert_eq!(shortest_paths(&g, &words, 1), vec![vec![0]]);
}

#[test]
fn all_matches_share_the_minimal_length() {
    // Two single words each cover the alphabet; a two-word chain would too,
    // but only the minimal depth is reported.
    let words = make_words(&["slcwijagykons", "nokyagjiwcls"]);
    let g = graph(&words);
    let all = shortest_paths(&g, &words, 5);
    assert_eq!(all.len(), 2);
    for path in &all {
        assert_eq!(path.len(), 1);
        assert!(path_covers(&words, path));
    }
    let mut firsts: Vec<usize> = all.iter().map(|p| p[0]).collect();
    firsts.sort();
    assert_eq!(firsts, vec![0, 1]);
}

#[test]
fn all_matches_at_depth_two_returns_both_chains() {
    // Two disjoint two-word chains each cover the alphabet; no single word
    // does. Both are reported, at the same minimal depth.
    let words = make_words(&["slcwija", "agykon", "slcwijg", "gaykon"]);
    let g = graph(&words);
    let mut all = shortest_paths(&g, &words, 5);
    all.sort();
    assert_eq!(all, vec![vec![0, 1], vec![2, 3]]);
}

#[test]
fn excluded_word_never_appears_in_a_chain() {
    let p = puzzle_partition();
    // "oxen" uses 'x' and 'e', outside the partition: it is dropped before
    // the search ever sees it.
    let kept = side_filter(vec!["sing", "oxen"], &p);
    assert_eq!(kept, vec!["sing"]);
    let words: Vec<Word> = kept.iter().map(|t| Word::new(t.to_string())).collect();
    let g = graph(&words);
    let all = shortest_paths(&g, &words, 3);
    for path in &all {
        for &i in path {
            assert_ne!(words[i].string, "oxen");
        }
    }
}
