use anagram_solver::{AnagramSolver, Trie, WordSet};

#[test]
fn test_trie_add_contains() {
    let mut trie: Trie = Trie::new();

    trie.insert("item");
    trie.insert("meti");

    assert_eq!(trie.size(), 2);
    assert_eq!(trie.contains("item"), true);
    assert_eq!(trie.contains("meti"), true);
    assert_eq!(trie.contains("item2"), false);
}

#[test]
fn test_trie_delete() {
    let mut trie: Trie = Trie::new();

    trie.insert("item");
    trie.insert("meti");

    assert_eq!(trie.size(), 2);

    trie.delete("item");

    assert_eq!(trie.size(), 1);
}

#[test]
fn test_trie_delete_word_does_not_exist() {
    let mut trie: Trie = Trie::new();

    trie.insert("item");
    trie.insert("meti");

    trie.delete("word");

    assert_eq!(trie.size(), 2);
}

#[test]
fn test_trie_find_anagrams() {
    let mut trie: Trie = Trie::new();

    trie.insert("anagram");
    trie.insert("one");
    trie.insert("two");
    trie.insert("ten");

    let anagrams = trie.find_all_anagrams("otwen");

    assert_eq!(anagrams.len(), 3);
    assert_eq!(anagrams.contains("one"), true);
    assert_eq!(anagrams.contains("two"), true);
    assert_eq!(anagrams.contains("ten"), true);
    assert_eq!(anagrams.contains("anagram"), false);

    let anagrams = trie.find_all_anagrams("");

    assert_eq!(anagrams.len(), 0);
}

#[test]
fn round_trip_each_word() {
    for w in ["a", "item", "been", "été", "x y"] {
        let mut trie = Trie::new();
        trie.insert(w);
        assert!(trie.contains(w));
        trie.delete(w);
        assert!(!trie.contains(w));
        assert_eq!(trie.size(), 0);
    }
}

#[test]
fn empty_word_is_always_reported() {
    let mut trie = Trie::new();
    assert!(trie.contains(""));
    trie.insert("");
    assert_eq!(trie.size(), 1);
    assert_eq!(trie.find_all_anagrams("").len(), 1);
    assert!(trie.find_all_anagrams("xyz").contains(""));
    trie.delete("");
    assert_eq!(trie.size(), 0);
    assert!(trie.contains(""));
    assert_eq!(trie.find_all_anagrams("").len(), 0);
}

#[test]
fn size_counts_distinct_words() {
    let mut trie = Trie::new();
    for w in ["one", "two", "three", "on", "o"] {
        trie.insert(w);
    }
    assert_eq!(trie.size(), 5);
    trie.insert("two");
    assert_eq!(trie.size(), 5);
    trie.delete("tw");
    assert_eq!(trie.size(), 5);
    trie.delete("absent");
    assert_eq!(trie.size(), 5);
}

#[test]
fn shared_prefix_survives_delete() {
    let mut trie = Trie::new();
    trie.insert("item");
    trie.insert("meti");
    trie.delete("item");
    assert!(trie.contains("meti"));
    assert!(!trie.contains("item"));
    assert!(!trie.contains("ite"));
}

#[test]
fn delete_keeps_words_along_the_path() {
    let mut trie = Trie::new();
    trie.insert("it");
    trie.insert("item");
    trie.insert("items");
    trie.delete("item");
    assert!(trie.contains("it"));
    assert!(trie.contains("items"));
    assert!(!trie.contains("item"));
    trie.delete("it");
    assert!(trie.contains("items"));
    assert_eq!(trie.size(), 1);
    trie.delete("items");
    assert_eq!(trie.size(), 0);
    assert!(!trie.contains("i"));
    trie.insert("item");
    assert!(trie.contains("item"));
    assert!(!trie.contains("items"));
}

#[test]
fn delete_of_a_prefix_that_is_no_word_changes_nothing() {
    let mut trie = Trie::new();
    trie.insert("item");
    trie.delete("ite");
    assert_eq!(trie.size(), 1);
    assert!(trie.contains("item"));
}

#[test]
fn query_respects_character_counts() {
    let mut trie = Trie::new();
    for w in ["a", "aa", "aaa", "ab", "ba", "b", "bb"] {
        trie.insert(w);
    }
    let found = trie.find_all_anagrams("aab");
    assert_eq!(found.len(), 5);
    for w in ["a", "aa", "ab", "ba", "b"] {
        assert!(found.contains(w));
    }
    assert!(!found.contains("aaa"));
    assert!(!found.contains("bb"));
}

#[test]
fn repeated_query_gives_same_words() {
    let mut trie = Trie::new();
    for w in ["one", "two", "ten", "net", "toe"] {
        trie.insert(w);
    }
    let first = trie.find_all_anagrams("otwen");
    let second = trie.find_all_anagrams("otwen");
    assert_eq!(first.len(), second.len());
    for w in first.as_slice() {
        assert!(second.contains(w));
    }
}

#[test]
fn results_are_stored_words() {
    let mut trie = Trie::new();
    for w in ["stop", "pots", "tops", "spot", "post", "opt", "so"] {
        trie.insert(w);
    }
    let found = trie.find_all_anagrams("tops");
    assert_eq!(found.len(), 7);
    for w in found.as_slice() {
        assert!(trie.contains(w));
    }
}

#[test]
fn newline_in_query_is_a_character() {
    let mut trie = Trie::new();
    trie.insert("one");
    let found = trie.find_all_anagrams("one\n");
    assert!(found.contains("one"));
    assert_eq!(found.len(), 1);
}

#[test]
fn plain_set_agrees_with_tree() {
    let dictionary: Vec<String> = ["anagram", "one", "two", "ten", "net", "o", ""]
        .iter()
        .map(|w| w.to_string())
        .collect();
    let mut trie = Trie::new();
    trie.add_dictionary(&dictionary);
    let mut set = WordSet::new();
    set.add_dictionary(&dictionary);
    assert_eq!(set.len(), 7);
    for query in ["otwen", "", "oo", "nagaram", "tent"] {
        let a = trie.find_all_anagrams(query);
        let b = set.find_all_anagrams(query);
        assert_eq!(a.len(), b.len());
        for w in a.as_slice() {
            assert!(b.contains(w));
        }
    }
    let found = set.find_all_anagrams("otwen");
    assert_eq!(found.len(), 6);
    assert!(found.contains(""));
    assert!(found.contains("net"));
}
