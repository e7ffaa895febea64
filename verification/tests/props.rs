use std::collections::HashSet;

use trie::node::TrieNode;
use trie::string::StringTrie;
use trie::trie::Trie;

fn chars(s: &str) -> Vec<char> {
    s.chars().collect()
}

#[test]
fn fresh_insertion_is_new_and_visible() {
    let mut trie = Trie::new();
    let words = ["alpha", "beta", "gamma", "alp", ""];
    for (i, w) in words.iter().enumerate() {
        assert!(!trie.contains(&chars(w)));
        assert!(trie.insert(&chars(w)));
        assert_eq!(trie.len(), i + 1);
        assert!(trie.contains(&chars(w)));
    }
}

#[test]
fn double_insertion_counts_once() {
    let mut trie = Trie::new();
    assert!(trie.insert(&chars("again")));
    assert!(!trie.insert(&chars("again")));
    assert_eq!(trie.len(), 1);
}

#[test]
fn removing_non_member_changes_nothing() {
    let mut trie = Trie::new();
    assert!(trie.insert(&chars("kept")));
    assert!(!trie.remove(&chars("missing")));
    assert!(!trie.remove(&chars("ke")));
    assert!(!trie.remove(&chars("kepts")));
    assert_eq!(trie.len(), 1);
    assert!(trie.contains(&chars("kept")));
}

#[test]
fn removing_member_keeps_others() {
    let mut trie = Trie::new();
    assert!(trie.insert(&chars("car")));
    assert!(trie.insert(&chars("cart")));
    assert!(trie.insert(&chars("carp")));
    assert!(trie.remove(&chars("cart")));
    assert_eq!(trie.len(), 2);
    assert!(!trie.contains(&chars("cart")));
    assert!(trie.contains(&chars("car")));
    assert!(trie.contains(&chars("carp")));
}

#[test]
fn removing_everything_empties_the_tree() {
    let mut trie = Trie::new();
    let words = ["a", "ab", "abc", "b", "bc"];
    for w in words.iter() {
        assert!(trie.insert(&chars(w)));
    }
    for w in words.iter() {
        assert!(trie.remove(&chars(w)));
    }
    assert!(trie.is_empty());
    assert_eq!(trie.len(), 0);
}

#[test]
fn iteration_yields_exactly_the_members() {
    let mut trie = Trie::new();
    let words = ["to", "tea", "ten", "in", "inn", "i"];
    for w in words.iter() {
        assert!(trie.insert(&chars(w)));
    }
    assert!(trie.remove(&chars("tea")));

    let mut expected: HashSet<String> = HashSet::new();
    for w in ["to", "ten", "in", "inn", "i"].iter() {
        expected.insert(w.to_string());
    }

    let mut seen: HashSet<String> = HashSet::new();
    let mut it = trie.iter();
    while let Some(v) = it.next() {
        let s = String::from_iter(v.iter());
        // no duplicates
        assert!(seen.insert(s));
    }
    assert_eq!(seen, expected);
}

#[test]
fn iteration_is_restartable() {
    let mut trie = Trie::new();
    assert!(trie.insert(&chars("one")));
    assert!(trie.insert(&chars("two")));

    let mut first: Vec<String> = Vec::new();
    let mut it = trie.iter();
    while let Some(v) = it.next() {
        first.push(String::from_iter(v.iter()));
    }
    assert!(it.next().is_none());

    let mut second: Vec<String> = Vec::new();
    let mut it = trie.iter();
    while let Some(v) = it.next() {
        second.push(String::from_iter(v.iter()));
    }
    assert_eq!(first, second);
    assert_eq!(first.len(), 2);
}

#[test]
fn empty_sequence_is_a_valid_member() {
    let mut trie = StringTrie::new();
    assert!(trie.insert(""));
    assert!(trie.contains(""));
    assert_eq!(trie.len(), 1);
    assert!(trie.remove(""));
    assert_eq!(trie.len(), 0);
    assert!(!trie.contains(""));
}

#[test]
fn clear_resets_length_and_members() {
    let mut trie = Trie::new();
    assert!(trie.insert(&chars("x")));
    assert!(trie.insert(&chars("xy")));
    trie.clear();
    assert!(trie.is_empty());
    assert_eq!(trie.len(), 0);
    assert!(!trie.contains(&chars("x")));
    assert!(trie.insert(&chars("x")));
    assert_eq!(trie.len(), 1);
}

#[test]
fn parts_round_trip_preserves_members_and_len() {
    let mut trie = Trie::new();
    let words = ["red", "green", "blue", "gre", ""];
    for w in words.iter() {
        assert!(trie.insert(&chars(w)));
    }

    let rebuilt = Trie::from_parts(trie.root().duplicate(), trie.len());
    let rebuilt = rebuilt.expect("the parts of a live trie are consistent");
    assert_eq!(rebuilt.len(), trie.len());
    for w in words.iter() {
        assert!(rebuilt.contains(&chars(w)));
    }
    for probe in ["r", "gree", "blues", "yellow"].iter() {
        assert!(!rebuilt.contains(&chars(probe)));
    }
}

#[test]
fn inconsistent_parts_are_rejected() {
    let mut trie = Trie::new();
    assert!(trie.insert(&chars("pair")));
    assert!(trie.insert(&chars("part")));

    // wrong count
    assert!(Trie::from_parts(trie.root().duplicate(), 3).is_none());
    // a dangling node: neither terminal nor branching
    let mut dangling = TrieNode::empty();
    dangling.children.push(('q', TrieNode::empty()));
    assert!(Trie::from_parts(dangling, 0).is_none());
    // duplicate keys within one node
    let mut doubled = TrieNode::empty();
    let mut leaf_a = TrieNode::empty();
    leaf_a.end_of_value = true;
    let mut leaf_b = TrieNode::empty();
    leaf_b.end_of_value = true;
    doubled.children.push(('d', leaf_a));
    doubled.children.push(('d', leaf_b));
    assert!(Trie::from_parts(doubled, 2).is_none());
    // the empty tree round-trips
    assert!(Trie::from_parts(TrieNode::empty(), 0).is_some());
}

#[test]
fn node_accessors_follow_the_tree() {
    let mut trie = Trie::new();
    assert!(trie.insert(&chars("on")));
    assert!(trie.insert(&chars("off")));

    let root = trie.root();
    assert_eq!(root.len(), 1);
    assert!(!root.is_empty());
    assert!(!root.is_end_of_word());

    let o = root.get(&'o').expect("both words start with 'o'");
    assert_eq!(o.len(), 2);
    assert!(o.get(&'n').expect("'on' is stored").is_end_of_word());
    assert!(o.get(&'x').is_none());

    assert_eq!(root.try_count(), Some(2));
    assert!(root.check_structure());

    let mut it = root.iter();
    let mut seen: HashSet<String> = HashSet::new();
    while let Some(v) = it.next() {
        assert!(seen.insert(String::from_iter(v.iter())));
    }
    assert_eq!(seen.len(), 2);
    assert!(seen.contains("on"));
    assert!(seen.contains("off"));
}

#[test]
fn string_trie_iter_recomposes_text() {
    let mut trie = StringTrie::new();
    assert!(trie.insert("hello world"));
    let mut it = trie.iter();
    let got = it.next().expect("one string is stored");
    assert_eq!(got, "hello world");
    assert!(it.next().is_none());
}
