use trie::trie::Trie;

fn chars(s: &str) -> Vec<char> {
    s.chars().collect()
}

#[test]
fn trie_test_empty() {
    let trie = Trie::new();
    assert!(trie.is_empty());
    assert_eq!(trie.len(), 0);
}

#[test]
fn trie_test_insertion() {
    let mut trie = Trie::new();
    assert!(trie.insert(&chars("test")));

    assert!(trie.contains(&chars("test")));

    assert!(!trie.contains(&chars("tests")));
    assert!(!trie.contains(&chars("tes")));
    assert!(!trie.contains(&chars("te")));
    assert!(!trie.contains(&chars("t")));

    assert!(!trie.contains(&chars("other")));

    // Adding the word again should return false since it is already there.
    assert!(!trie.insert(&chars("test")));
}

#[test]
fn trie_test_len() {
    let mut trie = Trie::new();
    assert_eq!(trie.len(), 0);

    // Insertions:
    assert!(trie.insert(&chars("a")));
    assert_eq!(trie.len(), 1);

    assert!(!trie.insert(&chars("a")));
    assert_eq!(trie.len(), 1);

    assert!(trie.insert(&chars("b")));
    assert_eq!(trie.len(), 2);

    assert!(trie.insert(&chars("c")));
    assert_eq!(trie.len(), 3);

    assert!(!trie.insert(&chars("a")));
    assert_eq!(trie.len(), 3);

    // Deletions:
    assert!(trie.remove(&chars("a")));
    assert_eq!(trie.len(), 2);

    assert!(trie.remove(&chars("c")));
    assert_eq!(trie.len(), 1);

    assert!(trie.remove(&chars("b")));
    assert_eq!(trie.len(), 0);

    assert!(!trie.remove(&chars("a")));
    assert_eq!(trie.len(), 0);
}

#[test]
fn trie_test_deletion() {
    let mut trie = Trie::new();
    assert!(trie.insert(&chars("test")));
    assert!(trie.insert(&chars("testing")));
    assert!(trie.insert(&chars("tester")));
    assert!(trie.insert(&chars("tesla")));
    assert!(trie.insert(&chars("tech")));

    // Remove "test":
    assert!(trie.remove(&chars("test")));
    assert!(!trie.remove(&chars("test")));
    assert!(trie.contains(&chars("testing")));
    assert!(trie.contains(&chars("tester")));
    assert!(trie.contains(&chars("tesla")));
    assert!(trie.contains(&chars("tech")));

    // Remove "tester":
    assert!(trie.remove(&chars("tester")));
    assert!(!trie.contains(&chars("tester")));
    assert!(!trie.contains(&chars("test")));
    assert!(trie.contains(&chars("testing")));
    assert!(trie.contains(&chars("tesla")));
    assert!(trie.contains(&chars("tech")));

    // Remove "tech":
    assert!(trie.remove(&chars("tech")));
    assert!(!trie.contains(&chars("tech")));
    assert!(trie.contains(&chars("testing")));
    assert!(trie.contains(&chars("tesla")));

    // Remove "testing":
    assert!(trie.remove(&chars("testing")));
    assert!(!trie.contains(&chars("testing")));
    assert!(trie.contains(&chars("tesla")));

    // Remove "tesla":
    assert!(trie.remove(&chars("tesla")));
    assert!(!trie.contains(&chars("tesla")));
    assert!(trie.is_empty());
}

#[test]
fn trie_test_insertion_and_deletion() {
    let mut trie = Trie::new();
    assert!(trie.insert(&chars("test")));
    assert!(trie.insert(&chars("testing")));
    assert!(trie.insert(&chars("tester")));

    assert!(trie.contains(&chars("test")));

    assert!(trie.remove(&chars("test")));
    assert!(!trie.contains(&chars("test")));

    assert!(!trie.remove(&chars("test")));
    assert!(!trie.contains(&chars("test")));
    assert!(trie.contains(&chars("testing")));
    assert!(trie.contains(&chars("tester")));

    assert!(trie.insert(&chars("test")));
    assert!(trie.contains(&chars("test")));
    assert!(trie.contains(&chars("testing")));
    assert!(trie.contains(&chars("tester")));

    assert!(trie.remove(&chars("testing")));
    assert!(trie.contains(&chars("test")));
    assert!(!trie.contains(&chars("testing")));
    assert!(trie.contains(&chars("tester")));
}

#[test]
fn trie_test_iter() {
    let mut values = std::collections::HashSet::new();
    values.insert("test");
    values.insert("testing");
    values.insert("tester");
    values.insert("other");
    values.insert("hello world");

    let mut trie = Trie::new();
    for value in values.iter() {
        assert!(trie.insert(&chars(value)));
    }

    let mut it = trie.iter();
    while let Some(value) = it.next() {
        let value = String::from_iter(value.iter());
        assert!(values.remove(value.as_str()));
    }
}
