use trie::str::StrTrie;

#[test]
fn mod_test_empty() {
    let trie = StrTrie::new();
    assert!(trie.is_empty());
    assert_eq!(trie.len(), 0);
}

#[test]
fn mod_test_insertion() {
    let mut trie = StrTrie::new();
    assert!(trie.insert("test"));

    assert!(trie.contains("test"));

    assert!(!trie.contains("tests"));
    assert!(!trie.contains("tes"));
    assert!(!trie.contains("te"));
    assert!(!trie.contains("t"));

    assert!(!trie.contains("other"));

    // Adding the word again should return false since it is already there.
    assert!(!trie.insert("test"));
}

#[test]
fn mod_test_len() {
    let mut trie = StrTrie::new();
    assert_eq!(trie.len(), 0);

    // Insertions:
    assert!(trie.insert("a"));
    assert_eq!(trie.len(), 1);

    assert!(!trie.insert("a"));
    assert_eq!(trie.len(), 1);

    assert!(trie.insert("b"));
    assert_eq!(trie.len(), 2);

    assert!(trie.insert("c"));
    assert_eq!(trie.len(), 3);

    assert!(!trie.insert("a"));
    assert_eq!(trie.len(), 3);

    // Deletions:
    assert!(trie.remove("a"));
    assert_eq!(trie.len(), 2);

    assert!(trie.remove("c"));
    assert_eq!(trie.len(), 1);

    assert!(trie.remove("b"));
    assert_eq!(trie.len(), 0);

    assert!(!trie.remove("a"));
    assert_eq!(trie.len(), 0);
}

#[test]
fn mod_test_deletion() {
    let mut trie = StrTrie::new();
    assert!(trie.insert("test"));
    assert!(trie.insert("testing"));
    assert!(trie.insert("tester"));
    assert!(trie.insert("tesla"));
    assert!(trie.insert("tech"));

    // Remove "test":
    assert!(trie.remove("test"));
    assert!(!trie.remove("test"));
    assert!(trie.contains("testing"));
    assert!(trie.contains("tester"));
    assert!(trie.contains("tesla"));
    assert!(trie.contains("tech"));

    // Remove "tester":
    assert!(trie.remove("tester"));
    assert!(!trie.contains("tester"));
    assert!(!trie.contains("test"));
    assert!(trie.contains("testing"));
    assert!(trie.contains("tesla"));
    assert!(trie.contains("tech"));

    // Remove "tech":
    assert!(trie.remove("tech"));
    assert!(!trie.contains("tech"));
    assert!(trie.contains("testing"));
    assert!(trie.contains("tesla"));

    // Remove "testing":
    assert!(trie.remove("testing"));
    assert!(!trie.contains("testing"));
    assert!(trie.contains("tesla"));

    // Remove "tesla":
    assert!(trie.remove("tesla"));
    assert!(!trie.contains("tesla"));
    assert!(trie.is_empty());
}

#[test]
fn mod_test_insertion_and_deletion() {
    let mut trie = StrTrie::new();
    assert!(trie.insert("test"));
    assert!(trie.insert("testing"));
    assert!(trie.insert("tester"));

    assert!(trie.contains("test"));

    assert!(trie.remove("test"));
    assert!(!trie.contains("test"));

    assert!(!trie.remove("test"));
    assert!(!trie.contains("test"));
    assert!(trie.contains("testing"));
    assert!(trie.contains("tester"));

    assert!(trie.insert("test"));
    assert!(trie.contains("test"));
    assert!(trie.contains("testing"));
    assert!(trie.contains("tester"));

    assert!(trie.remove("testing"));
    assert!(trie.contains("test"));
    assert!(!trie.contains("testing"));
    assert!(trie.contains("tester"));
}
