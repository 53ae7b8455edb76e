use kobold_front::trie::{Trie, TrieError};

fn alpha_az() -> Vec<char> {
    ('a'..='z').collect()
}

#[test]
fn test_trie() {
    let mut t: Trie<i32> = Trie::new(alpha_az());
    t.add_string("apple", 1);
    t.add_string("tree", 2i32);
    t.add_string("app", 3);
    t.add_string("turn", 4);
    t.add_string("y", 5);

    assert_eq!(t.search("apple").ok(), Some(1));
    assert_eq!(t.search("app").ok(), Some(3));
    assert_eq!(t.search("appl").err(), Some(TrieError::SubTrie));
    assert_eq!(t.search("turn").ok(), Some(4));
    assert_eq!(t.search("turns").err(), Some(TrieError::End));
    assert_eq!(t.search("x").err(), Some(TrieError::Null));
    assert_eq!(t.search("").err(), Some(TrieError::NoChar));
    assert_eq!(t.search("!").err(), Some(TrieError::NoHash));
    assert_eq!(t.search("y").ok(), Some(5));
    assert_eq!(t.search("tree").ok(), Some(2));
}

#[test]
fn prefix_after_longer_keeps_both() {
    let mut t: Trie<i32> = Trie::new(alpha_az());
    t.add_string("abc", 7);
    t.add_string("ab", 8);
    assert_eq!(t.search("abc").ok(), Some(7));
    assert_eq!(t.search("ab").ok(), Some(8));
}

#[test]
fn longer_after_prefix_keeps_both() {
    let mut t: Trie<i32> = Trie::new(alpha_az());
    t.add_string("ab", 8);
    t.add_string("abc", 7);
    assert_eq!(t.search("ab").ok(), Some(8));
    assert_eq!(t.search("abc").ok(), Some(7));
}

#[test]
fn reinsert_overwrites_terminal_and_keeps_children() {
    let mut t: Trie<i32> = Trie::new(alpha_az());
    t.add_string("ab", 1);
    t.add_string("a", 2);
    t.add_string("a", 9);
    assert_eq!(t.search("a").ok(), Some(9));
    assert_eq!(t.search("ab").ok(), Some(1));
    // Re-inserting an equal value is observably a no-op.
    t.add_string("ab", 1);
    assert_eq!(t.search("ab").ok(), Some(1));
}
