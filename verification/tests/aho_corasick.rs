use algolib::aho_corasick::AhoCorasick;
use algolib::trie::Trie;

#[test]
fn aho_corasick_test() {
    let mut trie = Trie::new();
    trie.insert_slice(b"abc");
    trie.insert_slice(b"ast");
    trie.insert_slice(b"bcd");

    let ac = AhoCorasick::from_trie(trie);
    assert_eq!(ac.transition(0, b'a'), Some(1));
    assert_eq!(ac.transition(1, b'b'), Some(2));
    assert_eq!(ac.suffix(2), Some(6));
}

#[test]
fn aho_depth_and_fallback() {
    let mut trie = Trie::new();
    trie.insert_slice(b"ab");
    trie.insert_slice(b"b");
    let ac = AhoCorasick::from_trie(trie);
    assert_eq!(ac.depth(0), 0);
    assert_eq!(ac.depth(1), 1);
    assert_eq!(ac.depth(2), 2);
    assert_eq!(ac.suffix(2), Some(3));
    assert_eq!(ac.transition(2, b'b'), ac.transition(3, b'b'));
    assert_eq!(ac.transition(0, b'z'), None);
}
