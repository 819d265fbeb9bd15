use algolib::trie::Trie;

#[test]
fn trie() {
    let mut trie = Trie::new();
    assert_eq!(trie.count_node(), 1);

    assert_eq!(trie.insert_slice(b"abc"), (true, 3));
    assert_eq!(trie.insert_slice(b"axz"), (true, 5));
    assert_eq!(trie.insert_slice(b"aba"), (true, 6));
    assert_eq!(trie.insert_slice(b"aba"), (false, 6));

    let links = trie.links(1);
    assert_eq!(links.len(), 2);
    assert_eq!(links[0], (b'b', 2));
    assert_eq!(links[1], (b'x', 4));
}

#[test]
fn trie_transition() {
    let mut trie = Trie::new();
    trie.insert_slice(b"hi");
    assert_eq!(trie.transition(0, b'h'), Some(1));
    assert_eq!(trie.transition(1, b'i'), Some(2));
    assert_eq!(trie.transition(0, b'x'), None);
    let v = vec![b'h', b'o'];
    assert_eq!(trie.insert(&v), (true, 3));
    assert_eq!(trie.transition(1, b'o'), Some(3));
}
