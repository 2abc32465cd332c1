use collections::trie::Trie;

#[test]
fn add_and_find() {
    let mut trie = Trie::default();
    assert_eq!(trie.add("a b c d e f g", "a b c d e f g"), None);
    assert_eq!(
        trie.add("a b c d e f g", "a b c d e f g"),
        Some("a b c d e f g")
    );
    assert_eq!(trie.find("a b c d e f g"), Some(&"a b c d e f g"));
    assert_eq!(trie.find(""), None);
    assert_eq!(trie.find("dfd"), None);
    assert_eq!(trie.add("", ""), None);
    assert_eq!(trie.find(""), None);
}

#[test]
fn trie_keys_that_share_a_beginning() {
    let mut trie = Trie::default();
    assert_eq!(trie.add("car", 1), None);
    assert_eq!(trie.add("cart", 2), None);
    assert_eq!(trie.add("cat", 3), None);
    assert_eq!(trie.add("c", 4), None);
    assert_eq!(trie.find("ca"), None);
    assert_eq!(trie.find("car"), Some(&1));
    assert_eq!(trie.find("cart"), Some(&2));
    assert_eq!(trie.find("cat"), Some(&3));
    assert_eq!(trie.find("c"), Some(&4));
    assert_eq!(trie.find("carts"), None);
    assert_eq!(trie.add("car", 5), Some(1));
    assert_eq!(trie.find("car"), Some(&5));
    assert_eq!(trie.find("cart"), Some(&2));
    assert_eq!(trie.add("grün", 6), None);
    assert_eq!(trie.find("grün"), Some(&6));
    assert_eq!(trie.find("gru"), None);
}
