use ptrie::Trie;

#[test]
fn new_trie_is_is_empty() {
    assert!(Trie::<char, String>::new().is_empty());
}

#[test]
fn add_word_to_trie() {
    let mut t = Trie::new();
    t.insert("test".as_bytes(), String::from("test"));
    assert!(!t.is_empty());
}

#[test]
fn contains_key_test() {
    let mut t = Trie::new();
    let test = "test".as_bytes();
    let tes = "tes".as_bytes();
    let notintest = "notintest".as_bytes();

    t.insert(test, String::from("test"));
    assert!(!t.is_empty());
    assert!(t.contains_key(test));
    assert!(!t.contains_key(tes));
    assert!(!t.contains_key(notintest));
}

#[test]
fn contains_key_sub_path_test() {
    let mut t = Trie::new();
    let test = "test".as_bytes();
    let tes = "tes".as_bytes();
    let notintest = "notintest".as_bytes();

    t.insert(test, String::from("test"));
    t.insert(tes, String::from("tes"));
    assert!(!t.is_empty());
    assert!(t.contains_key(test));
    assert!(t.contains_key(tes));
    assert!(!t.contains_key(notintest));
}

#[test]
fn clear_test() {
    let mut t = Trie::new();
    let data = "test".as_bytes();

    t.insert(data, String::from("test"));
    assert!(!t.is_empty());
    assert!(t.contains_key(data));

    t.clear();
    assert!(t.is_empty());
    assert!(!t.contains_key(data));
}

#[test]
fn iterator() {
    let mut t = Trie::new();
    let test = "test".as_bytes();
    let tes = "tes".as_bytes();

    t.insert(test, String::from("test"));
    t.insert(tes, String::from("tes"));
    let mut it = t.iter();
    while let Some((k, v)) = it.next() {
        assert!(std::str::from_utf8(&k).unwrap().starts_with("tes"));
        assert!(v.starts_with("tes"));
    }
}
