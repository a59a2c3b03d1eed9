use ptrie::{Trie, TrieError};

#[test]
fn get_after_insert_returns_value() {
    let mut t = Trie::new();
    t.insert("key".as_bytes(), 7u32);
    t.insert("keys".as_bytes(), 8u32);
    assert_eq!(t.get("key".as_bytes()), Some(&7));
    assert_eq!(t.get("keys".as_bytes()), Some(&8));
    assert_eq!(t.get("ke".as_bytes()), None);
    assert_eq!(t.get("other".as_bytes()), None);
    assert!(t.contains_key("key".as_bytes()));
}

#[test]
fn insert_twice_keeps_latest() {
    let mut t = Trie::new();
    t.insert("abc".as_bytes(), 1u32);
    t.insert("abc".as_bytes(), 2u32);
    assert_eq!(t.get("abc".as_bytes()), Some(&2));
    assert_eq!(t.find_postfixes("".as_bytes()), vec![&2]);
    assert_eq!(t.find_prefixes("abc".as_bytes()), vec![(2, &2)]);
}

#[test]
fn children_sorted_whatever_insertion_order() {
    let mut t = Trie::new();
    t.insert("c".as_bytes(), 'c');
    t.insert("a".as_bytes(), 'a');
    t.insert("d".as_bytes(), 'd');
    t.insert("b".as_bytes(), 'b');
    assert_eq!(t.find_postfixes("".as_bytes()), vec![&'a', &'b', &'c', &'d']);
}

#[test]
fn find_prefixes_shortest_first() {
    let mut trie = Trie::new();
    trie.insert("abc".as_bytes(), "A");
    trie.insert("abcd".as_bytes(), "B");
    trie.insert("abcde".as_bytes(), "C");
    let values: Vec<&&str> = trie.find_prefixes("abcd".as_bytes()).into_iter().map(|(_, v)| v).collect();
    assert_eq!(values, vec![&"A", &"B"]);
    assert_eq!(trie.find_prefixes("abcd".as_bytes()), vec![(2, &"A"), (3, &"B")]);
    assert!(trie.find_prefixes("abz".as_bytes()).is_empty());
    assert!(trie.find_prefixes("efghij".as_bytes()).is_empty());
}

#[test]
fn find_longest_prefix_picks_longest() {
    let mut trie = Trie::new();
    assert_eq!(trie.find_longest_prefix("http://x/DOID_1234".as_bytes()), None);
    trie.insert("http://x/DOID_".as_bytes(), "doid");
    trie.insert("http://x/".as_bytes(), "obo");
    assert_eq!(trie.find_longest_prefix("http://x/DOID_1234".as_bytes()), Some(&"doid"));
    assert_eq!(trie.find_longest_prefix("http://x/1234".as_bytes()), Some(&"obo"));
    assert_eq!(trie.find_longest_prefix("notthere".as_bytes()), None);
    assert_eq!(trie.find_longest_prefix("httno".as_bytes()), None);
}

#[test]
fn find_postfixes_preorder() {
    let mut trie = Trie::new();
    trie.insert("app".as_bytes(), "App");
    trie.insert("apple".as_bytes(), "Apple");
    trie.insert("applet".as_bytes(), "Applet");
    trie.insert("apricot".as_bytes(), "Apricot");
    assert_eq!(trie.find_postfixes("app".as_bytes()), vec![&"App", &"Apple", &"Applet"]);
    assert!(trie.find_postfixes("bpp".as_bytes()).is_empty());
    assert!(trie.find_postfixes("apzz".as_bytes()).is_empty());
    assert_eq!(trie.find_postfixes("ap".as_bytes()), vec![&"App", &"Apple", &"Applet", &"Apricot"]);
}

#[test]
fn empty_then_insert_then_clear() {
    let mut t = Trie::new();
    assert!(t.is_empty());
    t.insert("x".as_bytes(), 1u8);
    assert!(!t.is_empty());
    t.clear();
    assert!(t.is_empty());
    assert!(!t.contains_key("x".as_bytes()));
    assert_eq!(t.get("x".as_bytes()), None);
}

#[test]
fn branching_without_values_is_not_empty() {
    let mut t = Trie::new();
    t.insert("ab".as_bytes(), 1u8);
    t.remove_subtree("ab".as_bytes());
    assert!(!t.contains_key("ab".as_bytes()));
    assert!(!t.contains_key("a".as_bytes()));
    assert!(!t.is_empty());
}

#[test]
fn remove_subtree_removes_extensions_only() {
    let mut t = Trie::new();
    t.insert("te".as_bytes(), 1u8);
    t.insert("tea".as_bytes(), 2u8);
    t.insert("team".as_bytes(), 3u8);
    t.insert("ten".as_bytes(), 4u8);
    t.remove_subtree("tea".as_bytes());
    assert!(!t.contains_key("tea".as_bytes()));
    assert!(!t.contains_key("team".as_bytes()));
    assert!(t.contains_key("te".as_bytes()));
    assert!(t.contains_key("ten".as_bytes()));
    assert_eq!(t.get("ten".as_bytes()), Some(&4));
}

#[test]
fn remove_missing_key_changes_nothing() {
    let mut t = Trie::new();
    t.insert("abc".as_bytes(), 1u8);
    t.remove_subtree("abd".as_bytes());
    t.remove_subtree("".as_bytes());
    t.remove_subtree("zzz".as_bytes());
    assert_eq!(t.get("abc".as_bytes()), Some(&1));
    assert_eq!(t.find_postfixes("".as_bytes()), vec![&1]);
}

#[test]
fn set_value_on_existing_node() {
    let mut t = Trie::new();
    let data = "test".as_bytes();
    t.insert(data, 42u32);
    assert_eq!(t.get(data), Some(&42));
    assert!(t.set_value(data, 43).is_ok());
    assert_eq!(t.get(data), Some(&43));
    assert!(t.set_value("tes".as_bytes(), 5).is_ok());
    assert_eq!(t.get("tes".as_bytes()), Some(&5));
}

#[test]
fn set_value_on_missing_key_fails() {
    let mut t = Trie::new();
    t.insert("test".as_bytes(), 42u32);
    let r = t.set_value("notintest".as_bytes(), 39);
    match r {
        Err(TrieError::NotFound(msg)) => assert!(msg.starts_with("Key not found")),
        Ok(()) => panic!("expected an error"),
    }
    let e = t.set_value("testing".as_bytes(), 1).unwrap_err();
    assert!(e.message().starts_with("Key not found"));
    assert_eq!(t.get("test".as_bytes()), Some(&42));
    assert_eq!(t.get("testing".as_bytes()), None);
}

#[test]
fn get_mut_changes_value_in_place() {
    let mut t = Trie::new();
    t.insert("abc".as_bytes(), 10u32);
    t.insert("abcd".as_bytes(), 20u32);
    match t.get_mut("abc".as_bytes()) {
        Some(v) => *v = 11,
        None => panic!("expected a value"),
    }
    assert_eq!(t.get("abc".as_bytes()), Some(&11));
    assert!(t.get_mut("ab".as_bytes()).is_none());
    assert!(t.get_mut("x".as_bytes()).is_none());
}

#[test]
fn char_keys() {
    let mut t: Trie<char, u32> = Trie::new();
    let k: Vec<char> = "héllo".chars().collect();
    t.insert(&k, 5);
    assert!(t.contains_key(&k));
    assert_eq!(t.get(&k[..2]), None);
    assert_eq!(t.find_longest_prefix(&['h', 'é', 'l', 'l', 'o', '!']), Some(&5));
}

#[test]
fn empty_key_on_childless_root() {
    let mut t = Trie::new();
    t.insert("".as_bytes(), 9u32);
    assert_eq!(t.get("".as_bytes()), Some(&9));
    assert!(t.is_empty());
    assert!(!t.contains_key("".as_bytes()));
    t.insert("a".as_bytes(), 1u32);
    assert!(t.contains_key("".as_bytes()));
    assert_eq!(t.find_prefixes("a".as_bytes()), vec![(0, &1)]);
    assert_eq!(t.find_longest_prefix("b".as_bytes()), None);
}
