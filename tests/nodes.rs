use ptrie::{Trie, TrieNode};

#[test]
fn node_insert_and_find() {
    let mut n: TrieNode<u8, u32> = TrieNode::new();
    assert!(!n.may_be_leaf());
    assert_eq!(n.get_value(), None);
    n.insert(&[3, 1, 2], 9);
    n.insert(&[3, 0], 4);
    assert_eq!(n.children.len(), 1);
    let three = n.find_node(&[3]).unwrap();
    assert_eq!(three.children.iter().map(|(k, _)| *k).collect::<Vec<u8>>(), vec![0, 1]);
    assert!(!three.may_be_leaf());
    let leaf = n.find_node(&[3, 1, 2]).unwrap();
    assert!(leaf.may_be_leaf());
    assert_eq!(leaf.get_value(), Some(&9));
    assert!(n.find_node(&[3, 2]).is_none());
    assert!(n.find_node(&[]).is_some());
}

#[test]
fn node_find_mut_and_set_value() {
    let mut n: TrieNode<u8, u32> = TrieNode::new();
    n.insert(&[1, 2], 3);
    n.find_node_mut(&[1]).unwrap().set_value(7);
    assert_eq!(n.find_node(&[1]).unwrap().get_value(), Some(&7));
    assert!(n.find_node_mut(&[9]).is_none());
}

#[test]
fn node_remove_subtree() {
    let mut n: TrieNode<u8, u32> = TrieNode::new();
    n.insert(&[1, 2], 3);
    n.insert(&[1, 3], 4);
    n.remove_subtree(&[1, 2]);
    assert!(n.find_node(&[1, 2]).is_none());
    assert_eq!(n.find_node(&[1, 3]).unwrap().get_value(), Some(&4));
    n.remove_subtree(&[1]);
    assert!(n.children.is_empty());
}

#[test]
fn from_root_checks_order() {
    let mut n: TrieNode<u8, u32> = TrieNode::new();
    n.insert(&[1], 10);
    n.insert(&[2], 20);
    let t = Trie::from_root(n).unwrap();
    assert_eq!(t.get(&[2]), Some(&20));
    let mut root = t.into_root();
    root.children.swap(0, 1);
    assert!(!root.is_well_formed());
    assert!(Trie::from_root(root).is_none());
}

#[test]
fn well_formed_rejects_equal_symbols_deep() {
    let mut n: TrieNode<u8, u32> = TrieNode::new();
    n.insert(&[5, 1], 1);
    n.insert(&[5, 3], 3);
    assert!(n.is_well_formed());
    n.children[0].1.children[1].0 = 1;
    assert!(!n.is_well_formed());
}

#[test]
fn default_is_empty() {
    let t: Trie<u8, u32> = Trie::default();
    assert!(t.is_empty());
    let n: TrieNode<u8, u32> = TrieNode::default();
    assert!(n.children.is_empty() && n.value.is_none());
}

#[test]
fn clone_is_deep_and_independent() {
    let mut t: Trie<u8, String> = Trie::new();
    t.insert(&[1, 2], String::from("a"));
    t.insert(&[1, 3], String::from("b"));
    let mut c = t.clone();
    assert_eq!(c.get(&[1, 2]), Some(&String::from("a")));
    c.insert(&[1, 2], String::from("z"));
    c.remove_subtree(&[1, 3]);
    assert_eq!(t.get(&[1, 2]), Some(&String::from("a")));
    assert_eq!(t.get(&[1, 3]), Some(&String::from("b")));
    assert_eq!(c.get(&[1, 2]), Some(&String::from("z")));
    assert_eq!(c.get(&[1, 3]), None);
}
