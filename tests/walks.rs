use ptrie::{InsertVisitor, PrefixVisitor, Trie};

fn drain<V: Clone>(t: &Trie<u8, V>) -> Vec<(Vec<u8>, V)> {
    let mut out = Vec::new();
    let mut it = t.iter();
    while let Some((k, v)) = it.next() {
        out.push((k, v.clone()));
    }
    out
}

#[test]
fn iter_yields_every_entry_once() {
    let mut t = Trie::new();
    for (k, v) in [("a", 1u32), ("ab", 2), ("abc", 3), ("b", 4), ("ba", 5), ("", 6)] {
        t.insert(k.as_bytes(), v);
    }
    t.insert("ab".as_bytes(), 20);
    let mut got = drain(&t);
    got.sort();
    let want: Vec<(Vec<u8>, u32)> = vec![
        (b"".to_vec(), 6),
        (b"a".to_vec(), 1),
        (b"ab".to_vec(), 20),
        (b"abc".to_vec(), 3),
        (b"b".to_vec(), 4),
        (b"ba".to_vec(), 5),
    ];
    assert_eq!(got, want);
}

#[test]
fn iter_order_is_depth_first_from_last_child() {
    let mut t = Trie::new();
    t.insert("a".as_bytes(), 1u32);
    t.insert("ab".as_bytes(), 2);
    t.insert("b".as_bytes(), 3);
    let got: Vec<u32> = drain(&t).into_iter().map(|(_, v)| v).collect();
    assert_eq!(got, vec![3, 1, 2]);
}

#[test]
fn iter_on_empty_and_after_removal() {
    let mut t: Trie<u8, u32> = Trie::new();
    assert!(drain(&t).is_empty());
    t.insert("xy".as_bytes(), 1);
    t.insert("xz".as_bytes(), 2);
    t.remove_subtree("xy".as_bytes());
    assert_eq!(drain(&t), vec![(b"xz".to_vec(), 2)]);
}

struct Recorder {
    seen: Vec<(usize, Option<u32>)>,
}

impl PrefixVisitor<u32> for Recorder {
    fn visit(&mut self, position: usize, value: &mut Option<u32>) {
        self.seen.push((position, *value));
        if let Some(v) = value {
            *v += 100;
        }
    }
}

#[test]
fn iter_prefixes_visits_valued_nodes_and_stop() {
    let mut t = Trie::new();
    t.insert("a".as_bytes(), 1u32);
    t.insert("abc".as_bytes(), 3);
    t.insert("abd".as_bytes(), 4);
    let mut r = Recorder { seen: Vec::new() };
    t.iter_prefixes("abx".as_bytes(), &mut r);
    assert_eq!(r.seen, vec![(0, Some(1)), (2, None)]);
    assert_eq!(t.get("a".as_bytes()), Some(&101));
    assert_eq!(t.get("abc".as_bytes()), Some(&3));

    let mut r = Recorder { seen: Vec::new() };
    t.iter_prefixes("abc".as_bytes(), &mut r);
    assert_eq!(r.seen, vec![(0, Some(101)), (2, Some(3))]);
    assert_eq!(t.get("abc".as_bytes()), Some(&103));

    let mut r = Recorder { seen: Vec::new() };
    t.iter_prefixes("z".as_bytes(), &mut r);
    assert_eq!(r.seen, vec![(0, None)]);
}

struct Counter {
    positions: Vec<Option<usize>>,
    key_len: usize,
}

impl InsertVisitor<u32> for Counter {
    fn visit(&mut self, position: Option<usize>, value: &mut Option<u32>) {
        self.positions.push(position);
        let depth = position.map(|p| p + 1).unwrap_or(0);
        if depth == self.key_len {
            *value = Some(value.unwrap_or(0) + 1);
        }
    }
}

#[test]
fn insert_with_visits_root_then_each_symbol() {
    let mut t = Trie::new();
    t.insert("ab".as_bytes(), 7u32);
    let mut c = Counter { positions: Vec::new(), key_len: 3 };
    t.insert_with("abc".as_bytes(), &mut c);
    assert_eq!(c.positions, vec![None, Some(0), Some(1), Some(2)]);
    assert_eq!(t.get("abc".as_bytes()), Some(&1));
    assert_eq!(t.get("ab".as_bytes()), Some(&7));
    let mut c = Counter { positions: Vec::new(), key_len: 3 };
    t.insert_with("abc".as_bytes(), &mut c);
    assert_eq!(t.get("abc".as_bytes()), Some(&2));
    assert_eq!(t.find_postfixes("".as_bytes()), vec![&7, &2]);
}
