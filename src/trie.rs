//! The prefix tree: a map from keys, sequences of symbols, to values, with
//! queries on the keys that are prefixes of a key and on those that extend it.
use crate::error::TrieError;
use crate::node_lemmas::{
    lemma_child_at, lemma_childless, lemma_clone_same_paths, lemma_missing_below,
    lemma_node_at_push, lemma_node_at_wf, lemma_prefix_closed, lemma_replaced_value,
};
use crate::symbol::Symbol;
use crate::trie_node::{
    agree_outside, derefs, extensions, is_clone_of, is_prefix, prefixes, unref, InsertVisitor,
    PrefixVisitor, TrieNode,
};
use vstd::prelude::*;

verus! {

broadcast use vstd::std_specs::vec::group_vec_axioms;

/// A prefix tree. Its root node is always present; the empty tree is the
/// one whose root has no children.
#[derive(Debug)]
pub struct Trie<K: Symbol, V> {
    root: TrieNode<K, V>,
}

/// The values stored under the first `n` non-empty prefixes of `k`, shortest
/// first, each with the index of the last symbol of its prefix.
pub open spec fn prefix_matches<K, V>(m: Map<Seq<K>, V>, k: Seq<K>, n: int) -> Seq<(int, V)>
    decreases n,
{
    if n <= 0 {
        Seq::empty()
    } else if m.contains_key(k.take(n)) {
        prefix_matches(m, k, n - 1).push((n - 1, m[k.take(n)]))
    } else {
        prefix_matches(m, k, n - 1)
    }
}

/// The value stored under the longest non-empty prefix of `k` of at most
/// `n` symbols that is a key of `m`.
pub open spec fn longest_match<K, V>(m: Map<Seq<K>, V>, k: Seq<K>, n: int) -> Option<V>
    decreases n,
{
    if n <= 0 {
        None
    } else if m.contains_key(k.take(n)) {
        Some(m[k.take(n)])
    } else {
        longest_match(m, k, n - 1)
    }
}

/// The prefix matches are the same over any length past the first missing node.
proof fn lemma_matches_stop<K: Symbol, V>(t: TrieNode<K, V>, k: Seq<K>, i: int, j: int)
    requires
        0 <= i <= j <= k.len(),
        t.node_at(k.take(i)) is None,
    ensures
        prefix_matches(t@, k, j) == prefix_matches(t@, k, i - 1),
        longest_match(t@, k, j) == longest_match(t@, k, i - 1),
    decreases j - i,
{
    if j >= i {
        lemma_missing_below(t, k, i, j);
        if j > i {
            lemma_matches_stop(t, k, i, j - 1);
        }
    }
}

impl<K: Symbol, V> Trie<K, V> {
    /// The root node.
    pub closed spec fn tree(self) -> TrieNode<K, V> {
        self.root
    }

    /// Every node has its children sorted by symbol.
    pub open spec fn wf(self) -> bool {
        self.tree().wf()
    }

    /// The stored keys with their values.
    pub open spec fn view(self) -> Map<Seq<K>, V> {
        self.tree()@
    }

    /// The paths of all nodes, the empty path of the root included.
    pub open spec fn paths(self) -> Set<Seq<K>> {
        self.tree().paths()
    }

    /// What `contains_key` answers for `k`.
    pub open spec fn reports_key(self, k: Seq<K>) -> bool {
        self.tree().children@.len() > 0 && self@.contains_key(k)
    }

    /// Creates an empty tree.
    pub fn new() -> (r: Self)
        ensures
            r.wf(),
            r@ == Map::<Seq<K>, V>::empty(),
            r.paths() == set![Seq::<K>::empty()],
            r.tree().children@.len() == 0,
    {
        let r = Trie { root: TrieNode::new() };
        proof {
            assert forall|p: Seq<K>| #[trigger] r.paths().contains(p) <==> p == Seq::<K>::empty() by {
                lemma_childless(r.root, p);
                if p.len() == 0 {
                    assert(p =~= Seq::<K>::empty());
                }
            }
            assert(r.paths() =~= set![Seq::<K>::empty()]);
            assert forall|p: Seq<K>| !(#[trigger] r@.contains_key(p)) by {
                lemma_childless(r.root, p);
            }
            assert(r@ =~= Map::<Seq<K>, V>::empty());
        }
        r
    }

    /// The tree with root `root`, where every node of it has its children
    /// sorted by symbol; `None` otherwise.
    pub fn from_root(root: TrieNode<K, V>) -> (r: Option<Self>)
        ensures
            r is Some <==> root.wf(),
            r is Some ==> r.unwrap().tree() == root,
    {
        if root.is_well_formed() {
            Some(Trie { root })
        } else {
            None
        }
    }

    /// The root node.
    pub fn root(&self) -> (r: &TrieNode<K, V>)
        ensures
            *r == self.tree(),
    {
        &self.root
    }

    /// The root node, which owns the whole tree.
    pub fn into_root(self) -> (r: TrieNode<K, V>)
        ensures
            r == self.tree(),
    {
        self.root
    }

    /// Whether the root has no children.
    pub fn is_empty(&self) -> (r: bool)
        ensures
            r == (self.tree().children@.len() == 0),
    {
        self.root.children.len() == 0
    }

    /// Drops every node and value: the tree becomes empty.
    pub fn clear(&mut self)
        ensures
            final(self).wf(),
            final(self)@ == Map::<Seq<K>, V>::empty(),
            final(self).paths() == set![Seq::<K>::empty()],
            final(self).tree().children@.len() == 0,
    {
        *self = Trie::new();
    }

    /// Stores `value` under `key`, replacing the value stored there before.
    pub fn insert(&mut self, key: &[K], value: V)
        requires
            old(self).wf(),
        ensures
            final(self).wf(),
            final(self)@ == old(self)@.insert(key@, value),
            final(self).paths() == old(self).paths().union(prefixes(key@)),
    {
        self.root.insert(key, value);
    }

    /// Removes the node reached by `key` together with every key below it.
    /// The empty key, and a key that reaches no node, change nothing.
    pub fn remove_subtree(&mut self, key: &[K])
        requires
            old(self).wf(),
        ensures
            final(self).wf(),
            key@.len() == 0 ==> *final(self) == *old(self),
            key@.len() > 0 ==> final(self)@ == old(self)@.remove_keys(extensions(key@)),
            key@.len() > 0 ==> final(self).paths() == old(self).paths().difference(extensions(key@)),
    {
        self.root.remove_subtree(key);
    }

    /// Stores `value` under `key`, where `key` reaches a node; creates no
    /// node. Fails with `NotFound`, changing nothing, where it reaches none.
    pub fn set_value(&mut self, key: &[K], value: V) -> (r: Result<(), TrieError>)
        requires
            old(self).wf(),
        ensures
            r is Ok <==> old(self).paths().contains(key@),
            r is Ok ==> final(self).wf() && final(self)@ == old(self)@.insert(key@, value)
                && final(self).paths() == old(self).paths(),
            r is Err ==> *final(self) == *old(self) && r->Err_0 is NotFound,
    {
        let ghost t0 = self.root;
        match self.find_node_mut(key) {
            Some(node) => {
                node.set_value(value);
                proof {
                    lemma_replaced_value(t0, self.root, key@, *node);
                }
                Ok(())
            },
            None => Err(TrieError::NotFound(String::from_str("Key not found"))),
        }
    }

    /// The value stored under `key`, to be changed in place.
    pub fn get_mut(&mut self, key: &[K]) -> (r: Option<&mut V>)
        requires
            old(self).wf(),
        ensures
            r is Some <==> old(self)@.contains_key(key@),
            r is Some ==> *r.unwrap() == old(self)@[key@] && final(self).wf()
                && final(self)@ == old(self)@.insert(key@, *final(r.unwrap()))
                && final(self).paths() == old(self).paths(),
            r is None ==> *final(self) == *old(self),
    {
        match self.find_node(key) {
            Some(node) => {
                if node.value.is_none() {
                    return None;
                }
            },
            None => {
                return None;
            },
        }
        let ghost t0 = self.root;
        let node = self.find_node_mut(key).unwrap();
        proof {
            broadcast use crate::node_lemmas::lemma_replaced_value_auto;
        }
        node.value.as_mut()
    }

    /// The node reached by `key`.
    fn find_node(&self, key: &[K]) -> (r: Option<&TrieNode<K, V>>)
        requires
            self.wf(),
        ensures
            unref(r) == self.tree().node_at(key@),
    {
        self.root.find_node(key)
    }

    /// The node reached by `key`, to be changed in place.
    fn find_node_mut(&mut self, key: &[K]) -> (r: Option<&mut TrieNode<K, V>>)
        requires
            old(self).wf(),
        ensures
            r is Some <==> old(self).tree().node_at(key@) is Some,
            r is Some ==> old(self).tree().node_at(key@) == Some(*r.unwrap())
                && old(self).tree().replaced_at(final(self).tree(), key@, *final(r.unwrap())),
            r is None ==> *final(self) == *old(self),
    {
        self.root.find_node_mut(key)
    }

    /// Creates the nodes on the path of `key` that are missing, handing to
    /// `visitor` the value slot of each node on that path: the root first,
    /// with position `None`, then each node with the index of the symbol
    /// that leads to it. Entries off that path stay as they were.
    pub fn insert_with<F: InsertVisitor<V>>(&mut self, key: &[K], visitor: &mut F)
        requires
            old(self).wf(),
        ensures
            final(self).wf(),
            final(self).paths() == old(self).paths().union(prefixes(key@)),
            agree_outside(final(self)@, old(self)@, prefixes(key@)),
    {
        self.root.insert_with(key, visitor);
    }

    /// The value stored under `key`.
    pub fn get(&self, key: &[K]) -> (r: Option<&V>)
        requires
            self.wf(),
        ensures
            unref(r) == if self@.contains_key(key@) { Some(self@[key@]) } else { None },
    {
        match self.find_node(key) {
            Some(node) => {
                proof {
                    assert(self@.contains_key(key@) == (node.value is Some));
                }
                node.value.as_ref()
            },
            None => None,
        }
    }

    /// Whether a value is stored under `key`. A tree whose root has no
    /// children answers `false` at once, for the empty key too.
    pub fn contains_key(&self, key: &[K]) -> (r: bool)
        requires
            self.wf(),
        ensures
            r == self.reports_key(key@),
    {
        if self.is_empty() {
            proof {
                if key@.len() > 0 {
                    assert(self.root.child(key@[0]) is None);
                }
            }
            return false;
        }
        match self.find_node(key) {
            Some(node) => node.value.is_some(),
            None => false,
        }
    }

    /// The values stored under the non-empty prefixes of `key`, shortest
    /// first, each with the index of the last symbol of its prefix.
    pub fn find_prefixes(&self, key: &[K]) -> (r: Vec<(usize, &V)>)
        requires
            self.wf(),
        ensures
            r@.len() == prefix_matches(self@, key@, key@.len() as int).len(),
            forall|i: int| 0 <= i < r@.len() ==>
                (#[trigger] r@[i]).0 as int == prefix_matches(self@, key@, key@.len() as int)[i].0
                && *r@[i].1 == prefix_matches(self@, key@, key@.len() as int)[i].1,
    {
        let ghost t = self.root;
        let mut node = &self.root;
        let mut found: Vec<(usize, &V)> = Vec::new();
        let mut i: usize = 0;
        proof {
            assert(key@.take(0) =~= Seq::<K>::empty());
        }
        while i < key.len()
            invariant
                t == self.tree(),
                t.wf(),
                node.wf(),
                i <= key@.len(),
                t.node_at(key@.take(i as int)) == Some(*node),
                found@.len() == prefix_matches(t@, key@, i as int).len(),
                forall|j: int| 0 <= j < found@.len() ==>
                    (#[trigger] found@[j]).0 as int == prefix_matches(t@, key@, i as int)[j].0
                    && *found@[j].1 == prefix_matches(t@, key@, i as int)[j].1,
            decreases key@.len() - i,
        {
            proof {
                assert(key@.take(i + 1) =~= key@.take(i as int).push(key@[i as int]));
                lemma_node_at_push(t, key@.take(i as int), key@[i as int]);
            }
            match node.search(&key[i]) {
                Ok(ix) => {
                    proof {
                        lemma_child_at(*node, ix as int);
                    }
                    let next = &node.children[ix].1;
                    match &next.value {
                        Some(v) => {
                            found.push((i, v));
                        },
                        None => {},
                    }
                    node = next;
                    i = i + 1;
                },
                Err(_) => {
                    proof {
                        lemma_matches_stop(t, key@, i + 1, key@.len() as int);
                    }
                    return found;
                },
            }
        }
        found
    }

    /// Appends the values of the subtree of `node` to `values`, in pre-order.
    fn collect_values<'a>(&self, node: &'a TrieNode<K, V>, values: &mut Vec<&'a V>)
        ensures
            derefs(final(values)@) == derefs(old(values)@) + node.preorder(),
        decreases node,
    {
        match &node.value {
            Some(v) => values.push(v),
            None => {},
        }
        proof {
            assert(derefs(values@) =~= derefs(old(values)@) + node.preorder_upto(0));
        }
        let mut i: usize = 0;
        while i < node.children.len()
            invariant
                i <= node.children@.len(),
                derefs(values@) == derefs(old(values)@) + node.preorder_upto(i as int),
            decreases node.children@.len() - i,
        {
            let ghost before = values@;
            let child = &node.children[i].1;
            proof {
                assert(decreases_to!(node => node.children@[i as int].1));
            }
            self.collect_values(child, values);
            proof {
                assert(derefs(values@) =~= derefs(old(values)@) + node.preorder_upto(i + 1));
            }
            i = i + 1;
        }
        proof {
            assert(node.preorder() == node.preorder_upto(node.children@.len() as int));
        }
    }

    /// The values stored under `prefix` and under every key that extends it,
    /// in pre-order; empty where no node is reached by `prefix`.
    pub fn find_postfixes(&self, prefix: &[K]) -> (r: Vec<&V>)
        requires
            self.wf(),
        ensures
            derefs(r@) == match self.tree().node_at(prefix@) {
                Some(n) => n.preorder(),
                None => Seq::empty(),
            },
    {
        let mut postfixes: Vec<&V> = Vec::new();
        match self.find_node(prefix) {
            Some(node) => {
                proof {
                    assert(derefs(postfixes@) =~= Seq::<V>::empty());
                }
                self.collect_values(node, &mut postfixes);
                proof {
                    assert(derefs(postfixes@) =~= node.preorder());
                }
            },
            None => {
                proof {
                    assert(derefs(postfixes@) =~= Seq::<V>::empty());
                }
            },
        }
        postfixes
    }

    /// Walks along `key`, handing to `visitor`, with the position in the key,
    /// the value slot of every node on the way that holds a value, and that
    /// of the deepest node reached where the walk stops short of the end of
    /// the key. No node is added or removed; only the slots handed out may
    /// change.
    pub fn iter_prefixes<F: PrefixVisitor<V>>(&mut self, key: &[K], visitor: &mut F)
        requires
            old(self).wf(),
        ensures
            final(self).wf(),
            final(self).paths() == old(self).paths(),
            agree_outside(final(self)@, old(self)@, old(self).tree().visited_by(key@)),
    {
        self.root.visit_prefixes(key, visitor);
    }

    /// The value stored under the longest non-empty prefix of `key` that
    /// is a stored key.
    pub fn find_longest_prefix(&self, key: &[K]) -> (r: Option<&V>)
        requires
            self.wf(),
        ensures
            unref(r) == longest_match(self@, key@, key@.len() as int),
    {
        let ghost t = self.root;
        let mut current = &self.root;
        let mut last: Option<&V> = None;
        let mut i: usize = 0;
        proof {
            assert(key@.take(0) =~= Seq::<K>::empty());
        }
        while i < key.len()
            invariant
                t == self.tree(),
                t.wf(),
                current.wf(),
                i <= key@.len(),
                t.node_at(key@.take(i as int)) == Some(*current),
                unref(last) == longest_match(t@, key@, i as int),
            decreases key@.len() - i,
        {
            proof {
                assert(key@.take(i + 1) =~= key@.take(i as int).push(key@[i as int]));
                lemma_node_at_push(t, key@.take(i as int), key@[i as int]);
            }
            match current.search(&key[i]) {
                Ok(ix) => {
                    proof {
                        lemma_child_at(*current, ix as int);
                    }
                    let next = &current.children[ix].1;
                    if next.value.is_some() {
                        last = next.value.as_ref();
                    }
                    current = next;
                    i = i + 1;
                },
                Err(_) => {
                    proof {
                        lemma_matches_stop(t, key@, i + 1, key@.len() as int);
                    }
                    return last;
                },
            }
        }
        last
    }
}

/// Round trip: after `insert(k, v)` the key `k` holds `v`, and
/// `contains_key(k)` reports it for every non-empty `k`.
pub proof fn lemma_insert_then_get<K: Symbol, V>(before: Trie<K, V>, after: Trie<K, V>, k: Seq<K>, v: V)
    requires
        before.wf(),
        after.wf(),
        after@ == before@.insert(k, v),
        after.paths() == before.paths().union(prefixes(k)),
    ensures
        after@.contains_key(k),
        after@[k] == v,
        k.len() > 0 ==> after.reports_key(k),
{
    if k.len() > 0 {
        assert(k.subrange(0, k.len() as int) =~= k);
        lemma_nonempty_path(after, k);
    }
}

/// A tree with a path of one symbol or more has a child at its root.
proof fn lemma_nonempty_path<K: Symbol, V>(t: Trie<K, V>, p: Seq<K>)
    requires
        p.len() > 0,
        t.paths().contains(p),
    ensures
        t.tree().children@.len() > 0,
{
    let first = p.take(1);
    assert(p.subrange(0, 1) =~= first);
    lemma_prefix_closed(t.tree(), p, first);
    assert(t.tree().child(first[0]) is Some);
}

/// Overwrite: inserting a key a second time keeps only the latest value and
/// adds no node: the paths are those after the first insertion.
pub proof fn lemma_insert_twice<K: Symbol, V>(
    t0: Trie<K, V>,
    t1: Trie<K, V>,
    t2: Trie<K, V>,
    k: Seq<K>,
    v1: V,
    v2: V,
)
    requires
        t0.wf(),
        t1@ == t0@.insert(k, v1),
        t1.paths() == t0.paths().union(prefixes(k)),
        t2@ == t1@.insert(k, v2),
        t2.paths() == t1.paths().union(prefixes(k)),
    ensures
        t2@ == t0@.insert(k, v2),
        t2@[k] == v2,
        t2.paths() == t1.paths(),
{
    assert(t2@ =~= t0@.insert(k, v2));
    assert(t2.paths() =~= t1.paths());
}

/// Sortedness: in a well-formed tree, which every operation keeps, the
/// children of every node ascend strictly by symbol.
pub proof fn lemma_sorted_everywhere<K: Symbol, V>(t: Trie<K, V>, p: Seq<K>)
    requires
        t.wf(),
        t.paths().contains(p),
    ensures
        forall|i: int, j: int|
            0 <= i < j < t.tree().node_at(p).unwrap().children@.len() ==>
                (#[trigger] t.tree().node_at(p).unwrap().children@[i]).0.rank()
                < (#[trigger] t.tree().node_at(p).unwrap().children@[j]).0.rank(),
{
    lemma_node_at_wf(t.tree(), p);
}

/// Emptiness: an insertion under a non-empty key leaves the tree non-empty,
/// and a cleared tree reports no key.
pub proof fn lemma_insert_not_empty<K: Symbol, V>(before: Trie<K, V>, after: Trie<K, V>, k: Seq<K>, v: V)
    requires
        before.wf(),
        after@ == before@.insert(k, v),
        after.paths() == before.paths().union(prefixes(k)),
        k.len() > 0,
    ensures
        after.tree().children@.len() > 0,
{
    assert(k.subrange(0, k.len() as int) =~= k);
    lemma_nonempty_path(after, k);
}

/// A cleared tree reports no key.
pub proof fn lemma_cleared_reports_nothing<K: Symbol, V>(t: Trie<K, V>, k: Seq<K>)
    requires
        t@ == Map::<Seq<K>, V>::empty(),
        t.tree().children@.len() == 0,
    ensures
        !t.reports_key(k),
        !t@.contains_key(k),
{
}

/// Removal: after `remove_subtree(k)` for a non-empty `k`, neither `k` nor
/// any key that extends it is reported; every other key keeps its value;
/// and where `k` reached no node, nothing changed.
pub proof fn lemma_remove_subtree<K: Symbol, V>(before: Trie<K, V>, after: Trie<K, V>, k: Seq<K>)
    requires
        before.wf(),
        k.len() > 0,
        after@ == before@.remove_keys(extensions(k)),
        after.paths() == before.paths().difference(extensions(k)),
    ensures
        forall|p: Seq<K>| is_prefix(k, p) ==> !(#[trigger] after.reports_key(p)),
        forall|p: Seq<K>| !is_prefix(k, p) ==> (#[trigger] after@.contains_key(p) <==> before@.contains_key(p)),
        forall|p: Seq<K>| !is_prefix(k, p) && before@.contains_key(p) ==> #[trigger] after@[p] == before@[p],
        !before.paths().contains(k) ==> after@ == before@ && after.paths() == before.paths(),
{
    if !before.paths().contains(k) {
        assert forall|p: Seq<K>| before.paths().contains(p) implies !is_prefix(k, p) by {
            if is_prefix(k, p) {
                lemma_prefix_closed(before.tree(), p, k);
            }
        }
        assert forall|p: Seq<K>| before@.contains_key(p) implies !is_prefix(k, p) by {
            assert(before.paths().contains(p));
        }
        assert(after@ =~= before@);
        assert(after.paths() =~= before.paths());
    }
}

impl<K: Symbol, V: Clone> Clone for Trie<K, V> {
    /// A deep copy of the tree, with every value cloned: it has the same
    /// nodes and holds values under the same keys.
    fn clone(&self) -> (r: Self)
        ensures
            is_clone_of(r.tree(), self.tree()),
            self.wf() ==> r.wf() && r.paths() == self.paths() && r@.dom() == self@.dom(),
    {
        let r = Trie { root: self.root.clone() };
        proof {
            if self.wf() {
                lemma_clone_same_paths(r.root, self.root);
            }
        }
        r
    }
}

impl<K: Symbol, V> Default for Trie<K, V> {
    /// An empty tree.
    fn default() -> (r: Self)
        ensures
            r.wf(),
            r@ == Map::<Seq<K>, V>::empty(),
            r.tree().children@.len() == 0,
    {
        Self::new()
    }
}

} // verus!
