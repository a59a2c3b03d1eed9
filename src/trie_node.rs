//! One level of the prefix tree: an optional value and sorted children.
use core::cmp::Ordering;
use crate::node_lemmas::{
    lemma_child_at, lemma_insert_below, lemma_insert_fresh_child, lemma_insert_visit_below,
    lemma_remove_below, lemma_remove_child, lemma_same_children, lemma_update_child,
    lemma_visit_below,
};
use crate::symbol::Symbol;
use vstd::prelude::*;

verus! {

broadcast use vstd::std_specs::vec::group_vec_axioms;

/// A node of the tree. It holds the value of the key that ends here, if
/// any, and its children, each under the symbol that leads to it.
#[derive(Debug)]
pub struct TrieNode<K: Symbol, V> {
    pub value: Option<V>,
    /// Sorted by symbol, strictly ascending.
    pub children: Vec<(K, TrieNode<K, V>)>,
}

/// The value behind an optional reference.
pub open spec fn unref<T>(o: Option<&T>) -> Option<T> {
    match o {
        Some(x) => Some(*x),
        None => None,
    }
}

/// The values behind a sequence of references.
pub open spec fn derefs<T>(s: Seq<&T>) -> Seq<T> {
    s.map_values(|r: &T| *r)
}

/// Whether `p` is a prefix of `k`.
pub open spec fn is_prefix<K>(p: Seq<K>, k: Seq<K>) -> bool {
    p.len() <= k.len() && k.subrange(0, p.len() as int) == p
}

/// All prefixes of `k`, the empty one and `k` itself included.
pub open spec fn prefixes<K>(k: Seq<K>) -> Set<Seq<K>> {
    Set::new(|p: Seq<K>| is_prefix(p, k))
}

/// All keys that have `k` as a prefix, `k` itself included.
pub open spec fn extensions<K>(k: Seq<K>) -> Set<Seq<K>> {
    Set::new(|p: Seq<K>| is_prefix(k, p))
}

/// Children whose symbols ascend strictly.
pub open spec fn sorted_children<K: Symbol, V>(cs: Seq<(K, TrieNode<K, V>)>) -> bool {
    forall|i: int, j: int| 0 <= i < j < cs.len() ==> #[trigger] cs[i].0.rank() < #[trigger] cs[j].0.rank()
}

/// Receives, from `Trie::iter_prefixes`, the value slot of each node it
/// reaches together with the position in the key. What it does with the
/// slot is up to the implementor.
pub trait PrefixVisitor<V> {
    fn visit(&mut self, position: usize, value: &mut Option<V>);
}

/// Receives, from `Trie::insert_with`, the value slot of each node on the
/// path of the key, the root first: `None` for the root, and for every
/// other node the index of the key's symbol that leads to it.
pub trait InsertVisitor<V> {
    fn visit(&mut self, position: Option<usize>, value: &mut Option<V>);
}

/// `c` is a clone of `orig`: the same symbols at the same places, and at
/// each node a value exactly where `orig` has one, a clone of it.
pub open spec fn is_clone_of<K: Symbol, V: Clone>(c: TrieNode<K, V>, orig: TrieNode<K, V>) -> bool
    decreases c,
{
    &&& (c.value is Some <==> orig.value is Some)
    &&& c.value is Some ==> cloned(orig.value.unwrap(), c.value.unwrap())
    &&& c.children@.len() == orig.children@.len()
    &&& forall|i: int| 0 <= i < c.children@.len() ==>
        (#[trigger] c.children@[i]).0 == orig.children@[i].0
        && is_clone_of(c.children@[i].1, orig.children@[i].1)
}

/// `a` and `b` hold the same entries outside the keys of `s`.
pub open spec fn agree_outside<K, V>(a: Map<Seq<K>, V>, b: Map<Seq<K>, V>, s: Set<Seq<K>>) -> bool {
    forall|p: Seq<K>| !s.contains(p) ==> {
        &&& (#[trigger] a.contains_key(p) <==> b.contains_key(p))
        &&& a.contains_key(p) ==> a[p] == b[p]
    }
}

impl<K: Symbol, V> TrieNode<K, V> {
    /// The paths whose nodes a walk along `k` hands to a visitor: the
    /// non-empty prefixes of `k` that hold a value, and the deepest node
    /// on the way where the walk stops short of the end of `k`.
    pub open spec fn visited_by(self, k: Seq<K>) -> Set<Seq<K>> {
        Set::new(|p: Seq<K>| is_prefix(p, k) && (
            (p.len() > 0 && self@.contains_key(p))
            || (p.len() < k.len() && self.node_at(p) is Some && self.node_at(k.take(p.len() as int + 1)) is None)))
    }

    /// Every node of the subtree has its children sorted by symbol.
    pub open spec fn wf(self) -> bool
        decreases self,
    {
        &&& sorted_children(self.children@)
        &&& forall|i: int| 0 <= i < self.children@.len() ==> (#[trigger] self.children@[i]).1.wf()
    }

    /// The child reached by symbol `s`, if any.
    pub open spec fn child(self, s: K) -> Option<TrieNode<K, V>> {
        if exists|i: int| 0 <= i < self.children@.len() && self.children@[i].0 == s {
            let i = choose|i: int| 0 <= i < self.children@.len() && self.children@[i].0 == s;
            Some(self.children@[i].1)
        } else {
            None
        }
    }

    /// The node reached from this one by the symbols of `p`, if any.
    pub open spec fn node_at(self, p: Seq<K>) -> Option<TrieNode<K, V>>
        decreases p.len(),
    {
        if p.len() == 0 {
            Some(self)
        } else {
            match self.child(p[0]) {
                Some(c) => c.node_at(p.drop_first()),
                None => None,
            }
        }
    }

    /// The paths of all nodes of the subtree, the empty path included.
    pub open spec fn paths(self) -> Set<Seq<K>> {
        Set::new(|p: Seq<K>| self.node_at(p) is Some)
    }

    /// The keys stored in the subtree, relative to this node, with their values.
    pub open spec fn view(self) -> Map<Seq<K>, V> {
        Map::new(
            |p: Seq<K>| self.node_at(p) matches Some(n) && n.value is Some,
            |p: Seq<K>| self.node_at(p).unwrap().value.unwrap(),
        )
    }

    /// The values of this node and of the subtrees of its first `i`
    /// children, in pre-order: a node's own value before its children's,
    /// children in the order of their symbols.
    pub open spec fn preorder_upto(self, i: int) -> Seq<V>
        decreases self, i,
    {
        if i <= 0 || i > self.children@.len() {
            match self.value {
                Some(v) => seq![v],
                None => Seq::empty(),
            }
        } else {
            let c = self.children@[i - 1].1;
            self.preorder_upto(i - 1) + c.preorder_upto(c.children@.len() as int)
        }
    }

    /// The values of the whole subtree, in pre-order.
    pub open spec fn preorder(self) -> Seq<V> {
        self.preorder_upto(self.children@.len() as int)
    }

    /// `fin` is this node with the node reached by `p` replaced by `m`.
    pub open spec fn replaced_at(self, fin: TrieNode<K, V>, p: Seq<K>, m: TrieNode<K, V>) -> bool
        decreases p.len(),
    {
        if p.len() == 0 {
            fin == m
        } else {
            exists|ix: int|
                0 <= ix < self.children@.len() && #[trigger] self.children@[ix].0 == p[0]
                && fin.value == self.value
                && fin.children@ == self.children@.update(ix, (p[0], fin.children@[ix].1))
                && self.children@[ix].1.replaced_at(fin.children@[ix].1, p.drop_first(), m)
        }
    }

    /// Creates a node with no value and no children.
    pub fn new() -> (r: Self)
        ensures
            r.value is None,
            r.children@.len() == 0,
            r.wf(),
    {
        TrieNode { value: None, children: Vec::new() }
    }

    /// Whether every node of the subtree has its children sorted by symbol.
    pub fn is_well_formed(&self) -> (r: bool)
        ensures
            r == self.wf(),
        decreases self,
    {
        let mut i: usize = 0;
        while i < self.children.len()
            invariant
                i <= self.children@.len(),
                forall|a: int, b: int| 0 <= a < b < i ==> #[trigger] self.children@[a].0.rank() < #[trigger] self.children@[b].0.rank(),
                forall|j: int| 0 <= j < i ==> (#[trigger] self.children@[j]).1.wf(),
            decreases self.children@.len() - i,
        {
            if i > 0 {
                match self.children[i - 1].0.compare(&self.children[i].0) {
                    Ordering::Less => {},
                    _ => {
                        proof {
                            assert(!(self.children@[i - 1].0.rank() < self.children@[i as int].0.rank()));
                        }
                        return false;
                    },
                }
            }
            proof {
                assert(decreases_to!(self => self.children@[i as int].1));
            }
            if !self.children[i].1.is_well_formed() {
                return false;
            }
            i = i + 1;
        }
        true
    }

    /// Binary search for symbol `s` among the children: `Ok` with its index,
    /// or `Err` with the index where it would be inserted.
    pub(crate) fn search(&self, s: &K) -> (r: Result<usize, usize>)
        requires
            sorted_children(self.children@),
        ensures
            match r {
                Ok(i) => i < self.children@.len() && self.children@[i as int].0 == *s,
                Err(i) => {
                    &&& i <= self.children@.len()
                    &&& forall|j: int| 0 <= j < i ==> self.children@[j].0.rank() < s.rank()
                    &&& forall|j: int| i <= j < self.children@.len() ==> self.children@[j].0.rank() > s.rank()
                },
            },
    {
        let mut lo: usize = 0;
        let mut hi: usize = self.children.len();
        while lo < hi
            invariant
                lo <= hi <= self.children@.len(),
                sorted_children(self.children@),
                forall|j: int| 0 <= j < lo ==> self.children@[j].0.rank() < s.rank(),
                forall|j: int| hi <= j < self.children@.len() ==> self.children@[j].0.rank() > s.rank(),
            decreases hi - lo,
        {
            let mid = lo + (hi - lo) / 2;
            match self.children[mid].0.compare(s) {
                Ordering::Less => {
                    lo = mid + 1;
                },
                Ordering::Equal => {
                    return Ok(mid);
                },
                Ordering::Greater => {
                    hi = mid;
                },
            }
        }
        Err(lo)
    }

    /// The node reached by `key@.skip(pos)`.
    fn find_node_from(&self, key: &[K], pos: usize) -> (r: Option<&Self>)
        requires
            self.wf(),
            pos <= key@.len(),
        ensures
            unref(r) == self.node_at(key@.skip(pos as int)),
        decreases key@.len() - pos,
    {
        if pos == key.len() {
            proof {
                assert(key@.skip(pos as int).len() == 0);
            }
            return Some(self);
        }
        proof {
            assert(key@.skip(pos as int + 1) == key@.skip(pos as int).drop_first());
        }
        match self.search(&key[pos]) {
            Ok(ix) => {
                proof {
                    lemma_child_at(*self, ix as int);
                }
                self.children[ix].1.find_node_from(key, pos + 1)
            },
            Err(_) => None,
        }
    }

    /// The node reached from this one by the symbols of `key`, if any.
    pub fn find_node(&self, key: &[K]) -> (r: Option<&Self>)
        requires
            self.wf(),
        ensures
            unref(r) == self.node_at(key@),
    {
        proof {
            assert(key@.skip(0) == key@);
        }
        self.find_node_from(key, 0)
    }

    /// Removes the node reached by `key@.skip(pos)`, a non-empty path,
    /// together with everything below it.
    fn remove_from(&mut self, key: &[K], pos: usize)
        requires
            old(self).wf(),
            pos < key@.len(),
        ensures
            final(self).wf(),
            final(self)@ == old(self)@.remove_keys(extensions(key@.skip(pos as int))),
            final(self).paths() == old(self).paths().difference(extensions(key@.skip(pos as int))),
        decreases key@.len() - pos,
    {
        let ghost n0 = *self;
        let ghost k = key@.skip(pos as int);
        proof {
            assert(key@.skip(pos as int + 1) == k.drop_first());
        }
        match self.search(&key[pos]) {
            Ok(ix) => {
                proof {
                    lemma_child_at(n0, ix as int);
                }
                if pos + 1 == key.len() {
                    self.children.remove(ix);
                    proof {
                        lemma_remove_child(n0, *self, ix as int);
                        assert forall|i: int| 0 <= i < self.children@.len() implies (#[trigger] self.children@[i]).1.wf() by {
                            if i >= ix {
                                assert(self.children@[i] == n0.children@[i + 1]);
                            }
                        }
                    }
                } else {
                    self.children[ix].1.remove_from(key, pos + 1);
                    proof {
                        lemma_update_child(n0, *self, ix as int, self.children@[ix as int].1);
                        assert forall|i: int| 0 <= i < self.children@.len() implies (#[trigger] self.children@[i]).1.wf() by {
                            if i != ix {
                                assert(self.children@[i] == n0.children@[i]);
                            }
                        }
                    }
                }
            },
            Err(_) => {
                proof {
                    assert(forall|i: int| 0 <= i < n0.children@.len() ==> n0.children@[i].0 != k[0]);
                }
            },
        }
        proof {
            lemma_remove_below(n0, *self, k);
        }
    }

    /// Removes the node reached by `key` together with everything below it.
    /// The empty key, and a key that reaches no node, change nothing.
    pub fn remove_subtree(&mut self, key: &[K])
        requires
            old(self).wf(),
        ensures
            final(self).wf(),
            key@.len() == 0 ==> *final(self) == *old(self),
            key@.len() > 0 ==> final(self)@ == old(self)@.remove_keys(extensions(key@)),
            key@.len() > 0 ==> final(self).paths() == old(self).paths().difference(extensions(key@)),
    {
        if key.len() > 0 {
            proof {
                assert(key@.skip(0) == key@);
            }
            self.remove_from(key, 0);
        }
    }

    /// The node reached by `key@.skip(pos)`, a path that exists, to be
    /// changed in place.
    fn descend_mut(&mut self, key: &[K], pos: usize) -> (r: &mut Self)
        requires
            old(self).wf(),
            pos <= key@.len(),
            old(self).node_at(key@.skip(pos as int)) is Some,
        ensures
            old(self).node_at(key@.skip(pos as int)) == Some(*r),
            old(self).replaced_at(*final(self), key@.skip(pos as int), *final(r)),
        decreases key@.len() - pos,
    {
        if pos == key.len() {
            proof {
                assert(key@.skip(pos as int).len() == 0);
            }
            return self;
        }
        let ghost n0 = *self;
        proof {
            assert(key@.skip(pos as int + 1) == key@.skip(pos as int).drop_first());
        }
        let ix = match self.search(&key[pos]) {
            Ok(ix) => ix,
            Err(_) => {
                // Not reached: the path exists, so its next symbol has a child.
                proof {
                    assert(forall|i: int| 0 <= i < n0.children@.len() ==> n0.children@[i].0 != key@[pos as int]);
                }
                return self;
            },
        };
        proof {
            lemma_child_at(n0, ix as int);
        }
        self.children[ix].1.descend_mut(key, pos + 1)
    }

    /// The node reached from this one by the symbols of `key`, to be
    /// changed in place; `None` where no node is reached.
    pub fn find_node_mut(&mut self, key: &[K]) -> (r: Option<&mut Self>)
        requires
            old(self).wf(),
        ensures
            r is Some <==> old(self).node_at(key@) is Some,
            r is Some ==> old(self).node_at(key@) == Some(*r.unwrap())
                && old(self).replaced_at(*final(self), key@, *final(r.unwrap())),
            r is None ==> *final(self) == *old(self),
    {
        if self.find_node(key).is_none() {
            return None;
        }
        proof {
            assert(key@.skip(0) == key@);
        }
        Some(self.descend_mut(key, 0))
    }

    /// Stores `value` in this node.
    pub fn set_value(&mut self, value: V)
        ensures
            final(self).value == Some(value),
            final(self).children == old(self).children,
    {
        self.value = Some(value);
    }

    /// The value of this node.
    pub fn get_value(&self) -> (r: Option<&V>)
        ensures
            unref(r) == self.value,
    {
        self.value.as_ref()
    }

    /// Whether this node holds a value, that is, ends a stored key.
    pub fn may_be_leaf(&self) -> (r: bool)
        ensures
            r == self.value is Some,
    {
        self.value.is_some()
    }

    /// Walks along `key@.skip(pos)`, handing to `visitor` the value slot of
    /// every node on the way that holds a value, and that of the deepest
    /// node where the walk stops short of the end of the key.
    fn visit_prefixes_from<F: PrefixVisitor<V>>(&mut self, key: &[K], pos: usize, visitor: &mut F)
        requires
            old(self).wf(),
            pos <= key@.len(),
        ensures
            final(self).wf(),
            final(self).paths() == old(self).paths(),
            agree_outside(final(self)@, old(self)@, old(self).visited_by(key@.skip(pos as int))),
        decreases key@.len() - pos,
    {
        let ghost n0 = *self;
        let ghost k = key@.skip(pos as int);
        if pos == key.len() {
            proof {
                assert(self.paths() =~= n0.paths());
            }
            return;
        }
        proof {
            assert(key@.skip(pos as int + 1) == k.drop_first());
        }
        match self.search(&key[pos]) {
            Ok(ix) => {
                proof {
                    lemma_child_at(n0, ix as int);
                }
                let ghost c1 = self.children@[ix as int].1;
                let child = &mut self.children[ix].1;
                if child.value.is_some() {
                    visitor.visit(pos, &mut child.value);
                }
                let ghost c1v = *child;
                proof {
                    assert(c1v.children == c1.children);
                    assert(c1.wf());
                    assert(sorted_children(c1v.children@));
                    assert(c1v.wf());
                }
                child.visit_prefixes_from(key, pos + 1, visitor);
                proof {
                    let c2 = self.children@[ix as int].1;
                    lemma_update_child(n0, *self, ix as int, c2);
                    assert forall|i: int| 0 <= i < self.children@.len() implies (#[trigger] self.children@[i]).1.wf() by {
                        if i != ix {
                            assert(self.children@[i] == n0.children@[i]);
                        }
                    }
                    assert forall|q: Seq<K>| q.len() > 0 implies #[trigger] c1v.node_at(q) == c1.node_at(q) by {
                        lemma_same_children(c1, c1v, q);
                    }
                    assert(c1v.paths() =~= c1.paths());
                    lemma_visit_below(n0, *self, c1, c1v, c2, k);
                }
            },
            Err(_) => {
                visitor.visit(pos, &mut self.value);
                proof {
                    assert(n0.child(k[0]) is None);
                    assert forall|p: Seq<K>| p.len() > 0 implies #[trigger] self.node_at(p) == n0.node_at(p) by {
                        lemma_same_children(n0, *self, p);
                    }
                    assert(self.paths() =~= n0.paths());
                    let e = Seq::<K>::empty();
                    assert(k.take(1) =~= seq![k[0]]);
                    assert(n0.node_at(k.take(1)) is None);
                    assert(n0.visited_by(k).contains(e)) by {
                        assert(k.subrange(0, 0) =~= e);
                    }
                    assert forall|p: Seq<K>| !n0.visited_by(k).contains(p) implies
                        (#[trigger] self@.contains_key(p) <==> n0@.contains_key(p))
                        && (self@.contains_key(p) ==> self@[p] == n0@[p]) by {
                        if p.len() == 0 {
                            assert(p =~= e);
                        }
                    }
                }
            },
        }
    }

    /// Walks along `key`; see `visit_prefixes_from`.
    pub fn visit_prefixes<F: PrefixVisitor<V>>(&mut self, key: &[K], visitor: &mut F)
        requires
            old(self).wf(),
        ensures
            final(self).wf(),
            final(self).paths() == old(self).paths(),
            agree_outside(final(self)@, old(self)@, old(self).visited_by(key@)),
    {
        proof {
            assert(key@.skip(0) == key@);
        }
        self.visit_prefixes_from(key, 0, visitor);
    }

    /// Creates the nodes on the path of `key@.skip(pos)` that are missing,
    /// handing to `visitor` the value slot of each node on that path, this
    /// one first with position `cur`.
    fn insert_with_from<F: InsertVisitor<V>>(&mut self, key: &[K], pos: usize, cur: Option<usize>, visitor: &mut F)
        requires
            old(self).wf(),
            pos <= key@.len(),
        ensures
            final(self).wf(),
            final(self).paths() == old(self).paths().union(prefixes(key@.skip(pos as int))),
            agree_outside(final(self)@, old(self)@, prefixes(key@.skip(pos as int))),
        decreases key@.len() - pos,
    {
        let ghost n0 = *self;
        let ghost k = key@.skip(pos as int);
        visitor.visit(cur, &mut self.value);
        let ghost nv = *self;
        proof {
            assert forall|p: Seq<K>| p.len() > 0 implies #[trigger] nv.node_at(p) == n0.node_at(p) by {
                lemma_same_children(n0, nv, p);
            }
            assert(k.subrange(0, 0) =~= Seq::<K>::empty());
            assert forall|p: Seq<K>| !prefixes(k).contains(p) implies
                (#[trigger] nv@.contains_key(p) <==> n0@.contains_key(p)) && (nv@.contains_key(p) ==> nv@[p] == n0@[p]) by {
                if p.len() == 0 {
                    assert(p =~= Seq::<K>::empty());
                }
            }
            assert(nv.paths() =~= n0.paths());
        }
        if pos == key.len() {
            proof {
                assert forall|p: Seq<K>| #[trigger] prefixes(k).contains(p) implies p.len() == 0 by {}
                assert forall|p: Seq<K>| #[trigger] prefixes(k).contains(p) implies n0.paths().contains(p) by {
                    assert(p =~= Seq::<K>::empty());
                }
                assert(self.paths() =~= n0.paths().union(prefixes(k)));
            }
            return;
        }
        let s = key[pos];
        let ix = match self.search(&s) {
            Ok(ix) => ix,
            Err(ix) => {
                let ghost n1 = *self;
                self.children.insert(ix, (s, TrieNode::new()));
                proof {
                    lemma_insert_fresh_child(n1, *self, ix as int, s, self.children@[ix as int].1);
                    assert forall|i: int| 0 <= i < self.children@.len() implies (#[trigger] self.children@[i]).1.wf() by {
                        if i < ix {
                            assert(self.children@[i] == n1.children@[i]);
                        } else if i > ix {
                            assert(self.children@[i] == n1.children@[i - 1]);
                        }
                    }
                }
                ix
            },
        };
        let ghost n1 = *self;
        let ghost c1 = self.children@[ix as int].1;
        proof {
            lemma_child_at(n1, ix as int);
            assert(key@.skip(pos as int + 1) == k.drop_first());
        }
        self.children[ix].1.insert_with_from(key, pos + 1, Some(pos), visitor);
        proof {
            let c2 = self.children@[ix as int].1;
            lemma_update_child(n1, *self, ix as int, c2);
            assert forall|i: int| 0 <= i < self.children@.len() implies (#[trigger] self.children@[i]).1.wf() by {
                if i != ix {
                    assert(self.children@[i] == n1.children@[i]);
                }
            }
            lemma_insert_visit_below(nv, *self, c1, c2, k);
        }
    }

    /// Creates the nodes on the path of `key` that are missing, handing to
    /// `visitor` the value slot of each node on that path, the root first.
    pub fn insert_with<F: InsertVisitor<V>>(&mut self, key: &[K], visitor: &mut F)
        requires
            old(self).wf(),
        ensures
            final(self).wf(),
            final(self).paths() == old(self).paths().union(prefixes(key@)),
            agree_outside(final(self)@, old(self)@, prefixes(key@)),
    {
        proof {
            assert(key@.skip(0) == key@);
        }
        self.insert_with_from(key, 0, None, visitor);
    }

    /// Stores `value` under the key `key@.skip(pos)`, creating the nodes on
    /// its path that are missing.
    fn insert_from(&mut self, key: &[K], pos: usize, value: V)
        requires
            old(self).wf(),
            pos <= key@.len(),
        ensures
            final(self).wf(),
            final(self)@ == old(self)@.insert(key@.skip(pos as int), value),
            final(self).paths() == old(self).paths().union(prefixes(key@.skip(pos as int))),
        decreases key@.len() - pos,
    {
        let ghost n0 = *self;
        let ghost k = key@.skip(pos as int);
        if pos == key.len() {
            self.value = Some(value);
            proof {
                assert(k =~= Seq::<K>::empty());
                assert forall|p: Seq<K>| p.len() > 0 implies #[trigger] self.node_at(p) == n0.node_at(p) by {
                    lemma_same_children(n0, *self, p);
                }
                assert forall|p: Seq<K>| #[trigger] self@.contains_key(p) == n0@.insert(k, value).contains_key(p) && (self@.contains_key(p) ==> self@[p] == n0@.insert(k, value)[p]) by {
                    if p.len() == 0 {
                        assert(p == k);
                        assert(self.node_at(p) == Some(*self));
                    } else {
                        assert(self.node_at(p) == n0.node_at(p));
                        assert(p != k);
                    }
                }
                assert(self@ =~= n0@.insert(k, value));
                assert forall|p: Seq<K>| #[trigger] prefixes(k).contains(p) implies p.len() == 0 by {}
                assert(self.paths() =~= n0.paths().union(prefixes(k)));
            }
            return;
        }
        let s = key[pos];
        let ix = match self.search(&s) {
            Ok(ix) => ix,
            Err(ix) => {
                let ghost n1 = *self;
                self.children.insert(ix, (s, TrieNode::new()));
                proof {
                    lemma_insert_fresh_child(n1, *self, ix as int, s, self.children@[ix as int].1);
                    assert forall|i: int| 0 <= i < self.children@.len() implies (#[trigger] self.children@[i]).1.wf() by {
                        if i < ix {
                            assert(self.children@[i] == n1.children@[i]);
                        } else if i > ix {
                            assert(self.children@[i] == n1.children@[i - 1]);
                        }
                    }
                }
                ix
            },
        };
        let ghost n1 = *self;
        let ghost c1 = self.children@[ix as int].1;
        proof {
            lemma_child_at(n1, ix as int);
            assert(key@.skip(pos as int + 1) == k.drop_first());
        }
        self.children[ix].1.insert_from(key, pos + 1, value);
        proof {
            let c2 = self.children@[ix as int].1;
            lemma_update_child(n1, *self, ix as int, c2);
            assert forall|i: int| 0 <= i < self.children@.len() implies (#[trigger] self.children@[i]).1.wf() by {
                if i != ix {
                    assert(self.children@[i] == n1.children@[i]);
                }
            }
            lemma_insert_below(n0, *self, c1, c2, k, value);
        }
    }

    /// Stores `value` under `key`, replacing any value stored there and
    /// creating the nodes on its path that are missing.
    pub fn insert(&mut self, key: &[K], value: V)
        requires
            old(self).wf(),
        ensures
            final(self).wf(),
            final(self)@ == old(self)@.insert(key@, value),
            final(self).paths() == old(self).paths().union(prefixes(key@)),
    {
        proof {
            assert(key@.skip(0) == key@);
        }
        self.insert_from(key, 0, value);
    }
}

impl<K: Symbol, V: Clone> Clone for TrieNode<K, V> {
    /// A deep copy of the subtree, with every value cloned.
    fn clone(&self) -> (r: Self)
        ensures
            is_clone_of(r, *self),
        decreases self,
    {
        let mut children: Vec<(K, TrieNode<K, V>)> = Vec::new();
        let mut i: usize = 0;
        while i < self.children.len()
            invariant
                i <= self.children@.len(),
                children@.len() == i,
                forall|j: int| 0 <= j < i ==>
                    (#[trigger] children@[j]).0 == self.children@[j].0
                    && is_clone_of(children@[j].1, self.children@[j].1),
            decreases self.children@.len() - i,
        {
            proof {
                assert(decreases_to!(self => self.children@[i as int].1));
            }
            let c = self.children[i].1.clone();
            children.push((self.children[i].0, c));
            i = i + 1;
        }
        TrieNode { value: self.value.clone(), children }
    }
}

impl<K: Symbol, V> Default for TrieNode<K, V> {
    /// A node with no value and no children.
    fn default() -> (r: Self)
        ensures
            r.value is None,
            r.children@.len() == 0,
            r.wf(),
    {
        Self::new()
    }
}

} // verus!
