//! A lazy depth-first walk over the entries of a tree, and the law that
//! it yields each entry exactly once.
use crate::node_lemmas::lemma_child_at;
use crate::symbol::Symbol;
use crate::trie::Trie;
use crate::trie_node::{is_prefix, TrieNode};
use vstd::prelude::*;

verus! {

broadcast use vstd::std_specs::vec::group_vec_axioms;

/// The keys of `n@`, each behind `path`, with their values.
pub open spec fn shifted<K: Symbol, V>(n: TrieNode<K, V>, path: Seq<K>) -> Map<Seq<K>, V> {
    Map::new(
        |k: Seq<K>| is_prefix(path, k) && n@.contains_key(k.skip(path.len() as int)),
        |k: Seq<K>| n@[k.skip(path.len() as int)],
    )
}

/// The entries that a stack of subtrees, each behind its path, still holds.
pub open spec fn pending<'a, K: Symbol, V>(s: Seq<(&'a TrieNode<K, V>, Vec<K>)>) -> Map<Seq<K>, V> {
    Map::new(
        |k: Seq<K>| exists|i: int| 0 <= i < s.len() && #[trigger] shifted(*s[i].0, s[i].1@).contains_key(k),
        |k: Seq<K>| {
            let i = choose|i: int| 0 <= i < s.len() && #[trigger] shifted(*s[i].0, s[i].1@).contains_key(k);
            shifted(*s[i].0, s[i].1@)[k]
        },
    )
}

/// The number of nodes in the subtree of `n` made of `n` and the subtrees
/// of its first `i` children.
pub open spec fn size_upto<K: Symbol, V>(n: TrieNode<K, V>, i: int) -> nat
    decreases n, i,
{
    if i <= 0 || i > n.children@.len() {
        1
    } else {
        let c = n.children@[i - 1].1;
        size_upto(n, i - 1) + size_upto(c, c.children@.len() as int)
    }
}

/// The number of nodes in the subtrees of a stack.
pub open spec fn stack_size<'a, K: Symbol, V>(s: Seq<(&'a TrieNode<K, V>, Vec<K>)>) -> nat
    decreases s.len(),
{
    if s.len() == 0 {
        0
    } else {
        let n = *s.last().0;
        stack_size(s.drop_last()) + size_upto(n, n.children@.len() as int)
    }
}

/// No path of the stack is a prefix of another.
pub open spec fn disjoint_paths<'a, K: Symbol, V>(s: Seq<(&'a TrieNode<K, V>, Vec<K>)>) -> bool {
    forall|i: int, j: int|
        0 <= i < s.len() && 0 <= j < s.len() && i != j ==> !is_prefix((#[trigger] s[i]).1@, (#[trigger] s[j]).1@)
}

/// Two prefixes of one key: the shorter is a prefix of the longer.
proof fn lemma_prefixes_nested<K>(a: Seq<K>, b: Seq<K>, k: Seq<K>)
    requires
        is_prefix(a, k),
        is_prefix(b, k),
    ensures
        is_prefix(a, b) || is_prefix(b, a),
{
    if a.len() <= b.len() {
        assert(b.subrange(0, a.len() as int) =~= a) by {
            assert forall|i: int| 0 <= i < a.len() implies b.subrange(0, a.len() as int)[i] == a[i] by {
                assert(k.subrange(0, b.len() as int)[i] == k[i]);
                assert(k.subrange(0, a.len() as int)[i] == k[i]);
            }
        }
    } else {
        assert(a.subrange(0, b.len() as int) =~= b) by {
            assert forall|i: int| 0 <= i < b.len() implies a.subrange(0, b.len() as int)[i] == b[i] by {
                assert(k.subrange(0, b.len() as int)[i] == k[i]);
                assert(k.subrange(0, a.len() as int)[i] == k[i]);
            }
        }
    }
}

/// On a stack with disjoint paths, an entry of one subtree is an entry of
/// the stack with the same value.
proof fn lemma_pending_value<'a, K: Symbol, V>(s: Seq<(&'a TrieNode<K, V>, Vec<K>)>, i: int, k: Seq<K>)
    requires
        disjoint_paths(s),
        0 <= i < s.len(),
        shifted(*s[i].0, s[i].1@).contains_key(k),
    ensures
        pending(s).contains_key(k),
        pending(s)[k] == shifted(*s[i].0, s[i].1@)[k],
{
    let j = choose|j: int| 0 <= j < s.len() && #[trigger] shifted(*s[j].0, s[j].1@).contains_key(k);
    if j != i {
        lemma_prefixes_nested(s[i].1@, s[j].1@, k);
    }
}

/// Extending a prefix of `k` by the next symbol of `k`.
proof fn lemma_prefix_push<K>(path: Seq<K>, s: K, k: Seq<K>)
    ensures
        is_prefix(path.push(s), k) <==> (is_prefix(path, k) && k.len() > path.len() && k[path.len() as int] == s),
        is_prefix(path.push(s), k) ==> k.skip(path.len() as int + 1) == k.skip(path.len() as int).drop_first(),
{
    if is_prefix(path.push(s), k) {
        assert(k.subrange(0, path.len() as int) =~= path) by {
            assert forall|i: int| 0 <= i < path.len() implies k.subrange(0, path.len() as int)[i] == path[i] by {
                assert(k.subrange(0, path.len() as int + 1)[i] == path.push(s)[i]);
            }
        }
        assert(k.subrange(0, path.len() as int + 1)[path.len() as int] == path.push(s)[path.len() as int]);
        assert(k.skip(path.len() as int + 1) =~= k.skip(path.len() as int).drop_first());
    }
    if is_prefix(path, k) && k.len() > path.len() && k[path.len() as int] == s {
        assert(k.subrange(0, path.len() as int + 1) =~= path.push(s)) by {
            assert forall|i: int| 0 <= i < path.len() as int + 1 implies k.subrange(0, path.len() as int + 1)[i] == path.push(s)[i] by {
                if i < path.len() {
                    assert(k.subrange(0, path.len() as int)[i] == path[i]);
                }
            }
        }
    }
}

/// The entries of a subtree behind `path`: its own value under `path`, and
/// the entries of each child behind `path` and the child's symbol.
proof fn lemma_shifted_split<K: Symbol, V>(n: TrieNode<K, V>, path: Seq<K>, k: Seq<K>)
    requires
        n.wf(),
    ensures
        shifted(n, path).contains_key(k) <==> ((k == path && n.value is Some)
            || exists|j: int| 0 <= j < n.children@.len()
                && #[trigger] shifted(n.children@[j].1, path.push(n.children@[j].0)).contains_key(k)),
        k == path && n.value is Some ==> shifted(n, path)[k] == n.value.unwrap(),
        forall|j: int| 0 <= j < n.children@.len()
            && #[trigger] shifted(n.children@[j].1, path.push(n.children@[j].0)).contains_key(k)
            ==> shifted(n, path)[k] == shifted(n.children@[j].1, path.push(n.children@[j].0))[k],
{
    let d = path.len() as int;
    if k == path {
        assert(k.subrange(0, d) =~= path);
        assert(k.skip(d) =~= Seq::<K>::empty());
        assert(n.node_at(k.skip(d)) == Some(n));
        assert forall|j: int| 0 <= j < n.children@.len() implies !(#[trigger] shifted(n.children@[j].1, path.push(n.children@[j].0)).contains_key(k)) by {
            lemma_prefix_push(path, n.children@[j].0, k);
        }
    }
    assert forall|j: int| 0 <= j < n.children@.len()
        && #[trigger] shifted(n.children@[j].1, path.push(n.children@[j].0)).contains_key(k)
        implies shifted(n, path).contains_key(k)
            && shifted(n, path)[k] == shifted(n.children@[j].1, path.push(n.children@[j].0))[k] by {
        let c = n.children@[j].1;
        lemma_prefix_push(path, n.children@[j].0, k);
        let q = k.skip(d);
        lemma_child_at(n, j);
        assert(q.len() > 0 && q[0] == n.children@[j].0);
        assert(n.node_at(q) == c.node_at(q.drop_first()));
    }
    if shifted(n, path).contains_key(k) && k != path {
        let q = k.skip(d);
        if q.len() == 0 {
            assert(k =~= path) by {
                assert forall|i: int| 0 <= i < k.len() implies k[i] == path[i] by {
                    assert(k.subrange(0, d)[i] == k[i]);
                }
            }
        }
        assert(q.len() > 0);
        let s = q[0];
        let c = n.child(s).unwrap();
        let j = choose|j: int| 0 <= j < n.children@.len() && n.children@[j].0 == s;
        lemma_child_at(n, j);
        assert(k[d] == s);
        lemma_prefix_push(path, s, k);
        assert(n.node_at(q) == c.node_at(q.drop_first()));
        assert(shifted(n.children@[j].1, path.push(n.children@[j].0)).contains_key(k));
    }
}

/// Replacing the top of a stack by the children of its subtree, each
/// behind its path: the entry of the top node's own value, if any, is the
/// only one that goes.
proof fn lemma_pop_push<'a, K: Symbol, V>(
    before: Seq<(&'a TrieNode<K, V>, Vec<K>)>,
    after: Seq<(&'a TrieNode<K, V>, Vec<K>)>,
)
    requires
        before.len() > 0,
        disjoint_paths(before),
        forall|i: int| 0 <= i < before.len() ==> (#[trigger] before[i]).0.wf(),
        after.len() == before.len() - 1 + before.last().0.children@.len(),
        forall|j: int| 0 <= j < before.len() - 1 ==> after[j] == before[j],
        forall|j: int| 0 <= j < before.last().0.children@.len() ==>
            *(#[trigger] after[before.len() - 1 + j]).0 == before.last().0.children@[j].1
            && after[before.len() - 1 + j].1@ == before.last().1@.push(before.last().0.children@[j].0),
    ensures
        disjoint_paths(after),
        forall|i: int| 0 <= i < after.len() ==> (#[trigger] after[i]).0.wf(),
        pending(after) == match before.last().0.value {
            Some(_) => pending(before).remove(before.last().1@),
            None => pending(before),
        },
        before.last().0.value is Some ==> pending(before).contains_key(before.last().1@)
            && pending(before)[before.last().1@] == before.last().0.value.unwrap(),
{
    let node = *before.last().0;
    let path = before.last().1@;
    let b = before.len() - 1;
    let m = node.children@.len();
    assert(is_prefix(path, path)) by {
        assert(path.subrange(0, path.len() as int) =~= path);
    }
    assert forall|j: int| 0 <= j < m implies is_prefix(path, #[trigger] path.push(node.children@[j].0)) by {
        lemma_prefix_push(path, node.children@[j].0, path.push(node.children@[j].0));
        assert(path.push(node.children@[j].0).subrange(0, path.len() as int + 1) =~= path.push(node.children@[j].0));
    }
    assert forall|i: int| 0 <= i < after.len() implies (#[trigger] after[i]).0.wf() by {
        if i >= b {
            assert(*after[b + (i - b)].0 == node.children@[i - b].1);
        }
    }
    assert forall|i: int, j: int| 0 <= i < after.len() && 0 <= j < after.len() && i != j
        implies !is_prefix((#[trigger] after[i]).1@, (#[trigger] after[j]).1@) by {
        if i < b && j < b {
            assert(after[i] == before[i] && after[j] == before[j]);
        } else if i < b {
            let c = node.children@[j - b].0;
            assert(after[b + (j - b)].1@ == path.push(c));
            assert(after[i] == before[i]);
            let r = before[i].1@;
            assert(!is_prefix(r, path) && !is_prefix(path, r)) by {
                assert(before[b] == before.last());
            }
            if is_prefix(r, path.push(c)) {
                lemma_prefixes_nested(r, path, path.push(c));
            }
        } else if j < b {
            let c = node.children@[i - b].0;
            assert(after[b + (i - b)].1@ == path.push(c));
            assert(after[j] == before[j]);
            let r = before[j].1@;
            assert(!is_prefix(r, path) && !is_prefix(path, r)) by {
                assert(before[b] == before.last());
            }
            lemma_prefix_push(path, c, r);
        } else {
            let c1 = node.children@[i - b].0;
            let c2 = node.children@[j - b].0;
            assert(after[b + (i - b)].1@ == path.push(c1));
            assert(after[b + (j - b)].1@ == path.push(c2));
            lemma_prefix_push(path, c1, path.push(c2));
            assert(path.push(c2)[path.len() as int] == c2);
            if i < j {
                assert(c1.rank() < c2.rank());
            } else {
                assert(c2.rank() < c1.rank());
            }
        }
    }
    let target = match node.value {
        Some(_) => pending(before).remove(path),
        None => pending(before),
    };
    assert(before[b] == before.last());
    if node.value is Some {
        lemma_shifted_split(node, path, path);
        lemma_pending_value(before, b, path);
    }
    assert forall|k: Seq<K>| #[trigger] pending(after).contains_key(k) <==> target.contains_key(k) by {
        lemma_shifted_split(node, path, k);
        if pending(after).contains_key(k) {
            let i = choose|i: int| 0 <= i < after.len() && #[trigger] shifted(*after[i].0, after[i].1@).contains_key(k);
            if i < b {
                assert(after[i] == before[i]);
                lemma_pending_value(before, i, k);
                assert(k != path) by {
                    if k == path {
                        assert(is_prefix(before[i].1@, path));
                    }
                }
            } else {
                let j = i - b;
                assert(after[b + j] == after[i]);
                assert(shifted(node.children@[j].1, path.push(node.children@[j].0)).contains_key(k));
                lemma_pending_value(before, b, k);
                assert(k != path) by {
                    if k == path {
                        lemma_prefix_push(path, node.children@[j].0, k);
                    }
                }
            }
        }
        if target.contains_key(k) {
            let i = choose|i: int| 0 <= i < before.len() && #[trigger] shifted(*before[i].0, before[i].1@).contains_key(k);
            if i < b {
                assert(after[i] == before[i]);
                lemma_pending_value(after, i, k);
            } else {
                assert(k != path);
                let j = choose|j: int| 0 <= j < node.children@.len()
                    && #[trigger] shifted(node.children@[j].1, path.push(node.children@[j].0)).contains_key(k);
                assert(after[b + j].1@ == path.push(node.children@[j].0));
                lemma_pending_value(after, b + j, k);
            }
        }
    }
    assert forall|k: Seq<K>| #[trigger] pending(after).contains_key(k) implies pending(after)[k] == target[k] by {
        lemma_shifted_split(node, path, k);
        let i = choose|i: int| 0 <= i < after.len() && #[trigger] shifted(*after[i].0, after[i].1@).contains_key(k);
        lemma_pending_value(after, i, k);
        if i < b {
            assert(after[i] == before[i]);
            lemma_pending_value(before, i, k);
        } else {
            let j = i - b;
            assert(after[b + j] == after[i]);
            lemma_pending_value(before, b, k);
        }
    }
    assert(pending(after) =~= target);
}

/// `path` followed by `s`.
fn extend_path<K: Symbol>(path: &Vec<K>, s: K) -> (r: Vec<K>)
    ensures
        r@ == path@.push(s),
{
    let mut r: Vec<K> = Vec::new();
    let mut i: usize = 0;
    while i < path.len()
        invariant
            i <= path@.len(),
            r@ == path@.take(i as int),
        decreases path@.len() - i,
    {
        r.push(path[i]);
        i = i + 1;
        proof {
            assert(r@ =~= path@.take(i as int));
        }
    }
    proof {
        assert(path@.take(path@.len() as int) =~= path@);
    }
    r.push(s);
    r
}

/// A lazy depth-first walk over the entries of a tree. It holds a stack of
/// subtrees still to visit, each with the path that leads to it.
pub struct TrieIterator<'a, K: Symbol, V> {
    stack: Vec<(&'a TrieNode<K, V>, Vec<K>)>,
}

impl<'a, K: Symbol, V> TrieIterator<'a, K, V> {
    /// Subtrees are well-formed, and no path on the stack is a prefix of another.
    pub closed spec fn wf(self) -> bool {
        &&& forall|i: int| 0 <= i < self.stack@.len() ==> (#[trigger] self.stack@[i]).0.wf()
        &&& disjoint_paths(self.stack@)
    }

    /// The number of nodes still to visit.
    pub closed spec fn remaining_nodes(self) -> nat {
        stack_size(self.stack@)
    }

    /// The entries not yet yielded.
    pub closed spec fn view(self) -> Map<Seq<K>, V> {
        pending(self.stack@)
    }

    /// The next entry: its key and its value. Each call yields an entry not
    /// yielded before, and `None` once every entry has been yielded.
    pub fn next(&mut self) -> (r: Option<(Vec<K>, &'a V)>)
        requires
            old(self).wf(),
        ensures
            final(self).wf(),
            match r {
                None => old(self)@ == Map::<Seq<K>, V>::empty() && final(self)@ == old(self)@,
                Some(e) => old(self)@.contains_key(e.0@) && old(self)@[e.0@] == *e.1
                    && final(self)@ == old(self)@.remove(e.0@)
                    && final(self).remaining_nodes() < old(self).remaining_nodes(),
            },
    {
        while self.stack.len() > 0
            invariant
                self.wf(),
                self@ == old(self)@,
                self.remaining_nodes() <= old(self).remaining_nodes(),
            decreases self.remaining_nodes(),
        {
            let ghost before = self.stack@;
            let (node, path) = self.stack.pop().unwrap();
            let ghost rest = self.stack@;
            proof {
                assert(before.last() == (node, path));
                assert(rest =~= before.drop_last());
            }
            let mut i: usize = 0;
            while i < node.children.len()
                invariant
                    rest == before.drop_last(),
                    before.len() > 0,
                    *before.last().0 == *node,
                    before.last().1@ == path@,
                    i <= node.children@.len(),
                    self.stack@.len() == rest.len() + i,
                    forall|j: int| 0 <= j < rest.len() ==> self.stack@[j] == rest[j],
                    forall|j: int| 0 <= j < i ==>
                        *(#[trigger] self.stack@[rest.len() + j]).0 == node.children@[j].1
                        && self.stack@[rest.len() + j].1@ == path@.push(node.children@[j].0),
                    stack_size(self.stack@) + 1 == stack_size(rest) + size_upto(*node, i as int),
                decreases node.children@.len() - i,
            {
                let ghost prev = self.stack@;
                let child = &node.children[i];
                let p = extend_path(&path, child.0);
                self.stack.push((&child.1, p));
                proof {
                    assert(self.stack@.drop_last() =~= prev);
                    assert forall|j: int| 0 <= j < i + 1 implies
                        *(#[trigger] self.stack@[rest.len() + j]).0 == node.children@[j].1
                        && self.stack@[rest.len() + j].1@ == path@.push(node.children@[j].0) by {
                        if j < i {
                            assert(self.stack@[rest.len() + j] == prev[rest.len() + j]);
                        }
                    }
                }
                i = i + 1;
            }
            proof {
                assert forall|j: int| 0 <= j < before.len() - 1 implies self.stack@[j] == before[j] by {
                    assert(rest[j] == before[j]);
                }
                lemma_pop_push(before, self.stack@);
                assert(stack_size(before) == stack_size(rest) + size_upto(*node, node.children@.len() as int));
            }
            match &node.value {
                Some(v) => {
                    return Some((path, v));
                },
                None => {},
            }
        }
        proof {
            assert(self@ =~= Map::<Seq<K>, V>::empty());
        }
        None
    }

    /// A walk over every entry of `trie`.
    fn new(trie: &'a Trie<K, V>) -> (r: Self)
        requires
            trie.wf(),
        ensures
            r.wf(),
            r@ == trie@,
    {
        let r = TrieIterator { stack: vec![(trie.root(), Vec::new())] };
        proof {
            let e = Seq::<K>::empty();
            assert forall|k: Seq<K>| #[trigger] r@.contains_key(k) <==> trie@.contains_key(k) by {
                assert(k.skip(0) =~= k);
                assert(k.subrange(0, 0) =~= e);
                if trie@.contains_key(k) {
                    assert(shifted(*r.stack@[0].0, r.stack@[0].1@).contains_key(k));
                }
            }
            assert forall|k: Seq<K>| r@.contains_key(k) implies r@[k] == trie@[k] by {
                assert(k.skip(0) =~= k);
            }
            assert(r@ =~= trie@);
        }
        r
    }
}

impl<K: Symbol, V> Trie<K, V> {
    /// A lazy walk over every stored entry, each yielded once, in
    /// depth-first order (which is not the order of the keys).
    pub fn iter(&self) -> (r: TrieIterator<'_, K, V>)
        requires
            self.wf(),
        ensures
            r.wf(),
            r@ == self@,
    {
        TrieIterator::new(self)
    }
}

/// The keys among the first `n` yielded entries.
pub open spec fn yielded_keys<K, V>(ys: Seq<(Seq<K>, V)>, n: int) -> Set<Seq<K>> {
    Set::new(|k: Seq<K>| exists|i: int| 0 <= i < n && (#[trigger] ys[i]).0 == k)
}

/// A run of `next` on an iterator: `states[i]` is what the iterator held
/// before the call that yielded `ys[i]`, and the last state held nothing.
pub open spec fn is_run<K, V>(states: Seq<Map<Seq<K>, V>>, ys: Seq<(Seq<K>, V)>) -> bool {
    &&& states.len() == ys.len() + 1
    &&& forall|i: int| 0 <= i < ys.len() ==> {
        &&& (#[trigger] states[i]).contains_key(ys[i].0)
        &&& states[i][ys[i].0] == ys[i].1
        &&& states[i + 1] == states[i].remove(ys[i].0)
    }
}

proof fn lemma_run_upto<K, V>(m: Map<Seq<K>, V>, states: Seq<Map<Seq<K>, V>>, ys: Seq<(Seq<K>, V)>, n: int)
    requires
        is_run(states, ys),
        states[0] == m,
        0 <= n <= ys.len(),
    ensures
        states[n] == m.remove_keys(yielded_keys(ys, n)),
        forall|i: int| 0 <= i < n ==> m.contains_key((#[trigger] ys[i]).0) && m[ys[i].0] == ys[i].1,
        forall|i: int, j: int| 0 <= i < j < n ==> (#[trigger] ys[i]).0 != (#[trigger] ys[j]).0,
    decreases n,
{
    if n == 0 {
        assert(m.remove_keys(yielded_keys(ys, 0)) =~= m);
    } else {
        lemma_run_upto(m, states, ys, n - 1);
        let k = ys[n - 1].0;
        assert(states[n - 1].contains_key(k));
        assert forall|i: int| 0 <= i < n - 1 implies (#[trigger] ys[i]).0 != k by {
            assert(yielded_keys(ys, n - 1).contains(ys[i].0));
        }
        assert(yielded_keys(ys, n) =~= yielded_keys(ys, n - 1).insert(k));
        assert(states[n] =~= m.remove_keys(yielded_keys(ys, n)));
    }
}

/// Iterator completeness: a run of `next` on `trie.iter()` until `None`
/// yields every stored entry exactly once and nothing else. (`next` makes
/// such a run finite: each entry it yields leaves fewer nodes to visit.)
pub proof fn lemma_iter_complete<K: Symbol, V>(
    trie: Trie<K, V>,
    states: Seq<Map<Seq<K>, V>>,
    ys: Seq<(Seq<K>, V)>,
)
    requires
        is_run(states, ys),
        states[0] == trie@,
        states.last() == Map::<Seq<K>, V>::empty(),
    ensures
        forall|i: int| 0 <= i < ys.len() ==> trie@.contains_key((#[trigger] ys[i]).0) && trie@[ys[i].0] == ys[i].1,
        forall|i: int, j: int| 0 <= i < j < ys.len() ==> (#[trigger] ys[i]).0 != (#[trigger] ys[j]).0,
        forall|k: Seq<K>| trie@.contains_key(k) ==> exists|i: int| 0 <= i < ys.len() && (#[trigger] ys[i]).0 == k,
{
    lemma_run_upto(trie@, states, ys, ys.len() as int);
    assert forall|k: Seq<K>| trie@.contains_key(k) implies exists|i: int| 0 <= i < ys.len() && (#[trigger] ys[i]).0 == k by {
        assert(!states[ys.len() as int].contains_key(k));
        assert(yielded_keys(ys, ys.len() as int).contains(k));
    }
}

} // verus!
