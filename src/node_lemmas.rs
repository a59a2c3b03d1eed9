//! Lemmas on nodes: how the paths and the entries of a node follow from
//! those of its children, and how each change to a child shows at the node.
use crate::symbol::Symbol;
use crate::trie_node::{
    agree_outside, extensions, is_clone_of, is_prefix, prefixes, sorted_children, TrieNode,
};
use vstd::prelude::*;

verus! {

broadcast use vstd::std_specs::vec::group_vec_axioms;

/// The child at index `i` is the one that its symbol reaches.
pub proof fn lemma_child_at<K: Symbol, V>(n: TrieNode<K, V>, i: int)
    requires
        sorted_children(n.children@),
        0 <= i < n.children@.len(),
    ensures
        n.child(n.children@[i].0) == Some(n.children@[i].1),
{
    let s = n.children@[i].0;
    assert(0 <= i < n.children@.len() && n.children@[i].0 == s);
    let j = choose|j: int| 0 <= j < n.children@.len() && n.children@[j].0 == s;
    if j < i {
        assert(n.children@[j].0.rank() < n.children@[i].0.rank());
    } else if i < j {
        assert(n.children@[i].0.rank() < n.children@[j].0.rank());
    }
}

/// Unfolding one step of `node_at`, as a lemma over every path.
pub proof fn lemma_node_at_step<K: Symbol, V>(n: TrieNode<K, V>, p: Seq<K>)
    requires
        p.len() > 0,
    ensures
        n.node_at(p) == match n.child(p[0]) {
            Some(c) => c.node_at(p.drop_first()),
            None => None,
        },
{
}

/// Replacing the child at index `ix` by `c2` under the same symbol changes
/// only the paths that pass through that symbol.
pub proof fn lemma_update_child<K: Symbol, V>(n: TrieNode<K, V>, n2: TrieNode<K, V>, ix: int, c2: TrieNode<K, V>)
    requires
        sorted_children(n.children@),
        0 <= ix < n.children@.len(),
        n2.value == n.value,
        n2.children@ == n.children@.update(ix, (n.children@[ix].0, c2)),
    ensures
        sorted_children(n2.children@),
        forall|t: K| #[trigger] n2.child(t) == if t == n.children@[ix].0 { Some(c2) } else { n.child(t) },
        n.child(n.children@[ix].0) == Some(n.children@[ix].1),
{
    let s = n.children@[ix].0;
    assert(sorted_children(n2.children@)) by {
        assert forall|i: int, j: int| 0 <= i < j < n2.children@.len() implies #[trigger] n2.children@[i].0.rank() < #[trigger] n2.children@[j].0.rank() by {
            assert(n2.children@[i].0 == n.children@[i].0);
            assert(n2.children@[j].0 == n.children@[j].0);
        }
    }
    lemma_child_at(n, ix);
    lemma_child_at(n2, ix);
    assert forall|t: K| #[trigger] n2.child(t) == if t == s { Some(c2) } else { n.child(t) } by {
        if t != s {
            if exists|i: int| 0 <= i < n.children@.len() && n.children@[i].0 == t {
                let i = choose|i: int| 0 <= i < n.children@.len() && n.children@[i].0 == t;
                lemma_child_at(n, i);
                lemma_child_at(n2, i);
            } else {
                assert forall|i: int| 0 <= i < n2.children@.len() implies n2.children@[i].0 != t by {
                    assert(n2.children@[i].0 == n.children@[i].0);
                }
            }
        }
    }
}

/// Inserting a fresh empty child under a symbol that no child has adds that
/// one path and leaves every other child in place.
pub proof fn lemma_insert_fresh_child<K: Symbol, V>(n: TrieNode<K, V>, n2: TrieNode<K, V>, ix: int, s: K, e: TrieNode<K, V>)
    requires
        sorted_children(n.children@),
        0 <= ix <= n.children@.len(),
        forall|j: int| 0 <= j < ix ==> n.children@[j].0.rank() < s.rank(),
        forall|j: int| ix <= j < n.children@.len() ==> n.children@[j].0.rank() > s.rank(),
        n2.value == n.value,
        n2.children@ == n.children@.insert(ix, (s, e)),
    ensures
        sorted_children(n2.children@),
        n2.children@[ix] == (s, e),
        forall|t: K| #[trigger] n2.child(t) == if t == s { Some(e) } else { n.child(t) },
{
    assert(sorted_children(n2.children@)) by {
        assert forall|i: int, j: int| 0 <= i < j < n2.children@.len() implies #[trigger] n2.children@[i].0.rank() < #[trigger] n2.children@[j].0.rank() by {
            if i < ix {
                assert(n2.children@[i] == n.children@[i]);
            } else if i > ix {
                assert(n2.children@[i] == n.children@[i - 1]);
            }
            if j < ix {
                assert(n2.children@[j] == n.children@[j]);
            } else if j > ix {
                assert(n2.children@[j] == n.children@[j - 1]);
            }
        }
    }
    lemma_child_at(n2, ix);
    assert forall|t: K| #[trigger] n2.child(t) == if t == s { Some(e) } else { n.child(t) } by {
        if t != s {
            if exists|i: int| 0 <= i < n.children@.len() && n.children@[i].0 == t {
                let i = choose|i: int| 0 <= i < n.children@.len() && n.children@[i].0 == t;
                lemma_child_at(n, i);
                if i < ix {
                    assert(n2.children@[i] == n.children@[i]);
                    lemma_child_at(n2, i);
                } else {
                    assert(n2.children@[i + 1] == n.children@[i]);
                    lemma_child_at(n2, i + 1);
                }
            } else {
                assert forall|i: int| 0 <= i < n2.children@.len() implies n2.children@[i].0 != t by {
                    if i < ix {
                        assert(n2.children@[i] == n.children@[i]);
                    } else if i > ix {
                        assert(n2.children@[i] == n.children@[i - 1]);
                    }
                }
            }
        } else {
            assert forall|i: int| 0 <= i < n.children@.len() implies n.children@[i].0 != t by {}
        }
    }
}

/// A node without children reaches itself by the empty path and nothing else.
pub proof fn lemma_childless<K: Symbol, V>(n: TrieNode<K, V>, q: Seq<K>)
    requires
        n.children@.len() == 0,
    ensures
        n.node_at(q) == if q.len() == 0 { Some(n) } else { None },
{
}

/// Nodes with equal children reach the same nodes by every non-empty path.
pub proof fn lemma_same_children<K: Symbol, V>(n: TrieNode<K, V>, n2: TrieNode<K, V>, p: Seq<K>)
    requires
        n.children@ == n2.children@,
        p.len() > 0,
    ensures
        n.node_at(p) == n2.node_at(p),
{
    assert(n.child(p[0]) == n2.child(p[0]));
}

/// The effect on the whole node of storing `k.drop_first()` below the child
/// under `k[0]`: the child `c1` (or a fresh empty child, where there was none)
/// became `c2`, and nothing else changed.
pub proof fn lemma_insert_below<K: Symbol, V>(
    n: TrieNode<K, V>,
    fin: TrieNode<K, V>,
    c1: TrieNode<K, V>,
    c2: TrieNode<K, V>,
    k: Seq<K>,
    v: V,
)
    requires
        k.len() > 0,
        fin.value == n.value,
        forall|t: K| #[trigger] fin.child(t) == if t == k[0] { Some(c2) } else { n.child(t) },
        c2@ == c1@.insert(k.drop_first(), v),
        c2.paths() == c1.paths().union(prefixes(k.drop_first())),
        n.child(k[0]) == Some(c1) || (n.child(k[0]) is None && c1.value is None && c1.children@.len() == 0),
    ensures
        fin@ == n@.insert(k, v),
        fin.paths() == n.paths().union(prefixes(k)),
{
    assert forall|p: Seq<K>|
        #![trigger fin.node_at(p)]
        (fin.node_at(p) is Some <==> (n.node_at(p) is Some || is_prefix(p, k)))
        && (fin@.contains_key(p) <==> (n@.contains_key(p) || p == k))
        && (fin@.contains_key(p) ==> fin@[p] == if p == k { v } else { n@[p] }) by {
        if p.len() == 0 {
            assert(k.subrange(0, 0) =~= p);
            assert(p != k);
        } else {
            lemma_prefix_step(p, k);
            let q = p.drop_first();
            if p[0] == k[0] {
                assert(p == k <==> q == k.drop_first()) by {
                    if q == k.drop_first() {
                        assert forall|i: int| 0 <= i < p.len() implies p[i] == k[i] by {
                            if i > 0 {
                                assert(p[i] == q[i - 1]);
                                assert(k[i] == k.drop_first()[i - 1]);
                            }
                        }
                        assert(p =~= k);
                    }
                }
                assert(fin.node_at(p) == c2.node_at(q));
                assert(c2.paths().contains(q) == c2.node_at(q) is Some);
                assert(c1.paths().contains(q) == c1.node_at(q) is Some);
                assert(prefixes(k.drop_first()).contains(q) == is_prefix(q, k.drop_first()));
                assert(c2@.contains_key(q) == (c2.node_at(q) matches Some(m) && m.value is Some));
                assert(c1@.contains_key(q) == (c1.node_at(q) matches Some(m) && m.value is Some));
                if q.len() == 0 {
                    assert(k.drop_first().subrange(0, 0) =~= q);
                }
                if n.child(k[0]) is None {
                    lemma_childless(c1, q);
                    assert(n.node_at(p) is None);
                } else {
                    assert(n.node_at(p) == c1.node_at(q));
                }
                if fin@.contains_key(p) {
                    assert(fin@[p] == c2@[q]);
                    if p != k {
                        assert(n@[p] == c1@[q]);
                    }
                }
            } else {
                assert(p != k);
            }
        }
    }
    assert(fin@ =~= n@.insert(k, v));
    assert(fin.paths() =~= n.paths().union(prefixes(k)));
}

/// The effect on the whole node of a walk that creates and visits the path
/// of `k.drop_first()` below the child under `k[0]`: the child `c1` (or a
/// fresh empty child, where there was none) became `c2`.
pub proof fn lemma_insert_visit_below<K: Symbol, V>(
    n: TrieNode<K, V>,
    fin: TrieNode<K, V>,
    c1: TrieNode<K, V>,
    c2: TrieNode<K, V>,
    k: Seq<K>,
)
    requires
        k.len() > 0,
        fin.value == n.value,
        forall|t: K| #[trigger] fin.child(t) == if t == k[0] { Some(c2) } else { n.child(t) },
        c2.paths() == c1.paths().union(prefixes(k.drop_first())),
        agree_outside(c2@, c1@, prefixes(k.drop_first())),
        n.child(k[0]) == Some(c1) || (n.child(k[0]) is None && c1.value is None && c1.children@.len() == 0),
    ensures
        fin.paths() == n.paths().union(prefixes(k)),
        agree_outside(fin@, n@, prefixes(k)),
{
    assert forall|p: Seq<K>|
        #![trigger fin.node_at(p)]
        (fin.node_at(p) is Some <==> (n.node_at(p) is Some || is_prefix(p, k)))
        && (!is_prefix(p, k) ==> {
            &&& (fin@.contains_key(p) <==> n@.contains_key(p))
            &&& fin@.contains_key(p) ==> fin@[p] == n@[p]
        }) by {
        if p.len() == 0 {
            assert(k.subrange(0, 0) =~= p);
        } else {
            lemma_prefix_step(p, k);
            let q = p.drop_first();
            if p[0] == k[0] {
                assert(fin.node_at(p) == c2.node_at(q));
                assert(c2.paths().contains(q) == c2.node_at(q) is Some);
                assert(c1.paths().contains(q) == c1.node_at(q) is Some);
                assert(prefixes(k.drop_first()).contains(q) == is_prefix(q, k.drop_first()));
                assert(c2@.contains_key(q) == (c2.node_at(q) matches Some(m) && m.value is Some));
                assert(c1@.contains_key(q) == (c1.node_at(q) matches Some(m) && m.value is Some));
                if q.len() == 0 {
                    assert(k.drop_first().subrange(0, 0) =~= q);
                }
                if n.child(k[0]) is None {
                    lemma_childless(c1, q);
                } else {
                    assert(n.node_at(p) == c1.node_at(q));
                }
                if fin@.contains_key(p) && !is_prefix(p, k) {
                    assert(fin@[p] == c2@[q]);
                    assert(n@[p] == c1@[q]);
                }
            }
        }
    }
    assert(fin.paths() =~= n.paths().union(prefixes(k)));
}

/// A clone of a well-formed subtree is well-formed, has the same paths,
/// and holds values under the same keys.
pub proof fn lemma_clone_same_paths<K: Symbol, V: Clone>(c: TrieNode<K, V>, orig: TrieNode<K, V>)
    requires
        is_clone_of(c, orig),
        orig.wf(),
    ensures
        c.wf(),
        c.paths() == orig.paths(),
        c@.dom() == orig@.dom(),
    decreases c,
{
    assert forall|i: int| 0 <= i < c.children@.len() implies (#[trigger] c.children@[i]).1.wf() by {
        assert(orig.children@[i].1.wf());
        lemma_clone_same_paths(c.children@[i].1, orig.children@[i].1);
    }
    assert(sorted_children(c.children@)) by {
        assert forall|i: int, j: int| 0 <= i < j < c.children@.len() implies #[trigger] c.children@[i].0.rank() < #[trigger] c.children@[j].0.rank() by {
            assert(c.children@[i].0 == orig.children@[i].0);
            assert(c.children@[j].0 == orig.children@[j].0);
        }
    }
    assert forall|p: Seq<K>| (#[trigger] c.node_at(p) is Some <==> orig.node_at(p) is Some)
        && (c@.contains_key(p) <==> orig@.contains_key(p)) by {
        if p.len() > 0 {
            let s = p[0];
            if exists|i: int| 0 <= i < orig.children@.len() && orig.children@[i].0 == s {
                let i = choose|i: int| 0 <= i < orig.children@.len() && orig.children@[i].0 == s;
                lemma_child_at(orig, i);
                assert(c.children@[i].0 == s);
                lemma_child_at(c, i);
                lemma_clone_same_paths(c.children@[i].1, orig.children@[i].1);
                assert(c.children@[i].1.paths().contains(p.drop_first()) == orig.children@[i].1.paths().contains(p.drop_first()));
                assert(c.children@[i].1@.dom().contains(p.drop_first()) == orig.children@[i].1@.dom().contains(p.drop_first()));
            } else {
                assert forall|i: int| 0 <= i < c.children@.len() implies c.children@[i].0 != s by {
                    assert(c.children@[i].0 == orig.children@[i].0);
                }
            }
        }
    }
    assert(c.paths() =~= orig.paths());
    assert(c@.dom() =~= orig@.dom());
}

/// Extending a path by one symbol descends to that symbol's child.
pub proof fn lemma_node_at_push<K: Symbol, V>(n: TrieNode<K, V>, p: Seq<K>, s: K)
    ensures
        n.node_at(p.push(s)) == match n.node_at(p) {
            Some(m) => m.child(s),
            None => None,
        },
    decreases p.len(),
{
    let ps = p.push(s);
    if p.len() == 0 {
        assert(ps.drop_first() =~= Seq::<K>::empty());
        match n.child(s) {
            Some(c) => {
                assert(c.node_at(ps.drop_first()) == Some(c));
            },
            None => {},
        }
    } else {
        assert(ps.drop_first() =~= p.drop_first().push(s));
        match n.child(p[0]) {
            Some(c) => {
                lemma_node_at_push(c, p.drop_first(), s);
            },
            None => {},
        }
    }
}

/// Below a missing node every node is missing.
pub proof fn lemma_missing_below<K: Symbol, V>(n: TrieNode<K, V>, k: Seq<K>, i: int, j: int)
    requires
        0 <= i <= j <= k.len(),
        n.node_at(k.take(i)) is None,
    ensures
        n.node_at(k.take(j)) is None,
    decreases j - i,
{
    if i < j {
        lemma_missing_below(n, k, i, j - 1);
        assert(k.take(j) =~= k.take(j - 1).push(k[j - 1]));
        lemma_node_at_push(n, k.take(j - 1), k[j - 1]);
    }
}

/// Removing the child at index `ix` leaves every other child in place.
pub proof fn lemma_remove_child<K: Symbol, V>(n: TrieNode<K, V>, n2: TrieNode<K, V>, ix: int)
    requires
        sorted_children(n.children@),
        0 <= ix < n.children@.len(),
        n2.value == n.value,
        n2.children@ == n.children@.remove(ix),
    ensures
        sorted_children(n2.children@),
        forall|t: K| #[trigger] n2.child(t) == if t == n.children@[ix].0 { None } else { n.child(t) },
{
    let s = n.children@[ix].0;
    assert(sorted_children(n2.children@)) by {
        assert forall|i: int, j: int| 0 <= i < j < n2.children@.len() implies #[trigger] n2.children@[i].0.rank() < #[trigger] n2.children@[j].0.rank() by {
            if i >= ix {
                assert(n2.children@[i] == n.children@[i + 1]);
            }
            if j >= ix {
                assert(n2.children@[j] == n.children@[j + 1]);
            }
        }
    }
    assert forall|t: K| #[trigger] n2.child(t) == if t == s { None } else { n.child(t) } by {
        if t == s {
            assert forall|i: int| 0 <= i < n2.children@.len() implies n2.children@[i].0 != t by {
                if i < ix {
                    assert(n.children@[i].0.rank() < s.rank());
                } else {
                    assert(n2.children@[i] == n.children@[i + 1]);
                    assert(n.children@[i + 1].0.rank() > s.rank());
                }
            }
        } else if exists|i: int| 0 <= i < n.children@.len() && n.children@[i].0 == t {
            let i = choose|i: int| 0 <= i < n.children@.len() && n.children@[i].0 == t;
            lemma_child_at(n, i);
            if i < ix {
                lemma_child_at(n2, i);
            } else {
                assert(n2.children@[i - 1] == n.children@[i]);
                lemma_child_at(n2, i - 1);
            }
        } else {
            assert forall|i: int| 0 <= i < n2.children@.len() implies n2.children@[i].0 != t by {
                if i >= ix {
                    assert(n2.children@[i] == n.children@[i + 1]);
                }
            }
        }
    }
}

/// The effect on the whole node of removing, below the child under `k[0]`,
/// everything under `k.drop_first()`; or the whole child, where `k` has one
/// symbol or no such child exists.
pub proof fn lemma_remove_below<K: Symbol, V>(n: TrieNode<K, V>, fin: TrieNode<K, V>, k: Seq<K>)
    requires
        k.len() > 0,
        fin.value == n.value,
        forall|t: K| t != k[0] ==> #[trigger] fin.child(t) == n.child(t),
        match fin.child(k[0]) {
            None => k.len() == 1 || n.child(k[0]) is None,
            Some(c2) => n.child(k[0]) matches Some(c1) && c2.paths() == c1.paths().difference(extensions(k.drop_first()))
                && c2@ == c1@.remove_keys(extensions(k.drop_first())),
        },
    ensures
        fin@ == n@.remove_keys(extensions(k)),
        fin.paths() == n.paths().difference(extensions(k)),
{
    assert forall|p: Seq<K>|
        #![trigger fin.node_at(p)]
        (fin.node_at(p) is Some <==> (n.node_at(p) is Some && !is_prefix(k, p)))
        && (fin@.contains_key(p) <==> (n@.contains_key(p) && !is_prefix(k, p)))
        && (fin@.contains_key(p) ==> fin@[p] == n@[p]) by {
        if p.len() == 0 {
            assert(fin.node_at(p) == Some(fin));
            assert(n.node_at(p) == Some(n));
        } else {
            lemma_prefix_step(k, p);
            let q = p.drop_first();
            assert(fin.node_at(p) == match fin.child(p[0]) { Some(c) => c.node_at(q), None => None });
            assert(n.node_at(p) == match n.child(p[0]) { Some(c) => c.node_at(q), None => None });
            if p[0] == k[0] {
                if k.len() == 1 {
                    assert(q.subrange(0, 0) =~= k.drop_first());
                }
                match fin.child(k[0]) {
                    Some(c2) => {
                        let c1 = n.child(k[0]).unwrap();
                        assert(c2.paths().contains(q) == c2.node_at(q) is Some);
                        assert(c1.paths().contains(q) == c1.node_at(q) is Some);
                        assert(extensions(k.drop_first()).contains(q) == is_prefix(k.drop_first(), q));
                        assert(c2@.contains_key(q) == (c2.node_at(q) matches Some(m) && m.value is Some));
                        assert(c1@.contains_key(q) == (c1.node_at(q) matches Some(m) && m.value is Some));
                        if c2@.contains_key(q) {
                            assert(c2@[q] == c1@[q]);
                        }
                    },
                    None => {},
                }
            }
        }
    }
    assert(fin@ =~= n@.remove_keys(extensions(k)));
    assert(fin.paths() =~= n.paths().difference(extensions(k)));
}

/// Every node of a well-formed tree is well-formed.
pub proof fn lemma_node_at_wf<K: Symbol, V>(n: TrieNode<K, V>, p: Seq<K>)
    requires
        n.wf(),
        n.node_at(p) is Some,
    ensures
        n.node_at(p).unwrap().wf(),
    decreases p.len(),
{
    if p.len() > 0 {
        let s = p[0];
        let i = choose|i: int| 0 <= i < n.children@.len() && n.children@[i].0 == s;
        lemma_child_at(n, i);
        lemma_node_at_wf(n.children@[i].1, p.drop_first());
    }
}

/// Every prefix of a path is a path.
pub proof fn lemma_prefix_closed<K: Symbol, V>(n: TrieNode<K, V>, p: Seq<K>, q: Seq<K>)
    requires
        is_prefix(q, p),
        n.node_at(p) is Some,
    ensures
        n.node_at(q) is Some,
    decreases p.len(),
{
    if q.len() > 0 {
        lemma_prefix_step(q, p);
        let c = n.child(p[0]).unwrap();
        lemma_prefix_closed(c, p.drop_first(), q.drop_first());
    }
}

/// Replacing the node reached by `p` with one that has the same children
/// and a value stores that value under `p` and changes nothing else.
pub proof fn lemma_replaced_value<K: Symbol, V>(n: TrieNode<K, V>, fin: TrieNode<K, V>, p: Seq<K>, m: TrieNode<K, V>)
    requires
        n.wf(),
        n.replaced_at(fin, p, m),
        n.node_at(p) matches Some(m0) && m0.children == m.children,
        m.value is Some,
    ensures
        fin.wf(),
        fin.paths() == n.paths(),
        fin@ == n@.insert(p, m.value.unwrap()),
    decreases p.len(),
{
    let v = m.value.unwrap();
    if p.len() == 0 {
        assert forall|q: Seq<K>| q.len() > 0 implies #[trigger] fin.node_at(q) == n.node_at(q) by {
            lemma_same_children(n, fin, q);
        }
        assert forall|q: Seq<K>| #[trigger] fin@.contains_key(q) == n@.insert(p, v).contains_key(q) && (fin@.contains_key(q) ==> fin@[q] == n@.insert(p, v)[q]) by {
            if q.len() == 0 {
                assert(q =~= p);
                assert(fin.node_at(q) == Some(fin));
            } else {
                assert(fin.node_at(q) == n.node_at(q));
                assert(q != p);
            }
        }
        assert(fin@ =~= n@.insert(p, v));
        assert(fin.paths() =~= n.paths());
    } else {
        let ix = choose|ix: int|
            0 <= ix < n.children@.len() && #[trigger] n.children@[ix].0 == p[0]
            && fin.value == n.value
            && fin.children@ == n.children@.update(ix, (p[0], fin.children@[ix].1))
            && n.children@[ix].1.replaced_at(fin.children@[ix].1, p.drop_first(), m);
        let c1 = n.children@[ix].1;
        let c2 = fin.children@[ix].1;
        lemma_update_child(n, fin, ix, c2);
        lemma_replaced_value(c1, c2, p.drop_first(), m);
        assert forall|i: int| 0 <= i < fin.children@.len() implies (#[trigger] fin.children@[i]).1.wf() by {
            if i != ix {
                assert(fin.children@[i] == n.children@[i]);
            }
        }
        assert(c1.paths().union(prefixes(p.drop_first())) =~= c1.paths()) by {
            assert forall|q: Seq<K>| #[trigger] prefixes(p.drop_first()).contains(q) implies c1.paths().contains(q) by {
                lemma_prefix_closed(c1, p.drop_first(), q);
            }
        }
        lemma_insert_below(n, fin, c1, c2, p, v);
        assert(n.paths().union(prefixes(p)) =~= n.paths()) by {
            assert forall|q: Seq<K>| #[trigger] prefixes(p).contains(q) implies n.paths().contains(q) by {
                lemma_prefix_closed(n, p, q);
            }
        }
    }
}

/// `lemma_replaced_value`, applied wherever a replacement is stated.
pub broadcast proof fn lemma_replaced_value_auto<K: Symbol, V>(n: TrieNode<K, V>, fin: TrieNode<K, V>, p: Seq<K>, m: TrieNode<K, V>)
    requires
        n.wf(),
        #[trigger] n.replaced_at(fin, p, m),
        n.node_at(p) matches Some(m0) && m0.children == m.children,
        m.value is Some,
    ensures
        fin.wf(),
        fin.paths() == n.paths(),
        fin@ == n@.insert(p, m.value.unwrap()),
{
    lemma_replaced_value(n, fin, p, m);
}

/// The effect on the whole node of a walk below the child under `k[0]`:
/// the child `c1` got the value slot of `c1v` from the visitor, where it
/// held a value, and then became `c2` below.
pub proof fn lemma_visit_below<K: Symbol, V>(
    n: TrieNode<K, V>,
    fin: TrieNode<K, V>,
    c1: TrieNode<K, V>,
    c1v: TrieNode<K, V>,
    c2: TrieNode<K, V>,
    k: Seq<K>,
)
    requires
        k.len() > 0,
        fin.value == n.value,
        n.child(k[0]) == Some(c1),
        forall|t: K| #[trigger] fin.child(t) == if t == k[0] { Some(c2) } else { n.child(t) },
        c1v.children == c1.children,
        c1.value is None ==> c1v.value is None,
        c2.paths() == c1v.paths(),
        agree_outside(c2@, c1v@, c1v.visited_by(k.drop_first())),
    ensures
        fin.paths() == n.paths(),
        agree_outside(fin@, n@, n.visited_by(k)),
{
    let rest = k.drop_first();
    assert forall|q: Seq<K>| q.len() > 0 implies #[trigger] c1v.node_at(q) == c1.node_at(q) by {
        lemma_same_children(c1, c1v, q);
    }
    assert forall|p: Seq<K>|
        #![trigger fin.node_at(p)]
        (fin.node_at(p) is Some <==> n.node_at(p) is Some)
        && (!n.visited_by(k).contains(p) ==> {
            &&& (fin@.contains_key(p) <==> n@.contains_key(p))
            &&& fin@.contains_key(p) ==> fin@[p] == n@[p]
        }) by {
        if p.len() == 0 {
            assert(fin.node_at(p) == Some(fin));
            assert(n.node_at(p) == Some(n));
        } else {
            let q = p.drop_first();
            assert(fin.node_at(p) == match fin.child(p[0]) { Some(c) => c.node_at(q), None => None });
            assert(n.node_at(p) == match n.child(p[0]) { Some(c) => c.node_at(q), None => None });
            if p[0] == k[0] {
                assert(c2.paths().contains(q) == c2.node_at(q) is Some);
                assert(c1v.paths().contains(q) == c1v.node_at(q) is Some);
                if q.len() == 0 {
                    assert(c1v.node_at(q) == Some(c1v));
                    assert(c1.node_at(q) == Some(c1));
                }
                if !n.visited_by(k).contains(p) {
                    lemma_prefix_step(p, k);
                    if c1v.visited_by(rest).contains(q) {
                        if q.len() > 0 && c1v@.contains_key(q) {
                            assert(n@.contains_key(p));
                        } else {
                            assert(q.len() < rest.len() && c1v.node_at(q) is Some && c1v.node_at(rest.take(q.len() as int + 1)) is None);
                            let kp = k.take(p.len() as int + 1);
                            assert(kp.len() > 0 && kp[0] == k[0]);
                            assert(kp.drop_first() =~= rest.take(q.len() as int + 1));
                            assert(n.node_at(kp) == c1.node_at(rest.take(q.len() as int + 1)));
                            assert(rest.take(q.len() as int + 1).len() > 0);
                            assert(n.node_at(kp) is None);
                            assert(n.node_at(p) is Some);
                            assert(false);
                        }
                    }
                    assert(c2@.contains_key(q) == c1v@.contains_key(q));
                    if q.len() == 0 {
                        assert(!n@.contains_key(p) || !is_prefix(p, k));
                        assert(is_prefix(q, rest)) by {
                            assert(rest.subrange(0, 0) =~= q);
                        }
                    }
                    assert(c2@.contains_key(q) == (c2.node_at(q) matches Some(m) && m.value is Some));
                    assert(c1v@.contains_key(q) == (c1v.node_at(q) matches Some(m) && m.value is Some));
                    if c2@.contains_key(q) {
                        assert(c2@[q] == c1v@[q]);
                    }
                }
            }
        }
    }
    assert(fin.paths() =~= n.paths());
}

/// A prefix of a non-empty key is empty, or starts with the key's first
/// symbol and goes on with a prefix of the rest.
pub proof fn lemma_prefix_step<K>(p: Seq<K>, k: Seq<K>)
    requires
        p.len() > 0,
        k.len() > 0,
    ensures
        is_prefix(p, k) <==> (p[0] == k[0] && is_prefix(p.drop_first(), k.drop_first())),
{
    if is_prefix(p, k) {
        assert(k.subrange(0, p.len() as int)[0] == k[0]);
        assert(k.drop_first().subrange(0, p.len() - 1) =~= p.drop_first()) by {
            assert forall|i: int| 0 <= i < p.len() - 1 implies k.drop_first().subrange(0, p.len() - 1)[i] == p.drop_first()[i] by {
                assert(k.subrange(0, p.len() as int)[i + 1] == p[i + 1]);
            }
        }
    }
    if p[0] == k[0] && is_prefix(p.drop_first(), k.drop_first()) {
        assert(k.subrange(0, p.len() as int) =~= p) by {
            assert forall|i: int| 0 <= i < p.len() implies k.subrange(0, p.len() as int)[i] == p[i] by {
                if i > 0 {
                    assert(k.drop_first().subrange(0, p.len() - 1)[i - 1] == p.drop_first()[i - 1]);
                }
            }
        }
    }
}

} // verus!
