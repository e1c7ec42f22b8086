//! The trie itself: a non-empty Patricia tree node and the recursive
//! algorithms over nodes. An absent tree (the empty map) is represented by
//! the facade as `None`, so every node here holds at least one entry and a
//! branch never has an empty child.
//!
//! Children are held through `Rc`, so an unchanged subtree is reused by
//! reference: every operation rebuilds only the path it touches.

use std::rc::Rc;
use vstd::prelude::*;

use crate::bits::agrees_above;
use crate::bits::bit_set;
use crate::bits::bits_above;
use crate::bits::rep_key;
use crate::bits::highest_bit;
use crate::bits::lemma_above_lift;
use crate::bits::lemma_branch_split;
use crate::bits::lemma_branch_order;
use crate::bits::lemma_diff_high;
use crate::bits::lemma_no_bits_above_top;
use crate::bits::lemma_prefix_roundtrip;
use crate::bits::lemma_xor_zero;
use crate::map::entry_or;
use crate::map::leq_point;

verus! {

pub(crate) enum Node<V> {
    Leaf { key: u64, value: V },
    Branch { prefix: u64, bit: u64, left: Rc<Node<V>>, right: Rc<Node<V>> },
}

impl<V> Node<V> {
    /// The entries held under this node, as a mathematical map.
    pub(crate) open spec fn as_map(self) -> Map<u64, V>
        decreases self,
    {
        match self {
            Node::Leaf { key, value } => Map::empty().insert(key, value),
            Node::Branch { prefix, bit, left, right } => left.as_map().union_prefer_right(
                right.as_map(),
            ),
        }
    }

    /// Structural invariant: a branch splits its keys at `bit`, every key in
    /// the subtree carries the branch's prefix above `bit`, and the prefix
    /// holds nothing but bits that fit above `bit`.
    pub(crate) open spec fn wf(self) -> bool
        decreases self,
    {
        match self {
            Node::Leaf { .. } => true,
            Node::Branch { prefix, bit, left, right } => {
                &&& bit < 64
                &&& prefix == bits_above(rep_key(prefix, bit), bit)
                &&& left.wf()
                &&& right.wf()
                &&& forall|k: u64| #[trigger]
                    left.as_map().dom().contains(k) ==> bits_above(k, bit) == prefix && !bit_set(
                        k,
                        bit,
                    )
                &&& forall|k: u64| #[trigger]
                    right.as_map().dom().contains(k) ==> bits_above(k, bit) == prefix && bit_set(
                        k,
                        bit,
                    )
            },
        }
    }
}

/// The map of a shared subtree, read through its handle.
pub(crate) open spec fn rc_map<V>(n: &Rc<Node<V>>) -> Map<u64, V> {
    n.as_map()
}

/// The entry sequence of a shared subtree, read through its handle.
pub(crate) open spec fn rc_entries<V>(n: &Rc<Node<V>>) -> Seq<(u64, V)> {
    n.entries()
}

/// The map held by an optional root: the empty map when there is no node.
pub(crate) open spec fn opt_as_map<V>(root: Option<Rc<Node<V>>>) -> Map<u64, V> {
    match root {
        None => Map::empty(),
        Some(n) => n.as_map(),
    }
}

/// Every node holds at least one entry, and only finitely many.
pub(crate) proof fn lemma_map_shape<V>(n: &Node<V>)
    ensures
        n.as_map().dom().finite(),
        exists|k: u64| n.as_map().dom().contains(k),
    decreases n,
{
    match n {
        Node::Leaf { key, value } => {
            assert(n.as_map().dom() =~= Set::empty().insert(*key));
            assert(n.as_map().dom().contains(*key));
        },
        Node::Branch { prefix, bit, left, right } => {
            lemma_map_shape(&**left);
            lemma_map_shape(&**right);
            assert(n.as_map().dom() =~= left.as_map().dom() + right.as_map().dom());
            let k = choose|k: u64| left.as_map().dom().contains(k);
            assert(n.as_map().dom().contains(k));
        },
    }
}

/// Combine two trees whose key sets are separated: `c1` and `c2` stand for
/// every key of `t1` and `t2` (each key agrees with its representative on all
/// bits above `b1`, resp. `b2`), and the representatives still differ above
/// both levels. The result is a single branch at the highest differing bit.
fn join<V>(
    c1: u64,
    t1: Rc<Node<V>>,
    c2: u64,
    t2: Rc<Node<V>>,
    b1: Ghost<int>,
    b2: Ghost<int>,
) -> (r: Rc<Node<V>>)
    requires
        t1.wf(),
        t2.wf(),
        !agrees_above(c1, c2, b1@),
        !agrees_above(c1, c2, b2@),
        forall|k: u64| #[trigger] t1.as_map().dom().contains(k) ==> agrees_above(k, c1, b1@),
        forall|k: u64| #[trigger] t2.as_map().dom().contains(k) ==> agrees_above(k, c2, b2@),
    ensures
        r.wf(),
        t1.as_map().dom().disjoint(t2.as_map().dom()),
        r.as_map() == t1.as_map().union_prefer_right(t2.as_map()),
{
    let x = c1 ^ c2;
    proof {
        lemma_xor_zero(c1, c2);
    }
    let i = highest_bit(x);
    let p = (c1 >> i) >> 1;
    proof {
        lemma_branch_split(c1, c2, i);
        if b1@ >= 0 {
            lemma_diff_high(c1, c2, b1@ as u64, i);
        }
        if b2@ >= 0 {
            lemma_diff_high(c1, c2, b2@ as u64, i);
        }
        assert forall|k: u64| #[trigger] t1.as_map().dom().contains(k) implies bits_above(k, i)
            == bits_above(c1, i) && bit_set(k, i) == bit_set(c1, i) by {
            if b1@ >= 0 {
                lemma_above_lift(k, c1, b1@ as u64, i);
            }
        }
        assert forall|k: u64| #[trigger] t2.as_map().dom().contains(k) implies bits_above(k, i)
            == bits_above(c2, i) && bit_set(k, i) == bit_set(c2, i) by {
            if b2@ >= 0 {
                lemma_above_lift(k, c2, b2@ as u64, i);
            }
        }
        lemma_prefix_roundtrip(c1, i);
        crate::bits::lemma_bit01(c1 >> i);
        assert(t1.as_map().dom().disjoint(t2.as_map().dom()));
    }
    if (c1 >> i) & 1 == 0 {
        let r = Rc::new(Node::Branch { prefix: p, bit: i, left: t1, right: t2 });
        proof {
            assert(r.as_map() == t1.as_map().union_prefer_right(t2.as_map()));
        }
        r
    } else {
        let r = Rc::new(Node::Branch { prefix: p, bit: i, left: t2, right: t1 });
        proof {
            assert(rep_key(p, i) == rep_key(bits_above(c1, i), i));
            assert(r.as_map() =~= t1.as_map().union_prefer_right(t2.as_map()));
        }
        r
    }
}

/// Relies on Rc::ptr_eq: it is true only of two handles to one allocation,
/// which therefore hold one and the same value.
#[verifier::external_body]
pub(crate) fn same_node<V>(a: &Rc<Node<V>>, b: &Rc<Node<V>>) -> (r: bool)
    ensures
        r ==> a == b,
{
    Rc::ptr_eq(a, b)
}

/// A Patricia tree is a canonical representation: two well-formed trees that
/// hold the same map agree at the root, leaf with leaf or branch with branch,
/// field by field.
pub(crate) proof fn lemma_same_map_same_shape<V>(n1: &Node<V>, n2: &Node<V>)
    requires
        n1.wf(),
        n2.wf(),
        n1.as_map() == n2.as_map(),
    ensures
        match (n1, n2) {
            (Node::Leaf { key: k1, value: v1 }, Node::Leaf { key: k2, value: v2 }) => k1 == k2
                && v1 == v2,
            (
                Node::Branch { prefix: p1, bit: b1, left: l1, right: r1 },
                Node::Branch { prefix: p2, bit: b2, left: l2, right: r2 },
            ) => p1 == p2 && b1 == b2 && rc_map(l1) == rc_map(l2) && rc_map(r1) == rc_map(r2),
            _ => false,
        },
{
    match (n1, n2) {
        (Node::Leaf { key: k1, value: v1 }, Node::Leaf { key: k2, value: v2 }) => {
            assert(n1.as_map().dom().contains(*k1));
            assert(n2.as_map().dom().contains(*k1));
            assert(*k1 == *k2);
            assert(n1.as_map()[*k1] == *v1);
            assert(n2.as_map()[*k1] == *v2);
            assert(*v1 == *v2);
        },
        (
            Node::Leaf { key: k1, value: v1 },
            Node::Branch { prefix: p2, bit: b2, left: l2, right: r2 },
        ) => {
            lemma_map_shape(&**l2);
            lemma_map_shape(&**r2);
            let kl = choose|k: u64| l2.as_map().dom().contains(k);
            let kr = choose|k: u64| r2.as_map().dom().contains(k);
            assert(n2.as_map().dom().contains(kl) && n2.as_map().dom().contains(kr));
            assert(kl == *k1 && kr == *k1);
            assert(false);
        },
        (
            Node::Branch { prefix: p1, bit: b1, left: l1, right: r1 },
            Node::Leaf { key: k2, value: v2 },
        ) => {
            lemma_map_shape(&**l1);
            lemma_map_shape(&**r1);
            let kl = choose|k: u64| l1.as_map().dom().contains(k);
            let kr = choose|k: u64| r1.as_map().dom().contains(k);
            assert(n1.as_map().dom().contains(kl) && n1.as_map().dom().contains(kr));
            assert(kl == *k2 && kr == *k2);
            assert(false);
        },
        (
            Node::Branch { prefix: p1, bit: b1, left: l1, right: r1 },
            Node::Branch { prefix: p2, bit: b2, left: l2, right: r2 },
        ) => {
            lemma_map_shape(&**l1);
            lemma_map_shape(&**r1);
            lemma_map_shape(&**l2);
            lemma_map_shape(&**r2);
            assert(n1.as_map().dom() =~= l1.as_map().dom() + r1.as_map().dom());
            assert(n2.as_map().dom() =~= l2.as_map().dom() + r2.as_map().dom());
            if *b1 < *b2 {
                let kl = choose|k: u64| l2.as_map().dom().contains(k);
                let kr = choose|k: u64| r2.as_map().dom().contains(k);
                assert(n1.as_map().dom().contains(kl) && n1.as_map().dom().contains(kr));
                assert(bits_above(kl, *b1) == *p1 && bits_above(kr, *b1) == *p1);
                lemma_above_lift(kl, kr, *b1, *b2);
                assert(false);
            }
            if *b2 < *b1 {
                let kl = choose|k: u64| l1.as_map().dom().contains(k);
                let kr = choose|k: u64| r1.as_map().dom().contains(k);
                assert(n2.as_map().dom().contains(kl) && n2.as_map().dom().contains(kr));
                assert(bits_above(kl, *b2) == *p2 && bits_above(kr, *b2) == *p2);
                lemma_above_lift(kl, kr, *b2, *b1);
                assert(false);
            }
            let kw = choose|k: u64| l1.as_map().dom().contains(k);
            assert(n2.as_map().dom().contains(kw));
            assert(*p1 == *p2);
            assert forall|k: u64| #[trigger] l1.as_map().dom().contains(k) implies l2.as_map().dom().contains(
                k,
            ) && l1.as_map()[k] == l2.as_map()[k] by {
                assert(n2.as_map().dom().contains(k));
                assert(!r2.as_map().dom().contains(k));
                assert(n1.as_map()[k] == l1.as_map()[k]);
                assert(n2.as_map()[k] == l2.as_map()[k]);
            }
            assert forall|k: u64| #[trigger] l2.as_map().dom().contains(k) implies l1.as_map().dom().contains(
                k,
            ) by {
                assert(n1.as_map().dom().contains(k));
                assert(!r1.as_map().dom().contains(k));
            }
            assert(rc_map(l1) =~= rc_map(l2));
            assert forall|k: u64| #[trigger] r1.as_map().dom().contains(k) implies r2.as_map().dom().contains(
                k,
            ) && r1.as_map()[k] == r2.as_map()[k] by {
                assert(n2.as_map().dom().contains(k));
                assert(!l2.as_map().dom().contains(k));
                assert(n1.as_map()[k] == r1.as_map()[k]);
                assert(n2.as_map()[k] == r2.as_map()[k]);
            }
            assert forall|k: u64| #[trigger] r2.as_map().dom().contains(k) implies r1.as_map().dom().contains(
                k,
            ) by {
                assert(n1.as_map().dom().contains(k));
                assert(!l1.as_map().dom().contains(k));
            }
            assert(rc_map(r1) =~= rc_map(r2));
        },
    }
}

/// Structural equality over two trees, comparing values through `V`'s own
/// equality and short-circuiting to `true` on pointer-identical subtrees.
/// Because the representation is canonical, it decides equality of the maps.
pub(crate) fn eq_node<V: PartialEq>(a: &Rc<Node<V>>, b: &Rc<Node<V>>) -> (r: bool)
    requires
        a.wf(),
        b.wf(),
    ensures
        vstd::laws_eq::obeys_concrete_eq::<V>() ==> r == (rc_map(a) == rc_map(b)),
    decreases a,
{
    if same_node(a, b) {
        return true;
    }
    proof {
        reveal(vstd::laws_eq::obeys_concrete_eq);
    }
    match (&**a, &**b) {
        (Node::Leaf { key: k1, value: v1 }, Node::Leaf { key: k2, value: v2 }) => {
            let r = *k1 == *k2 && *v1 == *v2;
            proof {
                if vstd::laws_eq::obeys_concrete_eq::<V>() {
                    if rc_map(a) == rc_map(b) {
                        lemma_same_map_same_shape(&**a, &**b);
                    }
                    if r {
                        assert(rc_map(a) =~= rc_map(b));
                    }
                }
            }
            r
        },
        (
            Node::Branch { prefix: p1, bit: b1, left: l1, right: r1 },
            Node::Branch { prefix: p2, bit: b2, left: l2, right: r2 },
        ) => {
            let r = *p1 == *p2 && *b1 == *b2 && eq_node(l1, l2) && eq_node(r1, r2);
            proof {
                if vstd::laws_eq::obeys_concrete_eq::<V>() {
                    if rc_map(a) == rc_map(b) {
                        lemma_same_map_same_shape(&**a, &**b);
                    }
                    if r {
                        assert(rc_map(a) =~= rc_map(b));
                    }
                }
            }
            r
        },
        _ => {
            proof {
                if vstd::laws_eq::obeys_concrete_eq::<V>() && rc_map(a) == rc_map(b) {
                    lemma_same_map_same_shape(&**a, &**b);
                }
            }
            false
        },
    }
}

/// Insert or replace: the resulting tree holds `old map + (key, value)`,
/// sharing every subtree off the walked path with the input tree.
pub(crate) fn insert_node<V>(n: &Rc<Node<V>>, key: u64, value: V) -> (r: Rc<Node<V>>)
    requires
        n.wf(),
    ensures
        r.wf(),
        r.as_map() == n.as_map().insert(key, value),
    decreases n,
{
    match &**n {
        Node::Leaf { key: k, value: _ } => {
            if key == *k {
                let r = Rc::new(Node::Leaf { key, value });
                proof {
                    assert(r.as_map() =~= n.as_map().insert(key, value));
                }
                r
            } else {
                let leaf = Rc::new(Node::Leaf { key, value });
                let r = join(key, leaf, *k, n.clone(), Ghost(-1), Ghost(-1));
                proof {
                    assert(r.as_map() =~= n.as_map().insert(key, value));
                }
                r
            }
        },
        Node::Branch { prefix, bit, left, right } => {
            proof {
                crate::bits::lemma_bit01(key >> *bit);
                assert(n.as_map().dom() =~= left.as_map().dom() + right.as_map().dom());
            }
            if (key >> *bit) >> 1 == *prefix {
                if (key >> *bit) & 1 == 0 {
                    let nl = insert_node(left, key, value);
                    let r = Rc::new(
                        Node::Branch {
                            prefix: *prefix,
                            bit: *bit,
                            left: nl,
                            right: right.clone(),
                        },
                    );
                    proof {
                        assert(!right.as_map().dom().contains(key));
                        assert(r.as_map() =~= n.as_map().insert(key, value));
                    }
                    r
                } else {
                    let nr = insert_node(right, key, value);
                    let r = Rc::new(
                        Node::Branch {
                            prefix: *prefix,
                            bit: *bit,
                            left: left.clone(),
                            right: nr,
                        },
                    );
                    proof {
                        assert(!left.as_map().dom().contains(key));
                        assert(r.as_map() =~= n.as_map().insert(key, value));
                    }
                    r
                }
            } else {
                let leaf = Rc::new(Node::Leaf { key, value });
                let rep = (*prefix << 1) << *bit;
                proof {
                    if *bit == 63 {
                        lemma_no_bits_above_top(key);
                        lemma_no_bits_above_top(rep);
                        assert(false);
                    }
                    assert(!agrees_above(key, rep, *bit as int));
                }
                let r = join(key, leaf, rep, n.clone(), Ghost(-1), Ghost(*bit as int));
                proof {
                    assert(!n.as_map().dom().contains(key));
                    assert(r.as_map() =~= n.as_map().insert(key, value));
                }
                r
            }
        },
    }
}

/// Delete the entry for `key`, collapsing a branch left with one child.
/// `None` stands for the empty result; an untouched tree is shared back.
pub(crate) fn remove_node<V>(n: &Rc<Node<V>>, key: u64) -> (r: Option<Rc<Node<V>>>)
    requires
        n.wf(),
    ensures
        match r {
            Some(m) => m.wf() && m.as_map() == n.as_map().remove(key),
            None => n.as_map().remove(key) == Map::<u64, V>::empty(),
        },
    decreases n,
{
    match &**n {
        Node::Leaf { key: k, value: _ } => {
            if key == *k {
                proof {
                    assert(n.as_map().remove(key) =~= Map::<u64, V>::empty());
                }
                None
            } else {
                let r = n.clone();
                proof {
                    assert(r.as_map() =~= n.as_map().remove(key));
                }
                Some(r)
            }
        },
        Node::Branch { prefix, bit, left, right } => {
            proof {
                crate::bits::lemma_bit01(key >> *bit);
                assert(n.as_map().dom() =~= left.as_map().dom() + right.as_map().dom());
            }
            if (key >> *bit) >> 1 != *prefix {
                proof {
                    assert(!n.as_map().dom().contains(key));
                    assert(n.as_map().remove(key) =~= n.as_map());
                }
                Some(n.clone())
            } else if (key >> *bit) & 1 == 0 {
                proof {
                    assert(!right.as_map().dom().contains(key));
                }
                match remove_node(left, key) {
                    None => {
                        proof {
                            assert forall|k2: u64|
                                k2 != key && left.as_map().dom().contains(k2) implies false by {
                                assert(left.as_map().remove(key).dom().contains(k2));
                            }
                            assert(n.as_map().remove(key) =~= right.as_map());
                        }
                        Some(right.clone())
                    },
                    Some(nl) => {
                        let r = Rc::new(
                            Node::Branch {
                                prefix: *prefix,
                                bit: *bit,
                                left: nl,
                                right: right.clone(),
                            },
                        );
                        proof {
                            assert(r.as_map() =~= n.as_map().remove(key));
                        }
                        Some(r)
                    },
                }
            } else {
                proof {
                    assert(!left.as_map().dom().contains(key));
                }
                match remove_node(right, key) {
                    None => {
                        proof {
                            assert forall|k2: u64|
                                k2 != key && right.as_map().dom().contains(k2) implies false by {
                                assert(right.as_map().remove(key).dom().contains(k2));
                            }
                            assert(n.as_map().remove(key) =~= left.as_map());
                        }
                        Some(left.clone())
                    },
                    Some(nr) => {
                        let r = Rc::new(
                            Node::Branch {
                                prefix: *prefix,
                                bit: *bit,
                                left: left.clone(),
                                right: nr,
                            },
                        );
                        proof {
                            assert(r.as_map() =~= n.as_map().remove(key));
                        }
                        Some(r)
                    },
                }
            }
        },
    }
}

/// Merge two trees: keys of either side survive, a key present in both maps
/// to `op(left value, right value)`, and pointer-identical subtrees are
/// reused whole without calling `op`.
pub(crate) fn union_nodes<V, F: Fn(&V, &V) -> V>(a: &Rc<Node<V>>, b: &Rc<Node<V>>, op: &F) -> (r:
    Rc<Node<V>>)
    requires
        a.wf(),
        b.wf(),
        forall|x: &V, y: &V| call_requires(*op, (x, y)),
    ensures
        r.wf(),
        r.as_map().dom() == rc_map(a).dom() + rc_map(b).dom(),
        forall|k: u64| #[trigger]
            r.as_map().dom().contains(k) ==> crate::map::union_point(
                rc_map(a),
                rc_map(b),
                *op,
                k,
                r.as_map()[k],
            ),
    decreases a, b,
{
    if same_node(a, b) {
        let r = a.clone();
        proof {
            assert(r.as_map().dom() =~= rc_map(a).dom() + rc_map(b).dom());
        }
        return r;
    }
    match (&**a, &**b) {
        (Node::Leaf { key: k1, value: v1 }, Node::Leaf { key: k2, value: v2 }) => {
            if *k1 == *k2 {
                let w = op(v1, v2);
                let r = Rc::new(Node::Leaf { key: *k1, value: w });
                proof {
                    assert(r.as_map().dom() =~= rc_map(a).dom() + rc_map(b).dom());
                    assert(r.as_map()[*k1] == w);
                }
                r
            } else {
                let r = join(*k1, a.clone(), *k2, b.clone(), Ghost(-1), Ghost(-1));
                proof {
                    lemma_union_of_separated(a, b, &r, Ghost(*op));
                }
                r
            }
        },
        (
            Node::Leaf { key: k1, value: _ },
            Node::Branch { prefix: p2, bit: b2, left: l2, right: r2 },
        ) => {
            proof {
                crate::bits::lemma_bit01(*k1 >> *b2);
                assert(rc_map(b).dom() =~= l2.as_map().dom() + r2.as_map().dom());
            }
            if (*k1 >> *b2) >> 1 == *p2 {
                if (*k1 >> *b2) & 1 == 0 {
                    let nl = union_nodes(a, l2, op);
                    let r = Rc::new(
                        Node::Branch { prefix: *p2, bit: *b2, left: nl, right: r2.clone() },
                    );
                    proof {
                        lemma_union_into_other_left(a, b, l2, r2, &nl, &r, Ghost(*op));
                    }
                    r
                } else {
                    let nr = union_nodes(a, r2, op);
                    let r = Rc::new(
                        Node::Branch { prefix: *p2, bit: *b2, left: l2.clone(), right: nr },
                    );
                    proof {
                        lemma_union_into_other_right(a, b, l2, r2, &nr, &r, Ghost(*op));
                    }
                    r
                }
            } else {
                proof {
                    if *b2 == 63 {
                        lemma_no_bits_above_top(*k1);
                        lemma_no_bits_above_top(rep_key(*p2, *b2));
                        assert(false);
                    }
                }
                let rep = (*p2 << 1) << *b2;
                let r = join(*k1, a.clone(), rep, b.clone(), Ghost(-1), Ghost(*b2 as int));
                proof {
                    lemma_union_of_separated(a, b, &r, Ghost(*op));
                }
                r
            }
        },
        (
            Node::Branch { prefix: p1, bit: b1, left: l1, right: r1 },
            Node::Leaf { key: k2, value: _ },
        ) => {
            proof {
                crate::bits::lemma_bit01(*k2 >> *b1);
                assert(rc_map(a).dom() =~= l1.as_map().dom() + r1.as_map().dom());
            }
            if (*k2 >> *b1) >> 1 == *p1 {
                if (*k2 >> *b1) & 1 == 0 {
                    let nl = union_nodes(l1, b, op);
                    let r = Rc::new(
                        Node::Branch { prefix: *p1, bit: *b1, left: nl, right: r1.clone() },
                    );
                    proof {
                        lemma_union_into_own_left(a, b, l1, r1, &nl, &r, Ghost(*op));
                    }
                    r
                } else {
                    let nr = union_nodes(r1, b, op);
                    let r = Rc::new(
                        Node::Branch { prefix: *p1, bit: *b1, left: l1.clone(), right: nr },
                    );
                    proof {
                        lemma_union_into_own_right(a, b, l1, r1, &nr, &r, Ghost(*op));
                    }
                    r
                }
            } else {
                proof {
                    if *b1 == 63 {
                        lemma_no_bits_above_top(*k2);
                        lemma_no_bits_above_top(rep_key(*p1, *b1));
                        assert(false);
                    }
                }
                let rep = (*p1 << 1) << *b1;
                let r = join(rep, a.clone(), *k2, b.clone(), Ghost(*b1 as int), Ghost(-1));
                proof {
                    lemma_union_of_separated(a, b, &r, Ghost(*op));
                }
                r
            }
        },
        (
            Node::Branch { prefix: p1, bit: b1, left: l1, right: r1 },
            Node::Branch { prefix: p2, bit: b2, left: l2, right: r2 },
        ) => {
            proof {
                assert(rc_map(a).dom() =~= l1.as_map().dom() + r1.as_map().dom());
                assert(rc_map(b).dom() =~= l2.as_map().dom() + r2.as_map().dom());
            }
            if *b1 == *b2 && *p1 == *p2 {
                let nl = union_nodes(l1, l2, op);
                let nr = union_nodes(r1, r2, op);
                let r = Rc::new(Node::Branch { prefix: *p1, bit: *b1, left: nl, right: nr });
                proof {
                    assert(r.as_map().dom() =~= rc_map(a).dom() + rc_map(b).dom());
                    assert forall|k: u64| #[trigger]
                        r.as_map().dom().contains(k) implies crate::map::union_point(
                        rc_map(a),
                        rc_map(b),
                        *op,
                        k,
                        r.as_map()[k],
                    ) by {
                        if nl.as_map().dom().contains(k) {
                            assert(!nr.as_map().dom().contains(k));
                            assert(r.as_map()[k] == nl.as_map()[k]);
                            assert(!r1.as_map().dom().contains(k));
                            assert(!r2.as_map().dom().contains(k));
                            assert(rc_map(a).dom().contains(k) == rc_map(l1).dom().contains(k));
                            assert(rc_map(b).dom().contains(k) == rc_map(l2).dom().contains(k));
                            if rc_map(l1).dom().contains(k) {
                                assert(rc_map(a)[k] == rc_map(l1)[k]);
                            }
                            if rc_map(l2).dom().contains(k) {
                                assert(rc_map(b)[k] == rc_map(l2)[k]);
                            }
                        } else {
                            assert(nr.as_map().dom().contains(k));
                            assert(r.as_map()[k] == nr.as_map()[k]);
                            assert(!l1.as_map().dom().contains(k));
                            assert(!l2.as_map().dom().contains(k));
                            if rc_map(r1).dom().contains(k) {
                                assert(rc_map(a)[k] == rc_map(r1)[k]);
                            }
                            if rc_map(r2).dom().contains(k) {
                                assert(rc_map(b)[k] == rc_map(r2)[k]);
                            }
                        }
                    }
                }
                r
            } else {
                let rep1 = (*p1 << 1) << *b1;
                let rep2 = (*p2 << 1) << *b2;
                if *b2 < *b1 && (rep2 >> *b1) >> 1 == *p1 {
                    proof {
                        crate::bits::lemma_bit01(rep2 >> *b1);
                        assert forall|k: u64| #[trigger]
                            rc_map(b).dom().contains(k) implies bits_above(k, *b1) == *p1
                            && bit_set(k, *b1) == bit_set(rep2, *b1) by {
                            lemma_above_lift(k, rep2, *b2, *b1);
                        }
                    }
                    if (rep2 >> *b1) & 1 == 0 {
                        let nl = union_nodes(l1, b, op);
                        let r = Rc::new(
                            Node::Branch { prefix: *p1, bit: *b1, left: nl, right: r1.clone() },
                        );
                        proof {
                            lemma_union_into_own_left(a, b, l1, r1, &nl, &r, Ghost(*op));
                        }
                        r
                    } else {
                        let nr = union_nodes(r1, b, op);
                        let r = Rc::new(
                            Node::Branch { prefix: *p1, bit: *b1, left: l1.clone(), right: nr },
                        );
                        proof {
                            lemma_union_into_own_right(a, b, l1, r1, &nr, &r, Ghost(*op));
                        }
                        r
                    }
                } else if *b1 < *b2 && (rep1 >> *b2) >> 1 == *p2 {
                    proof {
                        crate::bits::lemma_bit01(rep1 >> *b2);
                        assert forall|k: u64| #[trigger]
                            rc_map(a).dom().contains(k) implies bits_above(k, *b2) == *p2
                            && bit_set(k, *b2) == bit_set(rep1, *b2) by {
                            lemma_above_lift(k, rep1, *b1, *b2);
                        }
                    }
                    if (rep1 >> *b2) & 1 == 0 {
                        let nl = union_nodes(a, l2, op);
                        let r = Rc::new(
                            Node::Branch { prefix: *p2, bit: *b2, left: nl, right: r2.clone() },
                        );
                        proof {
                            lemma_union_into_other_left(a, b, l2, r2, &nl, &r, Ghost(*op));
                        }
                        r
                    } else {
                        let nr = union_nodes(a, r2, op);
                        let r = Rc::new(
                            Node::Branch { prefix: *p2, bit: *b2, left: l2.clone(), right: nr },
                        );
                        proof {
                            lemma_union_into_other_right(a, b, l2, r2, &nr, &r, Ghost(*op));
                        }
                        r
                    }
                } else {
                    proof {
                        lemma_branch_reps_separated(*p1, *b1, *p2, *b2);
                    }
                    let r = join(
                        rep1,
                        a.clone(),
                        rep2,
                        b.clone(),
                        Ghost(*b1 as int),
                        Ghost(*b2 as int),
                    );
                    proof {
                        lemma_union_of_separated(a, b, &r, Ghost(*op));
                    }
                    r
                }
            }
        },
    }
}

/// In the separated case of a merge of two branches, neither prefix extends
/// the other, so the two representative keys differ above both branching
/// positions, and neither position is the top one.
proof fn lemma_branch_reps_separated(p1: u64, b1: u64, p2: u64, b2: u64)
    requires
        b1 < 64,
        b2 < 64,
        p1 == bits_above(rep_key(p1, b1), b1),
        p2 == bits_above(rep_key(p2, b2), b2),
        !(b1 == b2 && p1 == p2),
        !(b2 < b1 && bits_above(rep_key(p2, b2), b1) == p1),
        !(b1 < b2 && bits_above(rep_key(p1, b1), b2) == p2),
    ensures
        b1 < 63,
        b2 < 63,
        !agrees_above(rep_key(p1, b1), rep_key(p2, b2), b1 as int),
        !agrees_above(rep_key(p1, b1), rep_key(p2, b2), b2 as int),
{
    let rep1 = rep_key(p1, b1);
    let rep2 = rep_key(p2, b2);
    lemma_no_bits_above_top(rep1);
    lemma_no_bits_above_top(rep2);
    if b1 == 63 && b2 == 63 {
        assert(false);
    }
    if b1 == 63 && b2 < 63 {
        assert(bits_above(rep2, b1) == p1);
        assert(false);
    }
    if b2 == 63 && b1 < 63 {
        assert(bits_above(rep1, b2) == p2);
        assert(false);
    }
    if b1 == b2 {
        assert(bits_above(rep1, b1) != bits_above(rep2, b1));
    } else if b2 < b1 {
        assert(bits_above(rep1, b1) != bits_above(rep2, b1));
        crate::bits::lemma_diff_down(rep1, rep2, b2, b1);
    } else {
        assert(bits_above(rep1, b2) != bits_above(rep2, b2));
        crate::bits::lemma_diff_down(rep1, rep2, b1, b2);
    }
}

/// A union of two trees with disjoint key sets keeps each entry unchanged.
proof fn lemma_union_of_separated<V, F: Fn(&V, &V) -> V>(
    a: &Rc<Node<V>>,
    b: &Rc<Node<V>>,
    r: &Rc<Node<V>>,
    op: Ghost<F>,
)
    requires
        rc_map(a).dom().disjoint(rc_map(b).dom()),
        rc_map(r) == rc_map(a).union_prefer_right(rc_map(b)),
    ensures
        rc_map(r).dom() == rc_map(a).dom() + rc_map(b).dom(),
        forall|k: u64| #[trigger]
            rc_map(r).dom().contains(k) ==> crate::map::union_point(
                rc_map(a),
                rc_map(b),
                op@,
                k,
                rc_map(r)[k],
            ),
{
    assert(rc_map(r).dom() =~= rc_map(a).dom() + rc_map(b).dom());
    assert forall|k: u64| #[trigger] rc_map(r).dom().contains(k) implies crate::map::union_point(
        rc_map(a),
        rc_map(b),
        op@,
        k,
        rc_map(r)[k],
    ) by {
        if rc_map(b).dom().contains(k) {
            assert(!rc_map(a).dom().contains(k));
            assert(rc_map(r)[k] == rc_map(b)[k]);
        } else {
            assert(rc_map(r)[k] == rc_map(a)[k]);
        }
    }
}

/// Pointwise facts for a merge that went into the left child of the second
/// branch: the rebuilt branch `r` holds the union of `a` and `b`.
proof fn lemma_union_into_other_left<V, F: Fn(&V, &V) -> V>(
    a: &Rc<Node<V>>,
    b: &Rc<Node<V>>,
    lb: &Rc<Node<V>>,
    rb: &Rc<Node<V>>,
    nl: &Rc<Node<V>>,
    r: &Rc<Node<V>>,
    op: Ghost<F>,
)
    requires
        rc_map(b).dom() == rc_map(lb).dom() + rc_map(rb).dom(),
        rc_map(lb).dom().disjoint(rc_map(rb).dom()),
        forall|k: u64| #[trigger]
            rc_map(b).dom().contains(k) ==> rc_map(b)[k] == (if rc_map(rb).dom().contains(k) {
                rc_map(rb)[k]
            } else {
                rc_map(lb)[k]
            }),
        forall|k: u64| #[trigger] rc_map(a).dom().contains(k) ==> !rc_map(rb).dom().contains(k),
        rc_map(r) == rc_map(nl).union_prefer_right(rc_map(rb)),
        rc_map(nl).dom() == rc_map(a).dom() + rc_map(lb).dom(),
        forall|k: u64| #[trigger]
            rc_map(nl).dom().contains(k) ==> crate::map::union_point(
                rc_map(a),
                rc_map(lb),
                op@,
                k,
                rc_map(nl)[k],
            ),
    ensures
        rc_map(r).dom() == rc_map(a).dom() + rc_map(b).dom(),
        forall|k: u64| #[trigger]
            rc_map(r).dom().contains(k) ==> crate::map::union_point(
                rc_map(a),
                rc_map(b),
                op@,
                k,
                rc_map(r)[k],
            ),
{
    assert(rc_map(r).dom() =~= rc_map(a).dom() + rc_map(b).dom());
    assert forall|k: u64| #[trigger] rc_map(r).dom().contains(k) implies crate::map::union_point(
        rc_map(a),
        rc_map(b),
        op@,
        k,
        rc_map(r)[k],
    ) by {
        if rc_map(rb).dom().contains(k) {
            assert(rc_map(r)[k] == rc_map(rb)[k]);
            assert(rc_map(b)[k] == rc_map(rb)[k]);
            assert(!rc_map(a).dom().contains(k));
        } else {
            assert(rc_map(nl).dom().contains(k));
            assert(rc_map(r)[k] == rc_map(nl)[k]);
            assert(rc_map(b).dom().contains(k) == rc_map(lb).dom().contains(k));
            if rc_map(lb).dom().contains(k) {
                assert(rc_map(b)[k] == rc_map(lb)[k]);
            }
        }
    }
}

/// Pointwise facts for a merge that went into the right child of the second
/// branch.
proof fn lemma_union_into_other_right<V, F: Fn(&V, &V) -> V>(
    a: &Rc<Node<V>>,
    b: &Rc<Node<V>>,
    lb: &Rc<Node<V>>,
    rb: &Rc<Node<V>>,
    nr: &Rc<Node<V>>,
    r: &Rc<Node<V>>,
    op: Ghost<F>,
)
    requires
        rc_map(b).dom() == rc_map(lb).dom() + rc_map(rb).dom(),
        rc_map(lb).dom().disjoint(rc_map(rb).dom()),
        forall|k: u64| #[trigger]
            rc_map(b).dom().contains(k) ==> rc_map(b)[k] == (if rc_map(rb).dom().contains(k) {
                rc_map(rb)[k]
            } else {
                rc_map(lb)[k]
            }),
        forall|k: u64| #[trigger] rc_map(a).dom().contains(k) ==> !rc_map(lb).dom().contains(k),
        rc_map(r) == rc_map(lb).union_prefer_right(rc_map(nr)),
        rc_map(nr).dom() == rc_map(a).dom() + rc_map(rb).dom(),
        forall|k: u64| #[trigger]
            rc_map(nr).dom().contains(k) ==> crate::map::union_point(
                rc_map(a),
                rc_map(rb),
                op@,
                k,
                rc_map(nr)[k],
            ),
    ensures
        rc_map(r).dom() == rc_map(a).dom() + rc_map(b).dom(),
        forall|k: u64| #[trigger]
            rc_map(r).dom().contains(k) ==> crate::map::union_point(
                rc_map(a),
                rc_map(b),
                op@,
                k,
                rc_map(r)[k],
            ),
{
    assert(rc_map(r).dom() =~= rc_map(a).dom() + rc_map(b).dom());
    assert forall|k: u64| #[trigger] rc_map(r).dom().contains(k) implies crate::map::union_point(
        rc_map(a),
        rc_map(b),
        op@,
        k,
        rc_map(r)[k],
    ) by {
        if rc_map(nr).dom().contains(k) {
            assert(rc_map(r)[k] == rc_map(nr)[k]);
            assert(rc_map(b).dom().contains(k) == rc_map(rb).dom().contains(k));
            if rc_map(rb).dom().contains(k) {
                assert(rc_map(b)[k] == rc_map(rb)[k]);
            }
        } else {
            assert(rc_map(lb).dom().contains(k));
            assert(rc_map(r)[k] == rc_map(lb)[k]);
            assert(rc_map(b)[k] == rc_map(lb)[k]);
            assert(!rc_map(a).dom().contains(k));
        }
    }
}

/// Pointwise facts for a merge that went into the left child of the first
/// branch.
proof fn lemma_union_into_own_left<V, F: Fn(&V, &V) -> V>(
    a: &Rc<Node<V>>,
    b: &Rc<Node<V>>,
    la: &Rc<Node<V>>,
    ra: &Rc<Node<V>>,
    nl: &Rc<Node<V>>,
    r: &Rc<Node<V>>,
    op: Ghost<F>,
)
    requires
        rc_map(a).dom() == rc_map(la).dom() + rc_map(ra).dom(),
        rc_map(la).dom().disjoint(rc_map(ra).dom()),
        forall|k: u64| #[trigger]
            rc_map(a).dom().contains(k) ==> rc_map(a)[k] == (if rc_map(ra).dom().contains(k) {
                rc_map(ra)[k]
            } else {
                rc_map(la)[k]
            }),
        forall|k: u64| #[trigger] rc_map(b).dom().contains(k) ==> !rc_map(ra).dom().contains(k),
        rc_map(r) == rc_map(nl).union_prefer_right(rc_map(ra)),
        rc_map(nl).dom() == rc_map(la).dom() + rc_map(b).dom(),
        forall|k: u64| #[trigger]
            rc_map(nl).dom().contains(k) ==> crate::map::union_point(
                rc_map(la),
                rc_map(b),
                op@,
                k,
                rc_map(nl)[k],
            ),
    ensures
        rc_map(r).dom() == rc_map(a).dom() + rc_map(b).dom(),
        forall|k: u64| #[trigger]
            rc_map(r).dom().contains(k) ==> crate::map::union_point(
                rc_map(a),
                rc_map(b),
                op@,
                k,
                rc_map(r)[k],
            ),
{
    assert(rc_map(r).dom() =~= rc_map(a).dom() + rc_map(b).dom());
    assert forall|k: u64| #[trigger] rc_map(r).dom().contains(k) implies crate::map::union_point(
        rc_map(a),
        rc_map(b),
        op@,
        k,
        rc_map(r)[k],
    ) by {
        if rc_map(ra).dom().contains(k) {
            assert(rc_map(r)[k] == rc_map(ra)[k]);
            assert(rc_map(a)[k] == rc_map(ra)[k]);
            assert(!rc_map(b).dom().contains(k));
        } else {
            assert(rc_map(nl).dom().contains(k));
            assert(rc_map(r)[k] == rc_map(nl)[k]);
            assert(rc_map(a).dom().contains(k) == rc_map(la).dom().contains(k));
            if rc_map(la).dom().contains(k) {
                assert(rc_map(a)[k] == rc_map(la)[k]);
            }
        }
    }
}

/// Pointwise facts for a merge that went into the right child of the first
/// branch.
proof fn lemma_union_into_own_right<V, F: Fn(&V, &V) -> V>(
    a: &Rc<Node<V>>,
    b: &Rc<Node<V>>,
    la: &Rc<Node<V>>,
    ra: &Rc<Node<V>>,
    nr: &Rc<Node<V>>,
    r: &Rc<Node<V>>,
    op: Ghost<F>,
)
    requires
        rc_map(a).dom() == rc_map(la).dom() + rc_map(ra).dom(),
        rc_map(la).dom().disjoint(rc_map(ra).dom()),
        forall|k: u64| #[trigger]
            rc_map(a).dom().contains(k) ==> rc_map(a)[k] == (if rc_map(ra).dom().contains(k) {
                rc_map(ra)[k]
            } else {
                rc_map(la)[k]
            }),
        forall|k: u64| #[trigger] rc_map(b).dom().contains(k) ==> !rc_map(la).dom().contains(k),
        rc_map(r) == rc_map(la).union_prefer_right(rc_map(nr)),
        rc_map(nr).dom() == rc_map(ra).dom() + rc_map(b).dom(),
        forall|k: u64| #[trigger]
            rc_map(nr).dom().contains(k) ==> crate::map::union_point(
                rc_map(ra),
                rc_map(b),
                op@,
                k,
                rc_map(nr)[k],
            ),
    ensures
        rc_map(r).dom() == rc_map(a).dom() + rc_map(b).dom(),
        forall|k: u64| #[trigger]
            rc_map(r).dom().contains(k) ==> crate::map::union_point(
                rc_map(a),
                rc_map(b),
                op@,
                k,
                rc_map(r)[k],
            ),
{
    assert(rc_map(r).dom() =~= rc_map(a).dom() + rc_map(b).dom());
    assert forall|k: u64| #[trigger] rc_map(r).dom().contains(k) implies crate::map::union_point(
        rc_map(a),
        rc_map(b),
        op@,
        k,
        rc_map(r)[k],
    ) by {
        if rc_map(nr).dom().contains(k) {
            assert(rc_map(r)[k] == rc_map(nr)[k]);
            assert(rc_map(a).dom().contains(k) == rc_map(ra).dom().contains(k));
            if rc_map(ra).dom().contains(k) {
                assert(rc_map(a)[k] == rc_map(ra)[k]);
            }
        } else {
            assert(rc_map(la).dom().contains(k));
            assert(rc_map(r)[k] == rc_map(la)[k]);
            assert(rc_map(a)[k] == rc_map(la)[k]);
            assert(!rc_map(b).dom().contains(k));
        }
    }
}

/// Intersect two trees: only keys present in both survive, each mapped to
/// `op(left value, right value)`; pointer-identical subtrees are reused
/// whole without calling `op`. `None` is the empty result.
pub(crate) fn intersect_nodes<V, F: Fn(&V, &V) -> V>(a: &Rc<Node<V>>, b: &Rc<Node<V>>, op: &F) -> (
    r: Option<Rc<Node<V>>>)
    requires
        a.wf(),
        b.wf(),
        forall|x: &V, y: &V| call_requires(*op, (x, y)),
    ensures
        (match r {
            Some(m) => m.wf(),
            None => true,
        }),
        opt_as_map(r).dom() == rc_map(a).dom().intersect(rc_map(b).dom()),
        forall|k: u64| #[trigger]
            opt_as_map(r).dom().contains(k) ==> crate::map::intersect_point(
                rc_map(a),
                rc_map(b),
                *op,
                k,
                opt_as_map(r)[k],
            ),
    decreases a, b,
{
    if same_node(a, b) {
        let r = a.clone();
        proof {
            assert(r.as_map().dom() =~= rc_map(a).dom().intersect(rc_map(b).dom()));
        }
        return Some(r);
    }
    match (&**a, &**b) {
        (Node::Leaf { key: k1, value: v1 }, _) => {
            match b.lookup(*k1) {
                Some(v2) => {
                    let w = op(v1, v2);
                    let r = Rc::new(Node::Leaf { key: *k1, value: w });
                    proof {
                        assert(r.as_map().dom() =~= rc_map(a).dom().intersect(rc_map(b).dom()));
                        assert(r.as_map()[*k1] == w);
                    }
                    Some(r)
                },
                None => {
                    proof {
                        assert(Map::<u64, V>::empty().dom() =~= rc_map(a).dom().intersect(
                            rc_map(b).dom(),
                        ));
                    }
                    None
                },
            }
        },
        (Node::Branch { prefix: p1, bit: b1, left: l1, right: r1 }, Node::Leaf { key: k2, value: v2 }) => {
            match a.lookup(*k2) {
                Some(v1) => {
                    let w = op(v1, v2);
                    let r = Rc::new(Node::Leaf { key: *k2, value: w });
                    proof {
                        assert(r.as_map().dom() =~= rc_map(a).dom().intersect(rc_map(b).dom()));
                        assert(r.as_map()[*k2] == w);
                    }
                    Some(r)
                },
                None => {
                    proof {
                        assert(Map::<u64, V>::empty().dom() =~= rc_map(a).dom().intersect(
                            rc_map(b).dom(),
                        ));
                    }
                    None
                },
            }
        },
        (
            Node::Branch { prefix: p1, bit: b1, left: l1, right: r1 },
            Node::Branch { prefix: p2, bit: b2, left: l2, right: r2 },
        ) => {
            proof {
                assert(rc_map(a).dom() =~= l1.as_map().dom() + r1.as_map().dom());
                assert(rc_map(b).dom() =~= l2.as_map().dom() + r2.as_map().dom());
            }
            if *b1 == *b2 && *p1 == *p2 {
                let rl = intersect_nodes(l1, l2, op);
                let rr = intersect_nodes(r1, r2, op);
                proof {
                    assert forall|k: u64|
                        rc_map(a).dom().contains(k) && rc_map(b).dom().contains(k) implies (
                    opt_as_map(rl).dom().contains(k) || opt_as_map(rr).dom().contains(k)) by {
                        if l1.as_map().dom().contains(k) {
                            assert(!r2.as_map().dom().contains(k));
                            assert(l2.as_map().dom().contains(k));
                        } else {
                            assert(r1.as_map().dom().contains(k));
                            assert(!l2.as_map().dom().contains(k));
                            assert(r2.as_map().dom().contains(k));
                        }
                    }
                }
                match (rl, rr) {
                    (None, None) => {
                        proof {
                            assert(Map::<u64, V>::empty().dom() =~= rc_map(a).dom().intersect(
                                rc_map(b).dom(),
                            ));
                        }
                        None
                    },
                    (Some(x), None) => {
                        proof {
                            assert(x.as_map().dom() =~= rc_map(a).dom().intersect(
                                rc_map(b).dom(),
                            ));
                            assert forall|k: u64| #[trigger]
                                x.as_map().dom().contains(k) implies crate::map::intersect_point(
                                rc_map(a),
                                rc_map(b),
                                *op,
                                k,
                                x.as_map()[k],
                            ) by {
                                assert(rc_map(a)[k] == rc_map(l1)[k]);
                                assert(rc_map(b)[k] == rc_map(l2)[k]);
                            }
                        }
                        Some(x)
                    },
                    (None, Some(y)) => {
                        proof {
                            assert(y.as_map().dom() =~= rc_map(a).dom().intersect(
                                rc_map(b).dom(),
                            ));
                            assert forall|k: u64| #[trigger]
                                y.as_map().dom().contains(k) implies crate::map::intersect_point(
                                rc_map(a),
                                rc_map(b),
                                *op,
                                k,
                                y.as_map()[k],
                            ) by {
                                assert(rc_map(a)[k] == rc_map(r1)[k]);
                                assert(rc_map(b)[k] == rc_map(r2)[k]);
                            }
                        }
                        Some(y)
                    },
                    (Some(x), Some(y)) => {
                        let r = Rc::new(Node::Branch { prefix: *p1, bit: *b1, left: x, right: y });
                        proof {
                            assert(r.as_map().dom() =~= rc_map(a).dom().intersect(
                                rc_map(b).dom(),
                            ));
                            assert forall|k: u64| #[trigger]
                                r.as_map().dom().contains(k) implies crate::map::intersect_point(
                                rc_map(a),
                                rc_map(b),
                                *op,
                                k,
                                r.as_map()[k],
                            ) by {
                                if l1.as_map().dom().contains(k) {
                                    assert(rc_map(a)[k] == rc_map(l1)[k]);
                                    assert(rc_map(b)[k] == rc_map(l2)[k]);
                                } else {
                                    assert(rc_map(a)[k] == rc_map(r1)[k]);
                                    assert(rc_map(b)[k] == rc_map(r2)[k]);
                                }
                            }
                        }
                        Some(r)
                    },
                }
            } else {
                let rep1 = (*p1 << 1) << *b1;
                let rep2 = (*p2 << 1) << *b2;
                if *b2 < *b1 && (rep2 >> *b1) >> 1 == *p1 {
                    proof {
                        crate::bits::lemma_bit01(rep2 >> *b1);
                        assert forall|k: u64| #[trigger]
                            rc_map(b).dom().contains(k) implies bits_above(k, *b1) == *p1
                            && bit_set(k, *b1) == bit_set(rep2, *b1) by {
                            lemma_above_lift(k, rep2, *b2, *b1);
                        }
                    }
                    let r = if (rep2 >> *b1) & 1 == 0 {
                        intersect_nodes(l1, b, op)
                    } else {
                        intersect_nodes(r1, b, op)
                    };
                    proof {
                        assert(opt_as_map(r).dom() =~= rc_map(a).dom().intersect(
                            rc_map(b).dom(),
                        ));
                        assert forall|k: u64| #[trigger]
                            opt_as_map(r).dom().contains(k) implies crate::map::intersect_point(
                            rc_map(a),
                            rc_map(b),
                            *op,
                            k,
                            opt_as_map(r)[k],
                        ) by {
                            if l1.as_map().dom().contains(k) {
                                assert(rc_map(a)[k] == rc_map(l1)[k]);
                            } else {
                                assert(rc_map(a)[k] == rc_map(r1)[k]);
                            }
                        }
                    }
                    r
                } else if *b1 < *b2 && (rep1 >> *b2) >> 1 == *p2 {
                    proof {
                        crate::bits::lemma_bit01(rep1 >> *b2);
                        assert forall|k: u64| #[trigger]
                            rc_map(a).dom().contains(k) implies bits_above(k, *b2) == *p2
                            && bit_set(k, *b2) == bit_set(rep1, *b2) by {
                            lemma_above_lift(k, rep1, *b1, *b2);
                        }
                    }
                    let r = if (rep1 >> *b2) & 1 == 0 {
                        intersect_nodes(a, l2, op)
                    } else {
                        intersect_nodes(a, r2, op)
                    };
                    proof {
                        assert(opt_as_map(r).dom() =~= rc_map(a).dom().intersect(
                            rc_map(b).dom(),
                        ));
                        assert forall|k: u64| #[trigger]
                            opt_as_map(r).dom().contains(k) implies crate::map::intersect_point(
                            rc_map(a),
                            rc_map(b),
                            *op,
                            k,
                            opt_as_map(r)[k],
                        ) by {
                            if l2.as_map().dom().contains(k) {
                                assert(rc_map(b)[k] == rc_map(l2)[k]);
                            } else {
                                assert(rc_map(b)[k] == rc_map(r2)[k]);
                            }
                        }
                    }
                    r
                } else {
                    proof {
                        lemma_branch_reps_separated(*p1, *b1, *p2, *b2);
                        assert forall|k: u64| #[trigger]
                            rc_map(a).dom().contains(k) implies !rc_map(b).dom().contains(k) by {
                            if rc_map(b).dom().contains(k) {
                                assert(bits_above(k, *b1) == *p1);
                                assert(bits_above(k, *b2) == *p2);
                                if *b1 < *b2 {
                                    lemma_above_lift(k, rep1, *b1, *b2);
                                } else if *b2 < *b1 {
                                    lemma_above_lift(k, rep2, *b2, *b1);
                                }
                                assert(false);
                            }
                        }
                        assert(Map::<u64, V>::empty().dom() =~= rc_map(a).dom().intersect(
                            rc_map(b).dom(),
                        ));
                    }
                    None
                }
            }
        },
    }
}

/// Test `op(v, dflt)` for every value stored in `n`, stopping at the first
/// failure.
pub(crate) fn all_values_leq<V, F: Fn(&V, &V) -> bool>(n: &Node<V>, dflt: &V, op: &F) -> (r: bool)
    requires
        n.wf(),
        forall|x: &V, y: &V| call_requires(*op, (x, y)),
    ensures
        r ==> forall|k: u64| #[trigger]
            n.as_map().dom().contains(k) ==> call_ensures(*op, (&n.as_map()[k], dflt), true),
        !r ==> exists|k: u64|
            #[trigger] n.as_map().dom().contains(k) && call_ensures(
                *op,
                (&n.as_map()[k], dflt),
                false,
            ),
    decreases n,
{
    match n {
        Node::Leaf { key, value } => {
            let r = op(value, dflt);
            proof {
                if !r {
                    assert(n.as_map().dom().contains(*key));
                    assert(n.as_map()[*key] == *value);
                    assert(call_ensures(*op, (&n.as_map()[*key], dflt), false));
                }
            }
            r
        },
        Node::Branch { prefix, bit, left, right } => {
            proof {
                assert(n.as_map().dom() =~= left.as_map().dom() + right.as_map().dom());
            }
            let rl = all_values_leq(&**left, dflt, op);
            if rl {
                let rr = all_values_leq(&**right, dflt, op);
                proof {
                    assert forall|k: u64| #[trigger]
                        n.as_map().dom().contains(k) && rr implies call_ensures(
                        *op,
                        (&n.as_map()[k], dflt),
                        true,
                    ) by {
                        if left.as_map().dom().contains(k) {
                            assert(n.as_map()[k] == left.as_map()[k]);
                        } else {
                            assert(n.as_map()[k] == right.as_map()[k]);
                        }
                    }
                    if !rr {
                        let k = choose|k: u64|
                            #[trigger] right.as_map().dom().contains(k) && call_ensures(
                                *op,
                                (&right.as_map()[k], dflt),
                                false,
                            );
                        assert(n.as_map().dom().contains(k) && call_ensures(
                            *op,
                            (&n.as_map()[k], dflt),
                            false,
                        ));
                    }
                }
                rr
            } else {
                proof {
                    let k = choose|k: u64|
                        #[trigger] left.as_map().dom().contains(k) && call_ensures(
                            *op,
                            (&left.as_map()[k], dflt),
                            false,
                        );
                    assert(n.as_map().dom().contains(k) && call_ensures(
                        *op,
                        (&n.as_map()[k], dflt),
                        false,
                    ));
                }
                false
            }
        },
    }
}

/// Test `op(dflt, v)` for every value stored in `n`, stopping at the first
/// failure.
pub(crate) fn all_values_geq<V, F: Fn(&V, &V) -> bool>(n: &Node<V>, dflt: &V, op: &F) -> (r: bool)
    requires
        n.wf(),
        forall|x: &V, y: &V| call_requires(*op, (x, y)),
    ensures
        r ==> forall|k: u64| #[trigger]
            n.as_map().dom().contains(k) ==> call_ensures(*op, (dflt, &n.as_map()[k]), true),
        !r ==> exists|k: u64|
            #[trigger] n.as_map().dom().contains(k) && call_ensures(
                *op,
                (dflt, &n.as_map()[k]),
                false,
            ),
    decreases n,
{
    match n {
        Node::Leaf { key, value } => {
            let r = op(dflt, value);
            proof {
                if !r {
                    assert(n.as_map().dom().contains(*key));
                    assert(n.as_map()[*key] == *value);
                    assert(call_ensures(*op, (dflt, &n.as_map()[*key]), false));
                }
            }
            r
        },
        Node::Branch { prefix, bit, left, right } => {
            proof {
                assert(n.as_map().dom() =~= left.as_map().dom() + right.as_map().dom());
            }
            let rl = all_values_geq(&**left, dflt, op);
            if rl {
                let rr = all_values_geq(&**right, dflt, op);
                proof {
                    assert forall|k: u64| #[trigger]
                        n.as_map().dom().contains(k) && rr implies call_ensures(
                        *op,
                        (dflt, &n.as_map()[k]),
                        true,
                    ) by {
                        if left.as_map().dom().contains(k) {
                            assert(n.as_map()[k] == left.as_map()[k]);
                        } else {
                            assert(n.as_map()[k] == right.as_map()[k]);
                        }
                    }
                    if !rr {
                        let k = choose|k: u64|
                            #[trigger] right.as_map().dom().contains(k) && call_ensures(
                                *op,
                                (dflt, &right.as_map()[k]),
                                false,
                            );
                        assert(n.as_map().dom().contains(k) && call_ensures(
                            *op,
                            (dflt, &n.as_map()[k]),
                            false,
                        ));
                    }
                }
                rr
            } else {
                proof {
                    let k = choose|k: u64|
                        #[trigger] left.as_map().dom().contains(k) && call_ensures(
                            *op,
                            (dflt, &left.as_map()[k]),
                            false,
                        );
                    assert(n.as_map().dom().contains(k) && call_ensures(
                        *op,
                        (dflt, &n.as_map()[k]),
                        false,
                    ));
                }
                false
            }
        },
    }
}

/// Pointwise order test over two trees: for every key of either side, `op`
/// must accept the pair of stored values, an absent side standing in as
/// `dflt`. Pointer-identical subtrees short-circuit to true without calling
/// `op`, which is sound when `op` is reflexive.
pub(crate) fn leq_nodes<V, F: Fn(&V, &V) -> bool>(
    a: &Rc<Node<V>>,
    b: &Rc<Node<V>>,
    dflt: &V,
    op: &F,
) -> (r: bool)
    requires
        a.wf(),
        b.wf(),
        forall|x: &V, y: &V| call_requires(*op, (x, y)),
    ensures
        r ==> forall|k: u64|
            rc_map(a).dom().contains(k) || rc_map(b).dom().contains(k) ==> #[trigger] leq_point(
                rc_map(a),
                rc_map(b),
                *dflt,
                *op,
                k,
                true,
            ) || entry_or(rc_map(a), k, *dflt) == entry_or(rc_map(b), k, *dflt),
        !r ==> exists|k: u64|
            (rc_map(a).dom().contains(k) || rc_map(b).dom().contains(k)) && #[trigger] leq_point(
                rc_map(a),
                rc_map(b),
                *dflt,
                *op,
                k,
                false,
            ),
    decreases a, b,
{
    let ghost ma = rc_map(a);
    let ghost mb = rc_map(b);
    if same_node(a, b) {
        return true;
    }
    match (&**a, &**b) {
        (Node::Leaf { key: k1, value: v1 }, Node::Leaf { key: k2, value: v2 }) => {
            if *k1 == *k2 {
                let res = op(v1, v2);
                proof {
                    assert(entry_or(ma, *k1, *dflt) == *v1 && entry_or(mb, *k1, *dflt) == *v2);
                    assert(leq_point(ma, mb, *dflt, *op, *k1, res));
                }
                res
            } else {
                let res1 = op(v1, dflt);
                proof {
                    assert(!mb.dom().contains(*k1));
                    assert(entry_or(ma, *k1, *dflt) == *v1 && entry_or(mb, *k1, *dflt) == *dflt);
                    assert(leq_point(ma, mb, *dflt, *op, *k1, res1));
                }
                if !res1 {
                    return false;
                }
                let res2 = op(dflt, v2);
                proof {
                    assert(!ma.dom().contains(*k2));
                    assert(entry_or(ma, *k2, *dflt) == *dflt && entry_or(mb, *k2, *dflt) == *v2);
                    assert(leq_point(ma, mb, *dflt, *op, *k2, res2));
                }
                res2
            }
        },
        (
            Node::Leaf { key: k1, value: v1 },
            Node::Branch { prefix: p2, bit: b2, left: l2, right: r2 },
        ) => {
            proof {
                crate::bits::lemma_bit01(*k1 >> *b2);
                assert(mb.dom() =~= l2.as_map().dom() + r2.as_map().dom());
            }
            if (*k1 >> *b2) >> 1 == *p2 {
                if (*k1 >> *b2) & 1 == 0 {
                    let rs = leq_nodes(a, l2, dflt, op);
                    proof {
                        lemma_leq_lift(a, b, a, l2, dflt, Ghost(*op), rs);
                    }
                    if !rs {
                        return false;
                    }
                    let ro = all_values_geq(&**r2, dflt, op);
                    proof {
                        if ro {
                            assert forall|k: u64| #[trigger] r2.as_map().dom().contains(k) implies leq_point(
                                ma,
                                mb,
                                *dflt,
                                *op,
                                k,
                                true,
                            ) by {
                                assert(!ma.dom().contains(k));
                                assert(mb[k] == r2.as_map()[k]);
                            }
                        } else {
                            let k = choose|k: u64|
                                #[trigger] r2.as_map().dom().contains(k) && call_ensures(
                                    *op,
                                    (dflt, &r2.as_map()[k]),
                                    false,
                                );
                            assert(!ma.dom().contains(k));
                            assert(mb[k] == r2.as_map()[k]);
                            assert(leq_point(ma, mb, *dflt, *op, k, false));
                        }
                    }
                    ro
                } else {
                    let rs = leq_nodes(a, r2, dflt, op);
                    proof {
                        lemma_leq_lift(a, b, a, r2, dflt, Ghost(*op), rs);
                    }
                    if !rs {
                        return false;
                    }
                    let ro = all_values_geq(&**l2, dflt, op);
                    proof {
                        if ro {
                            assert forall|k: u64| #[trigger] l2.as_map().dom().contains(k) implies leq_point(
                                ma,
                                mb,
                                *dflt,
                                *op,
                                k,
                                true,
                            ) by {
                                assert(!ma.dom().contains(k));
                                assert(mb[k] == l2.as_map()[k]);
                            }
                        } else {
                            let k = choose|k: u64|
                                #[trigger] l2.as_map().dom().contains(k) && call_ensures(
                                    *op,
                                    (dflt, &l2.as_map()[k]),
                                    false,
                                );
                            assert(!ma.dom().contains(k));
                            assert(mb[k] == l2.as_map()[k]);
                            assert(leq_point(ma, mb, *dflt, *op, k, false));
                        }
                    }
                    ro
                }
            } else {
                let res1 = op(v1, dflt);
                proof {
                    assert(!mb.dom().contains(*k1));
                    assert(entry_or(ma, *k1, *dflt) == *v1 && entry_or(mb, *k1, *dflt) == *dflt);
                    assert(leq_point(ma, mb, *dflt, *op, *k1, res1));
                }
                if !res1 {
                    return false;
                }
                let ro = all_values_geq(&**b, dflt, op);
                proof {
                    if ro {
                        assert forall|k: u64| #[trigger] mb.dom().contains(k) implies leq_point(
                            ma,
                            mb,
                            *dflt,
                            *op,
                            k,
                            true,
                        ) by {
                            assert(k != *k1);
                        }
                    } else {
                        let k = choose|k: u64|
                            #[trigger] mb.dom().contains(k) && call_ensures(
                                *op,
                                (dflt, &mb[k]),
                                false,
                            );
                        assert(k != *k1);
                        assert(leq_point(ma, mb, *dflt, *op, k, false));
                    }
                }
                ro
            }
        },
        (
            Node::Branch { prefix: p1, bit: b1, left: l1, right: r1 },
            Node::Leaf { key: k2, value: v2 },
        ) => {
            proof {
                crate::bits::lemma_bit01(*k2 >> *b1);
                assert(ma.dom() =~= l1.as_map().dom() + r1.as_map().dom());
            }
            if (*k2 >> *b1) >> 1 == *p1 {
                if (*k2 >> *b1) & 1 == 0 {
                    let rs = leq_nodes(l1, b, dflt, op);
                    proof {
                        lemma_leq_lift(a, b, l1, b, dflt, Ghost(*op), rs);
                    }
                    if !rs {
                        return false;
                    }
                    let ro = all_values_leq(&**r1, dflt, op);
                    proof {
                        if ro {
                            assert forall|k: u64| #[trigger] r1.as_map().dom().contains(k) implies leq_point(
                                ma,
                                mb,
                                *dflt,
                                *op,
                                k,
                                true,
                            ) by {
                                assert(!mb.dom().contains(k));
                                assert(ma[k] == r1.as_map()[k]);
                            }
                        } else {
                            let k = choose|k: u64|
                                #[trigger] r1.as_map().dom().contains(k) && call_ensures(
                                    *op,
                                    (&r1.as_map()[k], dflt),
                                    false,
                                );
                            assert(!mb.dom().contains(k));
                            assert(ma[k] == r1.as_map()[k]);
                            assert(leq_point(ma, mb, *dflt, *op, k, false));
                        }
                    }
                    ro
                } else {
                    let rs = leq_nodes(r1, b, dflt, op);
                    proof {
                        lemma_leq_lift(a, b, r1, b, dflt, Ghost(*op), rs);
                    }
                    if !rs {
                        return false;
                    }
                    let ro = all_values_leq(&**l1, dflt, op);
                    proof {
                        if ro {
                            assert forall|k: u64| #[trigger] l1.as_map().dom().contains(k) implies leq_point(
                                ma,
                                mb,
                                *dflt,
                                *op,
                                k,
                                true,
                            ) by {
                                assert(!mb.dom().contains(k));
                                assert(ma[k] == l1.as_map()[k]);
                            }
                        } else {
                            let k = choose|k: u64|
                                #[trigger] l1.as_map().dom().contains(k) && call_ensures(
                                    *op,
                                    (&l1.as_map()[k], dflt),
                                    false,
                                );
                            assert(!mb.dom().contains(k));
                            assert(ma[k] == l1.as_map()[k]);
                            assert(leq_point(ma, mb, *dflt, *op, k, false));
                        }
                    }
                    ro
                }
            } else {
                let ra = all_values_leq(&**a, dflt, op);
                proof {
                    if ra {
                        assert forall|k: u64| #[trigger] ma.dom().contains(k) implies leq_point(
                            ma,
                            mb,
                            *dflt,
                            *op,
                            k,
                            true,
                        ) by {
                            assert(k != *k2);
                        }
                    } else {
                        let k = choose|k: u64|
                            #[trigger] ma.dom().contains(k) && call_ensures(
                                *op,
                                (&ma[k], dflt),
                                false,
                            );
                        assert(k != *k2);
                        assert(leq_point(ma, mb, *dflt, *op, k, false));
                    }
                }
                if !ra {
                    return false;
                }
                let res2 = op(dflt, v2);
                proof {
                    assert(!ma.dom().contains(*k2));
                    assert(entry_or(ma, *k2, *dflt) == *dflt && entry_or(mb, *k2, *dflt) == *v2);
                    assert(leq_point(ma, mb, *dflt, *op, *k2, res2));
                }
                res2
            }
        },
        (
            Node::Branch { prefix: p1, bit: b1, left: l1, right: r1 },
            Node::Branch { prefix: p2, bit: b2, left: l2, right: r2 },
        ) => {
            proof {
                assert(ma.dom() =~= l1.as_map().dom() + r1.as_map().dom());
                assert(mb.dom() =~= l2.as_map().dom() + r2.as_map().dom());
            }
            if *b1 == *b2 && *p1 == *p2 {
                let rl = leq_nodes(l1, l2, dflt, op);
                proof {
                    lemma_leq_lift(a, b, l1, l2, dflt, Ghost(*op), rl);
                }
                if !rl {
                    return false;
                }
                let rr = leq_nodes(r1, r2, dflt, op);
                proof {
                    lemma_leq_lift(a, b, r1, r2, dflt, Ghost(*op), rr);
                }
                rr
            } else {
                let rep1 = (*p1 << 1) << *b1;
                let rep2 = (*p2 << 1) << *b2;
                if *b2 < *b1 && (rep2 >> *b1) >> 1 == *p1 {
                    proof {
                        crate::bits::lemma_bit01(rep2 >> *b1);
                        assert forall|k: u64| #[trigger]
                            mb.dom().contains(k) implies bits_above(k, *b1) == *p1 && bit_set(
                            k,
                            *b1,
                        ) == bit_set(rep2, *b1) by {
                            lemma_above_lift(k, rep2, *b2, *b1);
                        }
                    }
                    if (rep2 >> *b1) & 1 == 0 {
                        let rs = leq_nodes(l1, b, dflt, op);
                        proof {
                            lemma_leq_lift(a, b, l1, b, dflt, Ghost(*op), rs);
                        }
                        if !rs {
                            return false;
                        }
                        let ro = all_values_leq(&**r1, dflt, op);
                        proof {
                            if ro {
                                assert forall|k: u64| #[trigger] r1.as_map().dom().contains(
                                    k,
                                ) implies leq_point(ma, mb, *dflt, *op, k, true) by {
                                    assert(!mb.dom().contains(k));
                                    assert(ma[k] == r1.as_map()[k]);
                                }
                            } else {
                                let k = choose|k: u64|
                                    #[trigger] r1.as_map().dom().contains(k) && call_ensures(
                                        *op,
                                        (&r1.as_map()[k], dflt),
                                        false,
                                    );
                                assert(!mb.dom().contains(k));
                                assert(ma[k] == r1.as_map()[k]);
                                assert(leq_point(ma, mb, *dflt, *op, k, false));
                            }
                        }
                        ro
                    } else {
                        let rs = leq_nodes(r1, b, dflt, op);
                        proof {
                            lemma_leq_lift(a, b, r1, b, dflt, Ghost(*op), rs);
                        }
                        if !rs {
                            return false;
                        }
                        let ro = all_values_leq(&**l1, dflt, op);
                        proof {
                            if ro {
                                assert forall|k: u64| #[trigger] l1.as_map().dom().contains(
                                    k,
                                ) implies leq_point(ma, mb, *dflt, *op, k, true) by {
                                    assert(!mb.dom().contains(k));
                                    assert(ma[k] == l1.as_map()[k]);
                                }
                            } else {
                                let k = choose|k: u64|
                                    #[trigger] l1.as_map().dom().contains(k) && call_ensures(
                                        *op,
                                        (&l1.as_map()[k], dflt),
                                        false,
                                    );
                                assert(!mb.dom().contains(k));
                                assert(ma[k] == l1.as_map()[k]);
                                assert(leq_point(ma, mb, *dflt, *op, k, false));
                            }
                        }
                        ro
                    }
                } else if *b1 < *b2 && (rep1 >> *b2) >> 1 == *p2 {
                    proof {
                        crate::bits::lemma_bit01(rep1 >> *b2);
                        assert forall|k: u64| #[trigger]
                            ma.dom().contains(k) implies bits_above(k, *b2) == *p2 && bit_set(
                            k,
                            *b2,
                        ) == bit_set(rep1, *b2) by {
                            lemma_above_lift(k, rep1, *b1, *b2);
                        }
                    }
                    if (rep1 >> *b2) & 1 == 0 {
                        let rs = leq_nodes(a, l2, dflt, op);
                        proof {
                            lemma_leq_lift(a, b, a, l2, dflt, Ghost(*op), rs);
                        }
                        if !rs {
                            return false;
                        }
                        let ro = all_values_geq(&**r2, dflt, op);
                        proof {
                            if ro {
                                assert forall|k: u64| #[trigger] r2.as_map().dom().contains(
                                    k,
                                ) implies leq_point(ma, mb, *dflt, *op, k, true) by {
                                    assert(!ma.dom().contains(k));
                                    assert(mb[k] == r2.as_map()[k]);
                                }
                            } else {
                                let k = choose|k: u64|
                                    #[trigger] r2.as_map().dom().contains(k) && call_ensures(
                                        *op,
                                        (dflt, &r2.as_map()[k]),
                                        false,
                                    );
                                assert(!ma.dom().contains(k));
                                assert(mb[k] == r2.as_map()[k]);
                                assert(leq_point(ma, mb, *dflt, *op, k, false));
                            }
                        }
                        ro
                    } else {
                        let rs = leq_nodes(a, r2, dflt, op);
                        proof {
                            lemma_leq_lift(a, b, a, r2, dflt, Ghost(*op), rs);
                        }
                        if !rs {
                            return false;
                        }
                        let ro = all_values_geq(&**l2, dflt, op);
                        proof {
                            if ro {
                                assert forall|k: u64| #[trigger] l2.as_map().dom().contains(
                                    k,
                                ) implies leq_point(ma, mb, *dflt, *op, k, true) by {
                                    assert(!ma.dom().contains(k));
                                    assert(mb[k] == l2.as_map()[k]);
                                }
                            } else {
                                let k = choose|k: u64|
                                    #[trigger] l2.as_map().dom().contains(k) && call_ensures(
                                        *op,
                                        (dflt, &l2.as_map()[k]),
                                        false,
                                    );
                                assert(!ma.dom().contains(k));
                                assert(mb[k] == l2.as_map()[k]);
                                assert(leq_point(ma, mb, *dflt, *op, k, false));
                            }
                        }
                        ro
                    }
                } else {
                    proof {
                        lemma_branch_reps_separated(*p1, *b1, *p2, *b2);
                        assert forall|k: u64| #[trigger]
                            ma.dom().contains(k) implies !mb.dom().contains(k) by {
                            if mb.dom().contains(k) {
                                assert(bits_above(k, *b1) == *p1);
                                assert(bits_above(k, *b2) == *p2);
                                if *b1 < *b2 {
                                    lemma_above_lift(k, rep1, *b1, *b2);
                                } else if *b2 < *b1 {
                                    lemma_above_lift(k, rep2, *b2, *b1);
                                }
                                assert(false);
                            }
                        }
                    }
                    let ra = all_values_leq(&**a, dflt, op);
                    proof {
                        if ra {
                            assert forall|k: u64| #[trigger] ma.dom().contains(k) implies leq_point(
                                ma,
                                mb,
                                *dflt,
                                *op,
                                k,
                                true,
                            ) by {
                            }
                        } else {
                            let k = choose|k: u64|
                                #[trigger] ma.dom().contains(k) && call_ensures(
                                    *op,
                                    (&ma[k], dflt),
                                    false,
                                );
                            assert(leq_point(ma, mb, *dflt, *op, k, false));
                        }
                    }
                    if !ra {
                        return false;
                    }
                    let rb = all_values_geq(&**b, dflt, op);
                    proof {
                        if rb {
                            assert forall|k: u64| #[trigger] mb.dom().contains(k) implies leq_point(
                                ma,
                                mb,
                                *dflt,
                                *op,
                                k,
                                true,
                            ) by {
                            }
                        } else {
                            let k = choose|k: u64|
                                #[trigger] mb.dom().contains(k) && call_ensures(
                                    *op,
                                    (dflt, &mb[k]),
                                    false,
                                );
                            assert(leq_point(ma, mb, *dflt, *op, k, false));
                        }
                    }
                    rb
                }
            }
        },
    }
}

/// When the keys of two subtrees `sa` and `sb` are, among the keys of `a`
/// and `b`, exactly those on which the parents store the same entries, the
/// pointwise order facts established for the subtree pair carry over to the
/// parent pair.
proof fn lemma_leq_lift<V, F: Fn(&V, &V) -> bool>(
    a: &Rc<Node<V>>,
    b: &Rc<Node<V>>,
    sa: &Rc<Node<V>>,
    sb: &Rc<Node<V>>,
    dflt: &V,
    op: Ghost<F>,
    res: bool,
)
    requires
        forall|k: u64| #[trigger]
            rc_map(sa).dom().contains(k) ==> rc_map(a).dom().contains(k) && rc_map(a)[k] == rc_map(
                sa,
            )[k],
        forall|k: u64| #[trigger]
            rc_map(sb).dom().contains(k) ==> rc_map(b).dom().contains(k) && rc_map(b)[k] == rc_map(
                sb,
            )[k],
        forall|k: u64|
            rc_map(sa).dom().contains(k) || rc_map(sb).dom().contains(k) ==> (rc_map(
                a,
            ).dom().contains(k) == rc_map(sa).dom().contains(k)) && (rc_map(b).dom().contains(k)
                == rc_map(sb).dom().contains(k)),
        res ==> forall|k: u64|
            rc_map(sa).dom().contains(k) || rc_map(sb).dom().contains(k) ==> #[trigger] leq_point(
                rc_map(sa),
                rc_map(sb),
                *dflt,
                op@,
                k,
                true,
            ) || entry_or(rc_map(sa), k, *dflt) == entry_or(rc_map(sb), k, *dflt),
        !res ==> exists|k: u64|
            (rc_map(sa).dom().contains(k) || rc_map(sb).dom().contains(k)) && #[trigger] leq_point(
                rc_map(sa),
                rc_map(sb),
                *dflt,
                op@,
                k,
                false,
            ),
    ensures
        res ==> forall|k: u64|
            rc_map(sa).dom().contains(k) || rc_map(sb).dom().contains(k) ==> #[trigger] leq_point(
                rc_map(a),
                rc_map(b),
                *dflt,
                op@,
                k,
                true,
            ) || entry_or(rc_map(a), k, *dflt) == entry_or(rc_map(b), k, *dflt),
        !res ==> exists|k: u64|
            (rc_map(a).dom().contains(k) || rc_map(b).dom().contains(k)) && #[trigger] leq_point(
                rc_map(a),
                rc_map(b),
                *dflt,
                op@,
                k,
                false,
            ),
{
    if res {
        assert forall|k: u64|
            rc_map(sa).dom().contains(k) || rc_map(sb).dom().contains(k) implies #[trigger] leq_point(
            rc_map(a),
            rc_map(b),
            *dflt,
            op@,
            k,
            true,
        ) || entry_or(rc_map(a), k, *dflt) == entry_or(rc_map(b), k, *dflt) by {
            assert(leq_point(rc_map(sa), rc_map(sb), *dflt, op@, k, true) || entry_or(
                rc_map(sa),
                k,
                *dflt,
            ) == entry_or(rc_map(sb), k, *dflt));
            assert(entry_or(rc_map(a), k, *dflt) == entry_or(rc_map(sa), k, *dflt));
            assert(entry_or(rc_map(b), k, *dflt) == entry_or(rc_map(sb), k, *dflt));
        }
    } else {
        let k = choose|k: u64|
            (rc_map(sa).dom().contains(k) || rc_map(sb).dom().contains(k)) && #[trigger] leq_point(
                rc_map(sa),
                rc_map(sb),
                *dflt,
                op@,
                k,
                false,
            );
        assert(entry_or(rc_map(a), k, *dflt) == entry_or(rc_map(sa), k, *dflt));
        assert(entry_or(rc_map(b), k, *dflt) == entry_or(rc_map(sb), k, *dflt));
        assert(leq_point(rc_map(a), rc_map(b), *dflt, op@, k, false));
        assert(rc_map(a).dom().contains(k) || rc_map(b).dom().contains(k));
    }
}

impl<V> Node<V> {
    /// The entries held under this node, ordered zero-subtree before
    /// one-subtree: ascending key order for well-formed trees.
    pub(crate) open spec fn entries(self) -> Seq<(u64, V)>
        decreases self,
    {
        match self {
            Node::Leaf { key, value } => seq![(key, value)],
            Node::Branch { prefix, bit, left, right } => left.entries() + right.entries(),
        }
    }
}

/// The entry sequence of a well-formed node lists exactly its map, with
/// strictly ascending keys.
pub(crate) proof fn lemma_entries<V>(n: &Node<V>)
    requires
        n.wf(),
    ensures
        n.entries().len() == n.as_map().dom().len(),
        forall|i: int|
            0 <= i < n.entries().len() ==> n.as_map().contains_pair(
                #[trigger] n.entries()[i].0,
                n.entries()[i].1,
            ),
        forall|k: u64| #[trigger]
            n.as_map().dom().contains(k) ==> exists|i: int|
                0 <= i < n.entries().len() && n.entries()[i].0 == k,
        forall|i: int, j: int|
            0 <= i < j < n.entries().len() ==> #[trigger] n.entries()[i].0 < #[trigger] n.entries()[j].0,
    decreases n,
{
    lemma_map_shape(n);
    match n {
        Node::Leaf { key, value } => {
            assert(n.as_map().dom() =~= Set::empty().insert(*key));
            assert(n.entries()[0] == (*key, *value));
        },
        Node::Branch { prefix, bit, left, right } => {
            lemma_entries(&**left);
            lemma_entries(&**right);
            lemma_map_shape(&**left);
            lemma_map_shape(&**right);
            let lm = rc_map(left);
            let rm = rc_map(right);
            let le = rc_entries(left);
            let re = rc_entries(right);
            assert(n.as_map().dom() =~= lm.dom() + rm.dom());
            assert(lm.dom().disjoint(rm.dom()));
            vstd::set_lib::lemma_set_disjoint_lens(lm.dom(), rm.dom());
            assert forall|i: int| 0 <= i < n.entries().len() implies n.as_map().contains_pair(
                #[trigger] n.entries()[i].0,
                n.entries()[i].1,
            ) by {
                if i < le.len() {
                    assert(n.entries()[i] == le[i]);
                    assert(!rm.dom().contains(le[i].0));
                } else {
                    assert(n.entries()[i] == re[i - le.len()]);
                }
            }
            assert forall|k: u64| #[trigger] n.as_map().dom().contains(k) implies exists|i: int|
                0 <= i < n.entries().len() && n.entries()[i].0 == k by {
                if lm.dom().contains(k) {
                    let i = choose|i: int| 0 <= i < le.len() && le[i].0 == k;
                    assert(n.entries()[i].0 == k);
                } else {
                    let i = choose|i: int| 0 <= i < re.len() && re[i].0 == k;
                    assert(n.entries()[le.len() + i].0 == k);
                }
            }
            assert forall|i: int, j: int| 0 <= i < j < n.entries().len() implies #[trigger] n.entries()[i].0
                < #[trigger] n.entries()[j].0 by {
                if i < le.len() && j >= le.len() {
                    let ki = le[i].0;
                    let kj = re[j - le.len()].0;
                    assert(lm.contains_pair(ki, le[i].1));
                    assert(rm.contains_pair(kj, re[j - le.len()].1));
                    lemma_branch_order(ki, kj, *bit);
                } else if i >= le.len() {
                    assert(n.entries()[i] == re[i - le.len()]);
                    assert(n.entries()[j] == re[j - le.len()]);
                } else {
                    assert(n.entries()[i] == le[i]);
                    assert(n.entries()[j] == le[j]);
                }
            }
        },
    }
}

/// Count the entries by full traversal.
pub(crate) fn count_node<V>(n: &Node<V>) -> (c: usize)
    requires
        n.wf(),
        n.as_map().dom().len() <= usize::MAX,
    ensures
        c == n.as_map().dom().len(),
    decreases n,
{
    proof {
        lemma_map_shape(n);
    }
    match n {
        Node::Leaf { .. } => {
            proof {
                assert(n.as_map().dom() =~= Set::empty().insert(n->Leaf_key));
            }
            1
        },
        Node::Branch { prefix, bit, left, right } => {
            proof {
                lemma_map_shape(&**left);
                lemma_map_shape(&**right);
                assert(n.as_map().dom() =~= left.as_map().dom() + right.as_map().dom());
                assert(left.as_map().dom().disjoint(right.as_map().dom()));
                vstd::set_lib::lemma_set_disjoint_lens(rc_map(left).dom(), rc_map(right).dom());
            }
            count_node(left) + count_node(right)
        },
    }
}

/// Append the entries of `n`, in ascending key order, to `out`.
pub(crate) fn push_entries<'a, V>(n: &'a Node<V>, out: &mut Vec<(u64, &'a V)>)
    requires
        n.wf(),
    ensures
        final(out)@.len() == old(out)@.len() + n.entries().len(),
        forall|i: int| 0 <= i < old(out)@.len() ==> final(out)@[i] == old(out)@[i],
        forall|i: int|
            0 <= i < n.entries().len() ==> (#[trigger] final(out)@[old(out)@.len() + i]).0
                == n.entries()[i].0 && *final(out)@[old(out)@.len() + i].1 == n.entries()[i].1,
    decreases n,
{
    match n {
        Node::Leaf { key, value } => {
            out.push((*key, value));
            proof {
                assert(n.entries() =~= seq![(*key, *value)]);
                assert(out@[old(out)@.len() as int].0 == n.entries()[0].0);
            }
        },
        Node::Branch { prefix, bit, left, right } => {
            push_entries(left, out);
            let ghost mid = out@;
            push_entries(right, out);
            proof {
                let le = rc_entries(left);
                let re = rc_entries(right);
                assert(n.entries() =~= le + re);
                assert forall|i: int| 0 <= i < n.entries().len() implies (#[trigger] out@[old(
                    out,
                )@.len() + i]).0 == n.entries()[i].0 && *out@[old(out)@.len() + i].1
                    == n.entries()[i].1 by {
                    if i < le.len() {
                        assert(n.entries()[i] == le[i]);
                        assert(out@[old(out)@.len() + i] == mid[old(out)@.len() + i]);
                    } else {
                        assert(n.entries()[i] == re[i - le.len()]);
                        assert(out@[old(out)@.len() + i] == out@[mid.len() + (i - le.len())]);
                    }
                }
            }
        },
    }
}

impl<V> Node<V> {
    /// Walk down to the entry for `key`, if the tree holds one.
    pub(crate) fn lookup<'a>(&'a self, key: u64) -> (r: Option<&'a V>)
        requires
            self.wf(),
        ensures
            r is Some <==> self.as_map().dom().contains(key),
            r matches Some(v) ==> *v == self.as_map()[key],
        decreases self,
    {
        match self {
            Node::Leaf { key: k, value } => {
                if key == *k {
                    Some(value)
                } else {
                    None
                }
            },
            Node::Branch { prefix, bit, left, right } => {
                proof {
                    assert(self.as_map().dom() =~= left.as_map().dom() + right.as_map().dom());
                    crate::bits::lemma_bit01(key >> *bit);
                }
                if (key >> *bit) >> 1 != *prefix {
                    proof {
                        assert(!self.as_map().dom().contains(key));
                    }
                    None
                } else if (key >> *bit) & 1 == 0 {
                    proof {
                        assert(!right.as_map().dom().contains(key));
                    }
                    left.lookup(key)
                } else {
                    proof {
                        assert(!left.as_map().dom().contains(key));
                    }
                    right.lookup(key)
                }
            },
        }
    }
}

} // verus!
