//! The typed facade: a map from `u64` keys to arbitrary values, viewed in
//! specifications as a `Map<u64, V>`.

use std::rc::Rc;
use vstd::prelude::*;

use crate::node::Node;
use crate::node::opt_as_map;

verus! {

/// A persistent map over 64-bit keys with cheap, sharing-based cloning.
pub struct PatriciaTreeMap<V> {
    root: Option<Rc<Node<V>>>,
}

impl<V> PatriciaTreeMap<V> {
    /// The root, when present, satisfies the trie invariant.
    #[verifier::type_invariant]
    spec fn inv(self) -> bool {
        match self.root {
            None => true,
            Some(n) => n.wf(),
        }
    }
}

impl<V> View for PatriciaTreeMap<V> {
    type V = Map<u64, V>;

    closed spec fn view(&self) -> Map<u64, V> {
        opt_as_map(self.root)
    }
}

impl<V> PatriciaTreeMap<V> {
    /// An empty map.
    pub fn new() -> (r: Self)
        ensures
            r@ == Map::<u64, V>::empty(),
    {
        PatriciaTreeMap { root: None }
    }

    /// Drop every entry.
    pub fn clear(&mut self)
        ensures
            final(self)@ == Map::<u64, V>::empty(),
    {
        proof {
            use_type_invariant(&*self);
        }
        self.root = None;
    }

    /// True exactly when the map holds no entry.
    pub fn is_empty(&self) -> (r: bool)
        ensures
            r == (self@ == Map::<u64, V>::empty()),
    {
        proof {
            use_type_invariant(self);
        }
        match &self.root {
            None => true,
            Some(n) => {
                proof {
                    crate::node::lemma_map_shape(&**n);
                    let k = choose|k: u64| n.as_map().dom().contains(k);
                    assert(self@.dom().contains(k));
                }
                false
            },
        }
    }

    /// Look up the value stored for `key`.
    pub fn get(&self, key: u64) -> (r: Option<&V>)
        ensures
            r is Some <==> self@.dom().contains(key),
            r matches Some(v) ==> *v == self@[key],
    {
        proof {
            use_type_invariant(self);
        }
        match &self.root {
            None => None,
            Some(n) => n.lookup(key),
        }
    }

    /// True exactly when the map holds an entry for `key`.
    pub fn contains_key(&self, key: u64) -> (r: bool)
        ensures
            r == self@.dom().contains(key),
    {
        self.get(key).is_some()
    }

    /// Insert `value` for `key`, replacing any value stored before.
    pub fn upsert(&mut self, key: u64, value: V)
        ensures
            final(self)@ == old(self)@.insert(key, value),
    {
        proof {
            use_type_invariant(&*self);
        }
        let new_root = match &self.root {
            None => Rc::new(Node::Leaf { key, value }),
            Some(n) => crate::node::insert_node(n, key, value),
        };
        self.root = Some(new_root);
        proof {
            assert(self@ =~= old(self)@.insert(key, value));
        }
    }

    /// Delete the entry for `key`. Removing an absent key leaves the map
    /// unchanged, without rebuilding any part of the tree.
    pub fn remove(&mut self, key: u64)
        ensures
            final(self)@ == old(self)@.remove(key),
            !old(self)@.dom().contains(key) ==> final(self)@ == old(self)@,
    {
        proof {
            use_type_invariant(&*self);
        }
        if !self.contains_key(key) {
            proof {
                assert(self@.remove(key) =~= self@);
            }
            return ;
        }
        let new_root = match &self.root {
            None => None,
            Some(n) => crate::node::remove_node(n, key),
        };
        self.root = new_root;
        proof {
            assert(self@ =~= old(self)@.remove(key));
        }
    }
}

/// The value a map holds for `k`, or `dflt` where it holds none: lattice
/// operations treat an absent key as implicitly bound to a default element.
pub open spec fn entry_or<V>(m: Map<u64, V>, k: u64, dflt: V) -> V {
    if m.dom().contains(k) {
        m[k]
    } else {
        dflt
    }
}

/// What a union holds for key `k`: the left value where only the left map
/// has the key, the right value where only the right map has it, and where
/// both have it a value the merge operator can return — or the shared value
/// itself where the two sides hold the same value, as they do under a shared
/// subtree, which the union reuses without calling the operator.
pub open spec fn union_point<V, F: Fn(&V, &V) -> V>(
    ma: Map<u64, V>,
    mb: Map<u64, V>,
    op: F,
    k: u64,
    v: V,
) -> bool {
    if ma.dom().contains(k) && mb.dom().contains(k) {
        call_ensures(op, (&ma[k], &mb[k]), v) || (ma[k] == mb[k] && v == ma[k])
    } else if ma.dom().contains(k) {
        v == ma[k]
    } else if mb.dom().contains(k) {
        v == mb[k]
    } else {
        true
    }
}

/// What an intersection holds for a key present in both maps: a value the
/// merge operator can return, or the shared value itself where the two sides
/// hold the same value, as under a shared subtree, which the intersection
/// reuses without calling the operator.
pub open spec fn intersect_point<V, F: Fn(&V, &V) -> V>(
    ma: Map<u64, V>,
    mb: Map<u64, V>,
    op: F,
    k: u64,
    v: V,
) -> bool {
    call_ensures(op, (&ma[k], &mb[k]), v) || (ma[k] == mb[k] && v == ma[k])
}

/// What the pointwise order test knows of key `k`: the comparison operator,
/// applied to the two values stored for `k` — an absent side standing in as
/// the implicit value — can return `expected`.
pub open spec fn leq_point<V, F: Fn(&V, &V) -> bool>(
    ma: Map<u64, V>,
    mb: Map<u64, V>,
    dflt: V,
    op: F,
    k: u64,
    expected: bool,
) -> bool {
    call_ensures(op, (&entry_or(ma, k, dflt), &entry_or(mb, k, dflt)), expected)
}

/// The map described by a sequence of (key, value) pairs, inserted left to
/// right: on duplicate keys the last write wins.
pub open spec fn map_of_pairs<V>(s: Seq<(u64, V)>) -> Map<u64, V>
    decreases s.len(),
{
    if s.len() == 0 {
        Map::empty()
    } else {
        map_of_pairs(s.drop_last()).insert(s.last().0, s.last().1)
    }
}

impl<V> PatriciaTreeMap<V> {
    /// The number of entries, counted by full traversal.
    pub fn len(&self) -> (r: usize)
        requires
            self@.dom().len() <= usize::MAX,
        ensures
            r == self@.dom().len(),
    {
        proof {
            use_type_invariant(self);
        }
        match &self.root {
            None => {
                proof {
                    assert(self@.dom() =~= Set::<u64>::empty());
                }
                0
            },
            Some(n) => crate::node::count_node(n),
        }
    }

    /// Build a map from a sequence of (key, value) pairs; on duplicate keys
    /// the last pair wins.
    pub fn from_entries(entries: Vec<(u64, V)>) -> (r: Self)
        ensures
            r@ == map_of_pairs(entries@),
    {
        let mut rest = entries;
        let ghost all = rest@;
        let mut m = PatriciaTreeMap::new();
        while rest.len() > 0
            invariant
                rest@.len() <= all.len(),
                rest@ =~= all.skip(all.len() - rest@.len()),
                m@ == map_of_pairs(all.take(all.len() - rest@.len())),
            decreases rest@.len(),
        {
            let ghost done = all.len() - rest@.len();
            let (k, v) = rest.remove(0);
            proof {
                assert((k, v) == all[done]);
            }
            m.upsert(k, v);
            proof {
                assert(all.take(done + 1).drop_last() =~= all.take(done));
                assert(all.take(done + 1).last() == all[done]);
                assert(m@ == map_of_pairs(all.take(done + 1)));
                assert(rest@ =~= all.skip(all.len() - rest@.len()));
            }
        }
        proof {
            assert(all.take(all.len() as int) =~= all);
        }
        m
    }

    /// An iterator over the entries, in ascending key order. The iterator
    /// borrows the tree and never changes it; each call starts over.
    pub fn iter<'a>(&'a self) -> (it: PatriciaTreeMapIterator<'a, V>)
        ensures
            it.remaining().len() == self@.dom().len(),
            forall|i: int|
                0 <= i < it.remaining().len() ==> self@.contains_pair(
                    (#[trigger] it.remaining()[i]).0,
                    it.remaining()[i].1,
                ),
            forall|k: u64| #[trigger]
                self@.dom().contains(k) ==> exists|i: int|
                    0 <= i < it.remaining().len() && it.remaining()[i].0 == k,
            forall|i: int, j: int|
                0 <= i < j < it.remaining().len() ==> #[trigger] it.remaining()[i].0
                    < #[trigger] it.remaining()[j].0,
    {
        proof {
            use_type_invariant(self);
        }
        let mut entries: Vec<(u64, &'a V)> = Vec::new();
        match &self.root {
            None => {
                proof {
                    assert(self@.dom() =~= Set::<u64>::empty());
                }
            },
            Some(n) => {
                proof {
                    crate::node::lemma_entries(&**n);
                }
                let ghost pre = entries@;
                crate::node::push_entries(&**n, &mut entries);
                proof {
                    assert forall|i: int| 0 <= i < crate::node::rc_entries(n).len() implies entries@[i].0
                        == crate::node::rc_entries(n)[i].0 && *entries@[i].1 == crate::node::rc_entries(
                        n,
                    )[i].1 by {
                        assert((entries@[pre.len() + i]).0 == crate::node::rc_entries(n)[i].0
                            && *entries@[pre.len() + i].1 == crate::node::rc_entries(n)[i].1);
                        assert(pre.len() + i == i);
                    }
                }
            },
        }
        let it = PatriciaTreeMapIterator { entries, pos: 0 };
        proof {
            match &self.root {
                None => {
                    assert(it.remaining() =~= Seq::<(u64, V)>::empty());
                },
                Some(n) => {
                    let re = crate::node::rc_entries(n);
                    let rem = it.remaining();
                    assert(it.entries@.subrange(0, it.entries@.len() as int) =~= it.entries@);
                    assert forall|i: int| 0 <= i < rem.len() implies rem[i] == re[i] by {
                        assert(rem[i] == (it.entries@[i].0, *it.entries@[i].1));
                    }
                    assert(rem =~= re);
                },
            }
        }
        it
    }
}

impl<V> PatriciaTreeMap<V> {
    /// Pointwise order test against `other`: true exactly when `leq_op`
    /// accepts the pair of values stored for every key of either map, a key
    /// absent from one side standing in as `implicit_value`. Shared subtrees
    /// are accepted by pointer identity without calling `leq_op`, which is
    /// sound when the domain's order is reflexive.
    pub fn leq<F: Fn(&V, &V) -> bool>(&self, other: &Self, implicit_value: &V, leq_op: F) -> (r:
        bool)
        requires
            forall|x: &V, y: &V| call_requires(leq_op, (x, y)),
        ensures
            r ==> forall|k: u64|
                self@.dom().contains(k) || other@.dom().contains(k) ==> #[trigger] leq_point(
                    self@,
                    other@,
                    *implicit_value,
                    leq_op,
                    k,
                    true,
                ) || entry_or(self@, k, *implicit_value) == entry_or(other@, k, *implicit_value),
            !r ==> exists|k: u64|
                (self@.dom().contains(k) || other@.dom().contains(k)) && #[trigger] leq_point(
                    self@,
                    other@,
                    *implicit_value,
                    leq_op,
                    k,
                    false,
                ),
            (self@ == other@ && (forall|x: &V, out: bool|
                call_ensures(leq_op, (x, x), out) ==> out)) ==> r,
    {
        proof {
            use_type_invariant(self);
            use_type_invariant(other);
        }
        let r = match (&self.root, &other.root) {
            (None, None) => true,
            (None, Some(b)) => {
                let ro = crate::node::all_values_geq(&**b, implicit_value, &leq_op);
                proof {
                    if ro {
                        assert forall|k: u64| #[trigger] other@.dom().contains(k) implies leq_point(
                            self@,
                            other@,
                            *implicit_value,
                            leq_op,
                            k,
                            true,
                        ) by {
                            assert(!self@.dom().contains(k));
                            assert(crate::node::rc_map(b).dom().contains(k));
                        }
                    } else {
                        let k = choose|k: u64|
                            #[trigger] crate::node::rc_map(b).dom().contains(k) && call_ensures(
                                leq_op,
                                (implicit_value, &crate::node::rc_map(b)[k]),
                                false,
                            );
                        assert(leq_point(self@, other@, *implicit_value, leq_op, k, false));
                    }
                }
                ro
            },
            (Some(a), None) => {
                let ro = crate::node::all_values_leq(&**a, implicit_value, &leq_op);
                proof {
                    if ro {
                        assert forall|k: u64| #[trigger] self@.dom().contains(k) implies leq_point(
                            self@,
                            other@,
                            *implicit_value,
                            leq_op,
                            k,
                            true,
                        ) by {
                            assert(!other@.dom().contains(k));
                            assert(crate::node::rc_map(a).dom().contains(k));
                        }
                    } else {
                        let k = choose|k: u64|
                            #[trigger] crate::node::rc_map(a).dom().contains(k) && call_ensures(
                                leq_op,
                                (&crate::node::rc_map(a)[k], implicit_value),
                                false,
                            );
                        assert(leq_point(self@, other@, *implicit_value, leq_op, k, false));
                    }
                }
                ro
            },
            (Some(a), Some(b)) => {
                let ro = crate::node::leq_nodes(a, b, implicit_value, &leq_op);
                proof {
                    assert(self@ == crate::node::rc_map(a));
                    assert(other@ == crate::node::rc_map(b));
                    if ro {
                        assert forall|k: u64|
                            self@.dom().contains(k) || other@.dom().contains(k) implies #[trigger] leq_point(
                            self@,
                            other@,
                            *implicit_value,
                            leq_op,
                            k,
                            true,
                        ) || entry_or(self@, k, *implicit_value) == entry_or(
                            other@,
                            k,
                            *implicit_value,
                        ) by {
                            assert(leq_point(
                                crate::node::rc_map(a),
                                crate::node::rc_map(b),
                                *implicit_value,
                                leq_op,
                                k,
                                true,
                            ) || entry_or(crate::node::rc_map(a), k, *implicit_value) == entry_or(
                                crate::node::rc_map(b),
                                k,
                                *implicit_value,
                            ));
                        }
                    } else {
                        let k = choose|k: u64|
                            (crate::node::rc_map(a).dom().contains(k) || crate::node::rc_map(
                                b,
                            ).dom().contains(k)) && #[trigger] leq_point(
                                crate::node::rc_map(a),
                                crate::node::rc_map(b),
                                *implicit_value,
                                leq_op,
                                k,
                                false,
                            );
                        assert(leq_point(self@, other@, *implicit_value, leq_op, k, false));
                    }
                }
                ro
            },
        };
        proof {
            if self@ == other@ && (forall|x: &V, out: bool|
                call_ensures(leq_op, (x, x), out) ==> out) && !r {
                let k = choose|k: u64|
                    (self@.dom().contains(k) || other@.dom().contains(k)) && #[trigger] leq_point(
                        self@,
                        other@,
                        *implicit_value,
                        leq_op,
                        k,
                        false,
                    );
                let ea = entry_or(self@, k, *implicit_value);
                assert(entry_or(other@, k, *implicit_value) == ea);
                assert(call_ensures(leq_op, (&ea, &ea), false));
                assert(false);
            }
        }
        r
    }

    /// Merge `other` into this map: a key present in only one side keeps its
    /// value, a key present in both maps to the operator's result on the two
    /// stored values. Merging a map with a clone of itself under an
    /// idempotent operator leaves the content unchanged, and shared subtrees
    /// are reused whole without calling the operator.
    pub fn union_with<F: Fn(&V, &V) -> V>(&mut self, other: &Self, value_op_on_duplicate_key: F)
        requires
            forall|x: &V, y: &V| call_requires(value_op_on_duplicate_key, (x, y)),
        ensures
            final(self)@.dom() == old(self)@.dom() + other@.dom(),
            forall|k: u64| #[trigger]
                final(self)@.dom().contains(k) ==> union_point(
                    old(self)@,
                    other@,
                    value_op_on_duplicate_key,
                    k,
                    final(self)@[k],
                ),
            (old(self)@ == other@ && (forall|x: &V, out: V|
                call_ensures(value_op_on_duplicate_key, (x, x), out) ==> out == *x))
                ==> final(self)@ == old(self)@,
    {
        proof {
            use_type_invariant(&*self);
            use_type_invariant(other);
        }
        let new_root = match (&self.root, &other.root) {
            (None, None) => None,
            (None, Some(b)) => Some(b.clone()),
            (Some(a), None) => Some(a.clone()),
            (Some(a), Some(b)) => Some(
                crate::node::union_nodes(a, b, &value_op_on_duplicate_key),
            ),
        };
        self.root = new_root;
        proof {
            assert(self@.dom() =~= old(self)@.dom() + other@.dom());
            if old(self)@ == other@ && (forall|x: &V, out: V|
                call_ensures(value_op_on_duplicate_key, (x, x), out) ==> out == *x) {
                assert forall|k: u64| #[trigger]
                    self@.dom().contains(k) implies self@[k] == old(self)@[k] by {
                    assert(union_point(
                        old(self)@,
                        other@,
                        value_op_on_duplicate_key,
                        k,
                        self@[k],
                    ));
                    assert(other@[k] == old(self)@[k]);
                    if call_ensures(
                        value_op_on_duplicate_key,
                        (&old(self)@[k], &other@[k]),
                        self@[k],
                    ) {
                        assert(call_ensures(
                            value_op_on_duplicate_key,
                            (&old(self)@[k], &old(self)@[k]),
                            self@[k],
                        ));
                    }
                }
                assert(self@ =~= old(self)@);
            }
        }
    }

    /// Keep only the keys present in both maps, each mapped to the
    /// operator's result on the two stored values; every other key is
    /// dropped. A meet never adds a key absent from either operand. Shared
    /// subtrees are reused whole without calling the operator.
    pub fn intersect_with<F: Fn(&V, &V) -> V>(
        &mut self,
        other: &Self,
        value_op_on_duplicate_key: F,
    )
        requires
            forall|x: &V, y: &V| call_requires(value_op_on_duplicate_key, (x, y)),
        ensures
            final(self)@.dom() == old(self)@.dom().intersect(other@.dom()),
            forall|k: u64| #[trigger]
                final(self)@.dom().contains(k) ==> intersect_point(
                    old(self)@,
                    other@,
                    value_op_on_duplicate_key,
                    k,
                    final(self)@[k],
                ),
    {
        proof {
            use_type_invariant(&*self);
            use_type_invariant(other);
        }
        let new_root = match (&self.root, &other.root) {
            (Some(a), Some(b)) => crate::node::intersect_nodes(
                a,
                b,
                &value_op_on_duplicate_key,
            ),
            _ => None,
        };
        self.root = new_root;
        proof {
            assert(self@.dom() =~= old(self)@.dom().intersect(other@.dom()));
        }
    }
}

/// A meet never invents keys: the intersection's domain lies within each
/// operand, so following it with a union against any complementary key set
/// recovers no key that was absent from every operand — and intersecting
/// with the complement of what was dropped gives back exactly the original
/// domain.
pub proof fn lemma_meet_adds_no_keys(a: Set<u64>, b: Set<u64>, c: Set<u64>)
    ensures
        a.intersect(b).subset_of(a),
        a.intersect(b).subset_of(b),
        a.intersect(b).union(c).subset_of(a.union(b).union(c)),
        a.intersect(b).union(a.difference(b)) =~= a,
{
}

/// With no key repeated, the map built from a sequence of pairs holds
/// exactly those pairs.
proof fn lemma_map_of_pairs_distinct<V>(s: Seq<(u64, V)>)
    requires
        forall|i: int, j: int| 0 <= i < j < s.len() ==> s[i].0 != s[j].0,
    ensures
        forall|k: u64| #[trigger]
            map_of_pairs(s).dom().contains(k) ==> exists|i: int|
                0 <= i < s.len() && s[i].0 == k,
        forall|i: int|
            0 <= i < s.len() ==> map_of_pairs(s).dom().contains(#[trigger] s[i].0)
                && map_of_pairs(s)[s[i].0] == s[i].1,
    decreases s.len(),
{
    if s.len() > 0 {
        lemma_map_of_pairs_distinct(s.drop_last());
        assert forall|k: u64| #[trigger] map_of_pairs(s).dom().contains(k) implies exists|i: int|
            0 <= i < s.len() && s[i].0 == k by {
            if k == s.last().0 {
                assert(s[s.len() - 1].0 == k);
            } else {
                assert(map_of_pairs(s.drop_last()).dom().contains(k));
                let i = choose|i: int| 0 <= i < s.drop_last().len() && s.drop_last()[i].0 == k;
                assert(s[i].0 == k);
            }
        }
        assert forall|i: int| 0 <= i < s.len() implies map_of_pairs(s).dom().contains(
            #[trigger] s[i].0,
        ) && map_of_pairs(s)[s[i].0] == s[i].1 by {
            if i < s.len() - 1 {
                assert(s.drop_last()[i] == s[i]);
                assert(s[i].0 != s.last().0);
            }
        }
    }
}

/// Two pair sequences that enumerate the same set of entries, each without
/// repeating a key, build the same map: insertion order does not matter.
pub proof fn lemma_insertion_order_irrelevant<V>(s1: Seq<(u64, V)>, s2: Seq<(u64, V)>)
    requires
        s1.to_set() == s2.to_set(),
        forall|i: int, j: int| 0 <= i < j < s1.len() ==> s1[i].0 != s1[j].0,
        forall|i: int, j: int| 0 <= i < j < s2.len() ==> s2[i].0 != s2[j].0,
    ensures
        map_of_pairs(s1) == map_of_pairs(s2),
{
    lemma_map_of_pairs_distinct(s1);
    lemma_map_of_pairs_distinct(s2);
    assert forall|k: u64| #[trigger]
        map_of_pairs(s1).dom().contains(k) implies map_of_pairs(s2).dom().contains(k)
        && map_of_pairs(s2)[k] == map_of_pairs(s1)[k] by {
        let i = choose|i: int| 0 <= i < s1.len() && s1[i].0 == k;
        assert(s1.contains(s1[i]));
        assert(s2.to_set().contains(s1[i]));
        assert(s2.contains(s1[i]));
        let j = choose|j: int| 0 <= j < s2.len() && s2[j] == s1[i];
        assert(map_of_pairs(s2)[s2[j].0] == s2[j].1);
    }
    assert forall|k: u64| #[trigger]
        map_of_pairs(s2).dom().contains(k) implies map_of_pairs(s1).dom().contains(k) by {
        let j = choose|j: int| 0 <= j < s2.len() && s2[j].0 == k;
        assert(s2.contains(s2[j]));
        assert(s1.to_set().contains(s2[j]));
        assert(s1.contains(s2[j]));
        let i = choose|i: int| 0 <= i < s1.len() && s1[i] == s2[j];
        assert(map_of_pairs(s1).dom().contains(s1[i].0));
    }
    assert(map_of_pairs(s1) =~= map_of_pairs(s2));
}

/// Yields the (key, value) pairs of a map, smallest key first, without
/// touching the tree it was created from.
pub struct PatriciaTreeMapIterator<'a, V> {
    entries: Vec<(u64, &'a V)>,
    pos: usize,
}

impl<'a, V> PatriciaTreeMapIterator<'a, V> {
    #[verifier::type_invariant]
    spec fn inv(self) -> bool {
        self.pos <= self.entries@.len()
    }

    /// The pairs not yet produced, in the order they will come.
    pub closed spec fn remaining(self) -> Seq<(u64, V)> {
        self.entries@.subrange(self.pos as int, self.entries@.len() as int).map_values(
            |p: (u64, &'a V)| (p.0, *p.1),
        )
    }

    /// The next pair, or `None` once every entry has been produced.
    pub fn next(&mut self) -> (r: Option<(u64, &'a V)>)
        ensures
            old(self).remaining().len() == 0 ==> r is None && final(self).remaining() == old(
                self,
            ).remaining(),
            old(self).remaining().len() > 0 ==> match r {
                Some(p) => p.0 == old(self).remaining()[0].0 && *p.1 == old(self).remaining()[0].1
                    && final(self).remaining() == old(self).remaining().drop_first(),
                None => false,
            },
    {
        proof {
            use_type_invariant(&*self);
        }
        if self.pos < self.entries.len() {
            let p = self.entries[self.pos];
            self.pos = self.pos + 1;
            proof {
                assert(self.remaining() =~= old(self).remaining().drop_first());
            }
            Some(p)
        } else {
            proof {
                assert(self.remaining() =~= old(self).remaining());
            }
            None
        }
    }
}

impl<V> Clone for PatriciaTreeMap<V> {
    /// An O(1) logical copy: the clone shares every subtree with the
    /// original, and later mutation of either map is invisible to the other.
    fn clone(&self) -> (r: Self)
        ensures
            r@ == self@,
    {
        proof {
            use_type_invariant(self);
        }
        PatriciaTreeMap {
            root: match &self.root {
                None => None,
                Some(n) => Some(n.clone()),
            },
        }
    }
}

impl<V: PartialEq> PartialEq for PatriciaTreeMap<V> {
    /// Structural equality: `true` exactly when the two maps hold the same
    /// entries, provided `V`'s own equality decides spec equality. Shared
    /// subtrees are recognised by pointer identity and never descended into.
    fn eq(&self, other: &Self) -> (r: bool) {
        proof {
            use_type_invariant(self);
            use_type_invariant(other);
        }
        match (&self.root, &other.root) {
            (None, None) => true,
            (Some(a), Some(b)) => crate::node::eq_node(a, b),
            (None, Some(b)) => {
                proof {
                    crate::node::lemma_map_shape(&**b);
                    let k = choose|k: u64| b.as_map().dom().contains(k);
                    assert(other@.dom().contains(k) && !self@.dom().contains(k));
                }
                false
            },
            (Some(a), None) => {
                proof {
                    crate::node::lemma_map_shape(&**a);
                    let k = choose|k: u64| a.as_map().dom().contains(k);
                    assert(self@.dom().contains(k) && !other@.dom().contains(k));
                }
                false
            },
        }
    }
}

impl<V: PartialEq> vstd::std_specs::cmp::PartialEqSpecImpl for PatriciaTreeMap<V> {
    open spec fn obeys_eq_spec() -> bool {
        vstd::laws_eq::obeys_concrete_eq::<V>()
    }

    open spec fn eq_spec(&self, other: &Self) -> bool {
        self@ == other@
    }
}

impl<V: Eq> Eq for PatriciaTreeMap<V> {

}

impl<V> Default for PatriciaTreeMap<V> {
    /// The empty map.
    fn default() -> (r: Self)
        ensures
            r@ == Map::<u64, V>::empty(),
    {
        PatriciaTreeMap::new()
    }
}

} // verus!
