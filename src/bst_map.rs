use vstd::prelude::*;
use vstd::set_lib::lemma_set_disjoint_lens;
use vstd::std_specs::cmp::OrdSpec;

use std::cmp::Ordering;

verus! {

/// `cmp` on `K` follows `cmp_spec`, which is a strict total order in which
/// only equal keys compare `Equal`.
pub open spec fn keys_ordered<K: Ord>() -> bool {
    &&& K::obeys_cmp_spec()
    &&& forall|a: K, b: K| #[trigger] a.cmp_spec(&b) == Ordering::Equal <==> a == b
    &&& forall|a: K, b: K|
        #[trigger] a.cmp_spec(&b) == Ordering::Less <==> b.cmp_spec(&a) == Ordering::Greater
    &&& forall|a: K, b: K, c: K|
        #[trigger] a.cmp_spec(&b) == Ordering::Less && #[trigger] b.cmp_spec(&c) == Ordering::Less
            ==> a.cmp_spec(&c) == Ordering::Less
}

struct BSTNode<K, V> {
    key: K,
    value: V,
    left: Option<Box<BSTNode<K, V>>>,
    right: Option<Box<BSTNode<K, V>>>,
}

/// The entries of a subtree.
spec fn tree_map<K, V>(t: Option<Box<BSTNode<K, V>>>) -> Map<K, V>
    decreases t,
{
    match t {
        None => Map::empty(),
        Some(n) => tree_map(n.left).union_prefer_right(tree_map(n.right)).insert(n.key, n.value),
    }
}

/// The number of nodes of a subtree.
spec fn node_count<K, V>(t: Option<Box<BSTNode<K, V>>>) -> nat
    decreases t,
{
    match t {
        None => 0,
        Some(n) => node_count(n.left) + node_count(n.right) + 1,
    }
}

/// Every key left of a node is below it and every key right of it above it.
spec fn ordered<K: Ord, V>(t: Option<Box<BSTNode<K, V>>>) -> bool
    decreases t,
{
    match t {
        None => true,
        Some(n) => {
            &&& ordered(n.left)
            &&& ordered(n.right)
            &&& forall|k: K| #[trigger]
                tree_map(n.left).contains_key(k) ==> k.cmp_spec(&n.key) == Ordering::Less
            &&& forall|k: K| #[trigger]
                tree_map(n.right).contains_key(k) ==> k.cmp_spec(&n.key) == Ordering::Greater
        },
    }
}

/// An ordered subtree holds as many keys as nodes.
proof fn lemma_count<K: Ord, V>(t: Option<Box<BSTNode<K, V>>>)
    requires
        keys_ordered::<K>(),
        ordered(t),
    ensures
        tree_map(t).dom().finite(),
        tree_map(t).dom().len() == node_count(t),
    decreases t,
{
    if let Some(n) = t {
        lemma_count(n.left);
        lemma_count(n.right);
        let l = tree_map(n.left).dom();
        let r = tree_map(n.right).dom();
        assert(l.intersect(r) =~= Set::empty()) by {
            assert forall|k: K| !(l.contains(k) && r.contains(k)) by {
                if l.contains(k) && r.contains(k) {
                    assert(tree_map(n.left).contains_key(k));
                    assert(tree_map(n.right).contains_key(k));
                }
            }
        }
        assert(l.disjoint(r)) by {
            assert forall|k: K| !(l.contains(k) && r.contains(k)) by {
                if l.contains(k) && r.contains(k) {
                    assert(l.intersect(r).contains(k));
                }
            }
        }
        lemma_set_disjoint_lens(l, r);
        assert(l + r == l.union(r));
        assert(tree_map(n.left).union_prefer_right(tree_map(n.right)).dom() =~= l.union(r));
        assert(!l.union(r).contains(n.key)) by {
            if l.contains(n.key) {
                assert(tree_map(n.left).contains_key(n.key));
            }
            if r.contains(n.key) {
                assert(tree_map(n.right).contains_key(n.key));
            }
        }
        assert(tree_map(t).dom() =~= l.union(r).insert(n.key));
        assert(l.union(r).insert(n.key).len() == l.union(r).len() + 1);
    } else {
        assert(tree_map(t).dom() =~= Set::<K>::empty());
    }
}

/// The value under `key` in an ordered subtree, if any.
fn get_node<'a, K: Ord, V>(t: &'a Option<Box<BSTNode<K, V>>>, key: &K) -> (r: Option<&'a V>)
    requires
        keys_ordered::<K>(),
        ordered(*t),
    ensures
        tree_map(*t).contains_key(*key) ==> r == Some(&tree_map(*t)[*key]),
        !tree_map(*t).contains_key(*key) ==> r is None,
    decreases *t,
{
    match t {
        None => None,
        Some(n) => {
            match key.cmp(&n.key) {
                Ordering::Less => {
                    assert(!tree_map(n.right).contains_key(*key));
                    get_node(&n.left, key)
                },
                Ordering::Equal => Some(&n.value),
                Ordering::Greater => {
                    assert(!tree_map(n.left).contains_key(*key));
                    get_node(&n.right, key)
                },
            }
        },
    }
}

/// Puts `value` under `key` in an ordered subtree, giving back the value that
/// was there.
fn insert_node<K: Ord, V>(t: &mut Option<Box<BSTNode<K, V>>>, key: K, value: V) -> (r: Option<V>)
    requires
        keys_ordered::<K>(),
        ordered(*old(t)),
    ensures
        ordered(*final(t)),
        tree_map(*final(t)) == tree_map(*old(t)).insert(key, value),
        tree_map(*old(t)).contains_key(key) ==> r == Some(tree_map(*old(t))[key]),
        !tree_map(*old(t)).contains_key(key) ==> r is None,
        node_count(*final(t)) == node_count(*old(t)) + if tree_map(*old(t)).contains_key(key) {
            0nat
        } else {
            1nat
        },
    decreases *old(t),
{
    match t {
        None => {
            let ghost leaf: Option<Box<BSTNode<K, V>>> = Some(
                Box::new(BSTNode { key, value, left: None, right: None }),
            );
            assert(tree_map(leaf) =~= Map::<K, V>::empty().insert(key, value)) by {
                let e = tree_map::<K, V>(None);
                assert(e.union_prefer_right(e) =~= Map::<K, V>::empty());
            }
            *t = Some(Box::new(BSTNode { key, value, left: None, right: None }));
            assert(*t == leaf);
            None
        },
        Some(n) => {
            let ghost nkey = n.key;
            let ghost nval = n.value;
            let ghost lm = tree_map(n.left);
            let ghost rm = tree_map(n.right);
            match key.cmp(&n.key) {
                Ordering::Less => {
                    assert(!rm.contains_key(key));
                    let r = insert_node(&mut n.left, key, value);
                    assert(tree_map(n.left).union_prefer_right(rm).insert(nkey, nval) =~= lm.union_prefer_right(rm).insert(nkey, nval).insert(key, value));
                    r
                },
                Ordering::Equal => {
                    let mut v = value;
                    std::mem::swap(&mut n.value, &mut v);
                    assert(lm.union_prefer_right(rm).insert(nkey, n.value) =~= lm.union_prefer_right(rm).insert(nkey, nval).insert(key, value));
                    Some(v)
                },
                Ordering::Greater => {
                    assert(!lm.contains_key(key));
                    let r = insert_node(&mut n.right, key, value);
                    assert(lm.union_prefer_right(tree_map(n.right)).insert(nkey, nval) =~= lm.union_prefer_right(rm).insert(nkey, nval).insert(key, value));
                    r
                },
            }
        },
    }
}

/// The value under `key` in an ordered subtree, to change in place, if any.
fn get_mut_node<'a, K: Ord, V>(t: &'a mut Option<Box<BSTNode<K, V>>>, key: &K) -> (r: Option<&'a mut V>)
    requires
        keys_ordered::<K>(),
        ordered(*old(t)),
    ensures
        ordered(*final(t)),
        node_count(*final(t)) == node_count(*old(t)),
        tree_map(*old(t)).contains_key(*key) <==> r is Some,
        r is Some ==> *r->Some_0 == tree_map(*old(t))[*key],
        r is Some ==> tree_map(*final(t)) =~= tree_map(*old(t)).insert(*key, *final(r->Some_0)),
        r is None ==> *final(t) == *old(t),
    decreases *old(t),
{
    match t {
        None => None,
        Some(n) => {
            match key.cmp(&n.key) {
                Ordering::Less => {
                    assert(!tree_map(n.right).contains_key(*key));
                    get_mut_node(&mut n.left, key)
                },
                Ordering::Equal => Some(&mut n.value),
                Ordering::Greater => {
                    assert(!tree_map(n.left).contains_key(*key));
                    get_mut_node(&mut n.right, key)
                },
            }
        },
    }
}

/// A map kept as a binary search tree ordered by the keys' `cmp`.
pub struct BSTMap<K, V> {
    root: Option<Box<BSTNode<K, V>>>,
    size: usize,
}

impl<K: Ord, V> View for BSTMap<K, V> {
    type V = Map<K, V>;

    /// The entries of the map.
    closed spec fn view(&self) -> Map<K, V> {
        tree_map(self.root)
    }
}

impl<K: Ord, V> BSTMap<K, V> {
    /// The tree is ordered and `size` counts its nodes.
    pub closed spec fn wf(&self) -> bool {
        &&& ordered(self.root)
        &&& self.size == node_count(self.root)
    }

    /// An empty map.
    pub fn new() -> (r: Self)
        ensures
            r.wf(),
            r@ == Map::<K, V>::empty(),
    {
        BSTMap { root: None, size: 0 }
    }

    /// The number of entries.
    pub fn len(&self) -> (r: usize)
        requires
            self.wf(),
            keys_ordered::<K>(),
        ensures
            r == self@.dom().len(),
    {
        proof {
            lemma_count(self.root);
        }
        self.size
    }

    /// Removes every entry.
    pub fn clear(&mut self)
        ensures
            final(self).wf(),
            final(self)@ == Map::<K, V>::empty(),
    {
        self.size = 0;
        self.root = None;
    }

    /// Whether `key` has an entry.
    pub fn contains_key(&self, key: &K) -> (r: bool)
        requires
            self.wf(),
            keys_ordered::<K>(),
        ensures
            r == self@.contains_key(*key),
    {
        self.get(key).is_some()
    }

    /// Puts `value` under `key`, giving back the value that was there.
    pub fn insert(&mut self, key: K, value: V) -> (r: Option<V>)
        requires
            old(self).wf(),
            keys_ordered::<K>(),
            old(self)@.dom().len() < usize::MAX,
        ensures
            final(self).wf(),
            final(self)@ == old(self)@.insert(key, value),
            old(self)@.contains_key(key) ==> r == Some(old(self)@[key]),
            !old(self)@.contains_key(key) ==> r is None,
            final(self)@.dom().finite(),
            final(self)@.dom().len() == old(self)@.dom().len() + if old(self)@.contains_key(key) {
                0nat
            } else {
                1nat
            },
    {
        proof {
            lemma_count(self.root);
        }
        let r = insert_node(&mut self.root, key, value);
        if r.is_none() {
            self.size = self.size + 1;
        }
        proof {
            lemma_count(self.root);
        }
        r
    }

    /// The entries of a well-formed map form a finite set of keys, one per
    /// node of the tree.
    pub proof fn lemma_dom_finite(&self)
        requires
            self.wf(),
            keys_ordered::<K>(),
        ensures
            self@.dom().finite(),
    {
        lemma_count(self.root);
    }

    /// The value under `key`, to change in place, or `None` when it has no
    /// entry.
    pub fn get_mut(&mut self, key: &K) -> (r: Option<&mut V>)
        requires
            old(self).wf(),
            keys_ordered::<K>(),
        ensures
            final(self).wf(),
            old(self)@.contains_key(*key) <==> r is Some,
            r is Some ==> *r->Some_0 == old(self)@[*key],
            r is Some ==> final(self)@ =~= old(self)@.insert(*key, *final(r->Some_0)),
            r is None ==> final(self)@ == old(self)@,
    {
        get_mut_node(&mut self.root, key)
    }

    /// The value under `key`, or `None` when it has no entry.
    pub fn get(&self, key: &K) -> (r: Option<&V>)
        requires
            self.wf(),
            keys_ordered::<K>(),
        ensures
            self@.contains_key(*key) ==> r == Some(&self@[*key]),
            !self@.contains_key(*key) ==> r is None,
    {
        get_node(&self.root, key)
    }
}

} // verus!
