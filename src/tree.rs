use vstd::prelude::*;

use crate::node::BTreeNode;
use crate::node_lemmas::{lemma_wf_node_invariants, lemma_wf_separated};
use crate::walk::{entry_map, has_key, keys_of, lemma_entry_map_insert};

verus! {

/// A B-tree map from `u64` keys to values: a root node, never absent (an empty
/// tree is one empty leaf), and the capacity of every node, fixed when the tree
/// is made.
#[derive(Debug)]
pub struct BTree<V> {
    root: Box<BTreeNode<V>>,
    node_size: usize,
}

/// The map after inserting `k` with `v`, where a key already present keeps its value.
pub open spec fn insert_if_absent<V>(m: Map<u64, V>, k: u64, v: V) -> Map<u64, V> {
    if m.contains_key(k) {
        m
    } else {
        m.insert(k, v)
    }
}

impl<V> View for BTree<V> {
    type V = Map<u64, V>;

    /// The map from each key in the tree to its value.
    open spec fn view(&self) -> Map<u64, V> {
        entry_map(self.entries())
    }
}

impl<V> BTree<V> {
    /// The root node.
    pub closed spec fn root_node(self) -> BTreeNode<V> {
        *self.root
    }

    /// The most keys a node may hold before it splits.
    pub closed spec fn capacity(self) -> nat {
        self.node_size as nat
    }

    /// The in-order walk of the tree: every key/value pair of every node, once.
    pub open spec fn entries(self) -> Seq<(u64, V)> {
        self.root_node().entries()
    }

    /// No path from the root down has more than `h` edges.
    pub open spec fn height_le(self, h: nat) -> bool {
        self.root_node().height_le(h)
    }

    /// What every tree built by `new` and `insert` satisfies: a capacity of at
    /// least one, one value per key and at most the capacity of keys in every
    /// node, a well-formed root, and all leaves at one depth.
    pub open spec fn wf(self) -> bool {
        &&& self.capacity() >= 1
        &&& self.root_node().consistent()
        &&& self.root_node().fits(self.capacity())
        &&& self.root_node().wf()
        &&& exists|h: nat| self.root_node().balanced(h)
    }

    /// An empty tree whose nodes hold at most `node_size` keys.
    pub fn new(node_size: usize) -> (r: Self)
        requires
            node_size >= 1,
        ensures
            r.wf(),
            r.capacity() == node_size,
            r@ == Map::<u64, V>::empty(),
            r.entries().len() == 0,
            r.height_le(0),
            r.root_node().is_leaf,
            r.root_node().keys@.len() == 0,
            r.root_node().children@.len() == 0,
    {
        let r = BTree { root: Box::new(BTreeNode::new(true)), node_size };
        proof {
            assert(r.root_node().balanced(0));
            assert(r@ =~= Map::<u64, V>::empty());
        }
        r
    }

    /// Inserts `key` with `value` unless the key is already in the tree; returns
    /// whether it did. A refused key leaves every node as it was. Where the root
    /// splits, a new root above it takes the separator and has the old root and
    /// the rest of the sibling as its two children: the tree grows by one level.
    pub fn insert(&mut self, key: u64, value: V) -> (r: bool)
        requires
            old(self).wf(),
        ensures
            final(self).wf(),
            final(self).capacity() == old(self).capacity(),
            forall|h: nat| #[trigger] old(self).height_le(h) ==> final(self).height_le(h + 1),
            !r ==> final(self).entries() == old(self).entries(),
            !r ==> final(self).root_node().same_as(old(self).root_node()),
            !r ==> forall|h: nat| #[trigger] old(self).height_le(h) ==> final(self).height_le(h),
            forall|h: nat| #[trigger] old(self).root_node().balanced(h) ==> {
                ||| final(self).root_node().balanced(h)
                ||| {
                    &&& final(self).root_node().balanced(h + 1)
                    &&& final(self).root_node().keys@.len() == 1
                    &&& final(self).root_node().children@.len() == 2
                }
            },
            r == !old(self)@.contains_key(key),
            final(self)@ == insert_if_absent(old(self)@, key, value),
    {
        let ghost pre = *self.root;
        let (ok, new_node) = self.root.insert(key, value, self.node_size);
        let ghost mid = *self.root;
        if ok {
            if let Some(mut new_node) = new_node {
                let ghost sib = new_node;
                let keys = vec![new_node.keys.remove(0)];
                let values = vec![new_node.values.remove(0)];
                let mut old_root = Box::new(BTreeNode::new(true));
                std::mem::swap(&mut self.root, &mut old_root);
                let ghost st = new_node;
                let children = vec![old_root, Box::new(new_node)];
                let new_root = BTreeNode { keys, values, children, is_leaf: false };
                self.root = Box::new(new_root);
                proof {
                    assert(st.consistent());
                    assert(new_root.consistent());
                    assert(st.fits(self.node_size as nat));
                    assert(new_root.fits(self.node_size as nat));
                    assert forall|h: nat| #[trigger] pre.height_le(h) implies new_root.height_le(h + 1) by {
                        assert(mid.height_le(h));
                        assert(st.height_le(h));
                    }
                    {
                        assert(st.keys@ =~= sib.keys@.drop_first());
                        assert(st.values@ =~= sib.values@.drop_first());
                        assert(st.entries() =~= sib.overflow_entries().drop_first());
                        let (cs, ks, vs) = (new_root.children@, new_root.keys@, new_root.values@);
                        assert(cs[0] == mid && cs[1] == st);
                        assert(st.shape_ok());
                        assert(new_root.shape_ok());
                        assert(BTreeNode::walk(cs, ks, vs, 0) == Seq::<(u64, V)>::empty());
                        assert(BTreeNode::walk(cs, ks, vs, 1) =~= mid.entries() + seq![(ks[0], vs[0])]);
                        assert(BTreeNode::walk(cs, ks, vs, 2) =~= mid.entries() + seq![(ks[0], vs[0])] + st.entries());
                        assert(new_root.entries() =~= mid.combined(Some(sib)));
                        let p = choose|p: int| 0 <= p <= pre.entries().len() && mid.combined(Some(sib)) == pre.entries().insert(p, (key, value));
                        lemma_entry_map_insert(pre.entries(), p, (key, value));
                        assert forall|h: nat| #[trigger] pre.balanced(h) implies self.root_node().balanced(h + 1) by {
                            assert(st.balanced(h));
                            assert(new_root.balanced(h + 1));
                        }
                        let h = choose|h: nat| pre.balanced(h);
                        assert(self.root_node().balanced(h + 1));
                    }
                }
                true
            } else {
                proof {
                    {
                        assert(mid.combined(None) =~= mid.entries());
                        let p = choose|p: int| 0 <= p <= pre.entries().len() && mid.combined(None) == pre.entries().insert(p, (key, value));
                        lemma_entry_map_insert(pre.entries(), p, (key, value));
                        let h = choose|h: nat| pre.balanced(h);
                        assert(mid.balanced(h));
                        assert(self.root_node().balanced(h));
                    }
                }
                true
            }
        } else {
            proof {
                {
                    let h = choose|h: nat| pre.balanced(h);
                    assert(mid.balanced(h));
                    assert(self.root_node().balanced(h));
                }
            }
            false
        }
    }

    /// The root node, for looking at the tree's structure.
    pub fn root(&self) -> (r: &BTreeNode<V>)
        ensures
            *r == self.root_node(),
    {
        &self.root
    }

    /// The most keys a node may hold before it splits.
    pub fn node_size(&self) -> (r: usize)
        ensures
            r == self.capacity(),
    {
        self.node_size
    }
}

/// The map after inserting each pair of `s` in turn into `m`.
pub open spec fn insert_all<V>(m: Map<u64, V>, s: Seq<(u64, V)>) -> Map<u64, V>
    decreases s.len(),
{
    if s.len() == 0 {
        m
    } else {
        insert_if_absent(insert_all(m, s.drop_last()), s.last().0, s.last().1)
    }
}

/// After any sequence of insertions, every node has one value per key, an internal node has one child more
/// than keys, and the keys of each node strictly increase.
pub proof fn lemma_tree_node_invariants<V>(t: BTree<V>)
    requires
        t.wf(),
    ensures
        t.root_node().node_invariants(),
{
    lemma_wf_node_invariants(t.root_node());
}

/// After any sequence of insertions, at every internal node each key of child `i` lies below the key at `i`,
/// and each key of the last child above the last key.
pub proof fn lemma_tree_separated<V>(t: BTree<V>)
    requires
        t.wf(),
    ensures
        t.root_node().separated(),
{
    lemma_wf_separated(t.root_node());
}

/// In a tree built by `new` and `insert`, no key stands twice: the
/// in-order walk, which lists the keys of every node, has each key at one place.
pub proof fn lemma_tree_keys_unique<V>(t: BTree<V>)
    requires
        t.wf(),
    ensures
        forall|i: int, j: int|
            0 <= i < t.entries().len() && 0 <= j < t.entries().len() && (#[trigger] t.entries()[i]).0
                == (#[trigger] t.entries()[j]).0 ==> i == j,
{
    let s = t.entries();
    assert forall|i: int, j: int| 0 <= i < s.len() && 0 <= j < s.len() && (#[trigger] s[i]).0 == (#[trigger] s[j]).0 implies i == j by {
        if i < j {
            assert(s[i].0 < s[j].0);
        } else if j < i {
            assert(s[j].0 < s[i].0);
        }
    }
}

/// Inserting a key a second time, with any value, is refused and changes nothing:
/// the key set stays, and the key keeps the value it first had.
pub proof fn lemma_insert_twice<V>(m: Map<u64, V>, k: u64, v1: V, v2: V)
    ensures
        insert_if_absent(m, k, v1).contains_key(k),
        insert_if_absent(insert_if_absent(m, k, v1), k, v2) == insert_if_absent(m, k, v1),
        insert_if_absent(m, k, v1).dom() == m.dom().insert(k),
        insert_if_absent(m, k, v1)[k] == if m.contains_key(k) { m[k] } else { v1 },
{
    if m.contains_key(k) {
        assert(m.dom() =~= m.dom().insert(k));
    }
}

/// The key set of the map that inserting `s` into an empty map gives.
proof fn lemma_insert_all_keys<V>(s: Seq<(u64, V)>)
    ensures
        insert_all(Map::<u64, V>::empty(), s).dom() == keys_of(s).to_set(),
    decreases s.len(),
{
    if s.len() > 0 {
        lemma_insert_all_keys(s.drop_last());
        assert(keys_of(s) =~= keys_of(s.drop_last()).push(s.last().0));
        assert(keys_of(s).to_set() =~= keys_of(s.drop_last()).to_set().insert(s.last().0)) by {
            assert forall|k: u64| keys_of(s).to_set().contains(k) implies keys_of(s.drop_last()).to_set().insert(s.last().0).contains(k) by {
                let i = choose|i: int| 0 <= i < keys_of(s).len() && keys_of(s)[i] == k;
                if i < s.len() - 1 {
                    assert(keys_of(s.drop_last())[i] == k);
                }
            }
            assert forall|k: u64| keys_of(s.drop_last()).to_set().insert(s.last().0).contains(k) implies keys_of(s).to_set().contains(k) by {
                if k == s.last().0 {
                    assert(keys_of(s)[s.len() - 1] == k);
                } else {
                    let i = choose|i: int| 0 <= i < keys_of(s.drop_last()).len() && keys_of(s.drop_last())[i] == k;
                    assert(keys_of(s)[i] == k);
                }
            }
        }
        let m = insert_all(Map::<u64, V>::empty(), s.drop_last());
        if m.contains_key(s.last().0) {
            assert(m.dom() =~= m.dom().insert(s.last().0));
        }
    } else {
        assert(keys_of(s).to_set() =~= Set::<u64>::empty());
    }
}

/// After inserting `N` distinct keys into an empty tree, the keys of the in-order walk are exactly the keys inserted, and
/// there are `N` of them.
pub proof fn lemma_walk_complete<V>(t: BTree<V>, s: Seq<(u64, V)>)
    requires
        t.wf(),
        t@ == insert_all(Map::<u64, V>::empty(), s),
        keys_of(s).no_duplicates(),
    ensures
        keys_of(t.entries()).to_set() == keys_of(s).to_set(),
        t.entries().len() == s.len(),
{
    let e = t.entries();
    lemma_insert_all_keys(s);
    assert forall|k: u64| keys_of(e).to_set().contains(k) == t@.dom().contains(k) by {
        if keys_of(e).to_set().contains(k) {
            let i = choose|i: int| 0 <= i < keys_of(e).len() && keys_of(e)[i] == k;
            assert(e[i].0 == k);
        }
        if has_key(e, k) {
            let i = choose|i: int| 0 <= i < e.len() && (#[trigger] e[i]).0 == k;
            assert(keys_of(e)[i] == k);
        }
    }
    assert(keys_of(e).to_set() =~= t@.dom());
    assert(keys_of(e).no_duplicates()) by {
        assert forall|i: int, j: int| 0 <= i < keys_of(e).len() && 0 <= j < keys_of(e).len() && i != j implies keys_of(e)[i] != keys_of(e)[j] by {
            if i < j {
                assert(e[i].0 < e[j].0);
            } else {
                assert(e[j].0 < e[i].0);
            }
        }
    }
    keys_of(e).unique_seq_to_set();
    keys_of(s).unique_seq_to_set();
}

} // verus!
