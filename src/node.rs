use vstd::prelude::*;

use crate::node_lemmas::{
    lemma_absorb, lemma_child_replaced, lemma_grows_insert, lemma_grows_same, lemma_same_refl, lemma_child_wf, lemma_height_mono, lemma_keys_increasing,
    lemma_sibling_linked, lemma_split_parts, lemma_split_walk, lemma_walk_around, lemma_walk_frame, walk_tail,
};
use crate::walk::{
    find_slot, has_key, increasing, lemma_entry_map_insert, lemma_has_key_middle, lemma_sorted_insert,
    lemma_sorted_parts, pairs, sorted,
};

verus! {

/// One node of a B-tree: ordered keys, their values at the same positions,
/// and, for an internal node, one more child than keys.
#[derive(Debug)]
pub struct BTreeNode<V> {
    pub keys: Vec<u64>,
    pub values: Vec<V>,
    pub children: Vec<Box<BTreeNode<V>>>,
    pub is_leaf: bool,
}

impl<V> BTreeNode<V> {
    /// The in-order walk over the first `i` children of a node with these
    /// children, keys and values: each child's subtree, then the key that follows it.
    pub open spec fn walk(children: Seq<Box<BTreeNode<V>>>, keys: Seq<u64>, values: Seq<V>, i: int) -> Seq<(u64, V)>
        decreases children, i,
    {
        if i <= 0 || i > children.len() {
            Seq::empty()
        } else {
            Self::walk(children, keys, values, i - 1) + children[i - 1].entries()
                + if i - 1 < keys.len() { seq![(keys[i - 1], values[i - 1])] } else { Seq::empty() }
        }
    }

    /// The in-order walk of the subtree: every key/value pair of every node, once.
    pub open spec fn entries(self) -> Seq<(u64, V)>
        decreases self,
    {
        if self.children@.len() == 0 {
            pairs(self.keys@, self.values@)
        } else {
            Self::walk(self.children@, self.keys@, self.values@, self.children@.len() as int)
        }
    }

    /// The in-order walk of a sibling that a split hands to its parent: its first
    /// pair, which the parent takes in, then the walk of what stays.
    pub open spec fn overflow_entries(self) -> Seq<(u64, V)> {
        seq![(self.keys@[0], self.values@[0])] + if self.children@.len() == 0 {
            pairs(self.keys@.drop_first(), self.values@.drop_first())
        } else {
            Self::walk(
                self.children@,
                self.keys@.drop_first(),
                self.values@.drop_first(),
                self.children@.len() as int,
            )
        }
    }

    /// What a node and the sibling it may have split off hold together, in order.
    pub open spec fn combined(self, overflow: Option<BTreeNode<V>>) -> Seq<(u64, V)> {
        self.entries() + match overflow {
            Some(sibling) => sibling.overflow_entries(),
            None => Seq::empty(),
        }
    }

    /// Each node of the subtree holds one value per key.
    pub open spec fn consistent(self) -> bool
        decreases self,
    {
        &&& self.values@.len() == self.keys@.len()
        &&& forall|j: int| 0 <= j < self.children@.len() ==> (#[trigger] self.children@[j]).consistent()
    }

    /// The shape of every node of the subtree: one value per key, a leaf exactly
    /// when it has no children, and an internal node with one child more than keys.
    pub open spec fn shape_ok(self) -> bool
        decreases self,
    {
        &&& self.values@.len() == self.keys@.len()
        &&& self.is_leaf == (self.children@.len() == 0)
        &&& !self.is_leaf ==> self.children@.len() == self.keys@.len() + 1
        &&& forall|j: int| 0 <= j < self.children@.len() ==> (#[trigger] self.children@[j]).shape_ok()
    }

    /// A well-formed subtree: the right shape, and keys strictly increasing along
    /// the in-order walk.
    pub open spec fn wf(self) -> bool {
        self.shape_ok() && sorted(self.entries())
    }

    /// The shape of a sibling that a split hands to its parent: once the parent
    /// takes its first pair, what stays is a well-shaped node (a leaf may be left
    /// with no keys, an internal node with no keys and one child).
    pub open spec fn overflow_ok(self) -> bool {
        &&& self.values@.len() == self.keys@.len()
        &&& self.keys@.len() >= 1
        &&& self.is_leaf == (self.children@.len() == 0)
        &&& !self.is_leaf ==> self.children@.len() == self.keys@.len()
        &&& forall|j: int| 0 <= j < self.children@.len() ==> (#[trigger] self.children@[j]).shape_ok()
    }

    /// The same subtree as `other`: equal keys, values and leaf flag at every
    /// node, with children that are the same subtrees, position by position.
    pub open spec fn same_as(self, other: Self) -> bool
        decreases self,
    {
        &&& self.keys@ == other.keys@
        &&& self.values@ == other.values@
        &&& self.is_leaf == other.is_leaf
        &&& self.children@.len() == other.children@.len()
        &&& forall|j: int|
            0 <= j < self.children@.len() ==> (#[trigger] self.children@[j]).same_as(*other.children@[j])
    }

    /// The keys of this node followed by those of the sibling it split off, if any.
    pub open spec fn keys_with(self, overflow: Option<BTreeNode<V>>) -> Seq<u64> {
        self.keys@ + match overflow {
            Some(sibling) => sibling.keys@,
            None => Seq::empty(),
        }
    }

    /// The values of this node followed by those of the sibling it split off, if any.
    pub open spec fn values_with(self, overflow: Option<BTreeNode<V>>) -> Seq<V> {
        self.values@ + match overflow {
            Some(sibling) => sibling.values@,
            None => Seq::empty(),
        }
    }

    /// The children of this node followed by those of the sibling it split off, if any.
    pub open spec fn children_with(self, overflow: Option<BTreeNode<V>>) -> Seq<Box<BTreeNode<V>>> {
        self.children@ + match overflow {
            Some(sibling) => sibling.children@,
            None => Seq::empty(),
        }
    }

    /// Every node of the subtree holds at most `cap` keys.
    pub open spec fn fits(self, cap: nat) -> bool
        decreases self,
    {
        &&& self.keys@.len() <= cap
        &&& forall|j: int| 0 <= j < self.children@.len() ==> (#[trigger] self.children@[j]).fits(cap)
    }

    /// Every path from this node down to a node without children has exactly `h`
    /// edges: all leaves below it lie at one depth.
    pub open spec fn balanced(self, h: nat) -> bool
        decreases self,
    {
        &&& (self.children@.len() == 0 <==> h == 0)
        &&& forall|j: int| 0 <= j < self.children@.len() ==> (#[trigger] self.children@[j]).balanced((h - 1) as nat)
    }

    /// No path from this node down to a node without children has more than `h` edges.
    pub open spec fn height_le(self, h: nat) -> bool
        decreases self,
    {
        self.children@.len() > 0 ==> h > 0 && forall|j: int|
            0 <= j < self.children@.len() ==> (#[trigger] self.children@[j]).height_le((h - 1) as nat)
    }

    /// The invariants of every node of the subtree: one value per key, one child
    /// more than keys in an internal node, and keys strictly increasing.
    pub open spec fn node_invariants(self) -> bool
        decreases self,
    {
        &&& self.values@.len() == self.keys@.len()
        &&& !self.is_leaf ==> self.children@.len() == self.keys@.len() + 1
        &&& increasing(self.keys@)
        &&& forall|j: int| 0 <= j < self.children@.len() ==> (#[trigger] self.children@[j]).node_invariants()
    }

    /// The separator property at every internal node of the subtree: each key of
    /// child `i` lies below the key at `i` and above the key at `i - 1`.
    pub open spec fn separated(self) -> bool
        decreases self,
    {
        &&& !self.is_leaf ==> forall|i: int, x: int|
            0 <= i < self.children@.len() && 0 <= x < self.children@[i].entries().len() ==> {
                &&& i < self.keys@.len() ==> (#[trigger] self.children@[i].entries()[x]).0 < self.keys@[i]
                &&& 0 < i ==> self.keys@[i - 1] < self.children@[i].entries()[x].0
            }
        &&& forall|j: int| 0 <= j < self.children@.len() ==> (#[trigger] self.children@[j]).separated()
    }

    /// What a call of `insert` on `pre` owes, with `post` the node after the call
    /// and `r` its result. For any node with one value per key: no panic, one
    /// value per key after, a refused key changes no content, the subtree grows by
    /// at most one level (none where it split or refused), and the capacity is
    /// kept; a refused key leaves the subtree the same; a split keeps the first
    /// `node_size / 2 + 1` keys and hands the rest up. For a well-formed node: the
    /// key is refused exactly when present; otherwise the node and its sibling
    /// hold the old pairs and the new one in order, stay well formed and keep the
    /// leaves at one depth.
    pub open spec fn insert_done(
        pre: Self,
        post: Self,
        key: u64,
        value: V,
        node_size: usize,
        r: (bool, Option<Self>),
    ) -> bool {
        &&& post.consistent()
        &&& r.1 is Some ==> r.0 && r.1.unwrap().consistent() && r.1.unwrap().keys@.len() >= 1
        &&& !r.0 ==> r.1 is None && post.entries() == pre.entries() && post.same_as(pre)
        &&& r.1 is Some ==> {
            &&& pre.keys@.len() >= node_size
            &&& post.keys@.len() == node_size / 2 + 1
            &&& r.1.unwrap().keys@.len() == pre.keys@.len() - node_size / 2
            &&& r.1.unwrap().is_leaf == post.is_leaf
        }
        &&& pre.is_leaf && r.0 ==> (r.1 is Some <==> pre.keys@.len() >= node_size)
        &&& forall|h: nat| #[trigger] pre.height_le(h) ==> post.height_le(h + 1)
        &&& forall|h: nat| #[trigger] pre.height_le(h) && (r.1 is Some || !r.0) ==> {
            &&& post.height_le(h)
            &&& r.1 is Some ==> r.1.unwrap().height_le(h)
        }
        &&& pre.fits(node_size as nat) ==> post.fits(node_size as nat) && (r.1 is Some ==> r.1.unwrap().fits(
            node_size as nat,
        ))
        &&& pre.wf() ==> {
            &&& r.0 == !has_key(pre.entries(), key)
            &&& post.wf()
            &&& r.0 ==> sorted(post.combined(r.1))
            &&& r.0 ==> exists|p: int| 0 <= p <= pre.entries().len() && post.combined(r.1) == pre.entries().insert(p, (key, value))
            &&& r.1 is Some ==> r.1.unwrap().overflow_ok()
            &&& forall|h: nat| #[trigger] pre.balanced(h) ==> post.balanced(h) && (r.1 is Some ==> r.1.unwrap().balanced(h))
        }
    }
}

impl<V> BTreeNode<V> {
    /// An empty node; a leaf or not as asked.
    pub fn new(is_leaf: bool) -> (r: Self)
        ensures
            r.keys@.len() == 0,
            r.values@.len() == 0,
            r.children@.len() == 0,
            r.is_leaf == is_leaf,
            r.consistent(),
            r.entries().len() == 0,
            is_leaf ==> r.wf(),
    {
        BTreeNode { keys: Vec::new(), values: Vec::new(), children: Vec::new(), is_leaf }
    }

    /// A leaf holding these keys and values.
    fn new_leaf(keys: Vec<u64>, values: Vec<V>) -> (r: Self)
        ensures
            r.keys == keys,
            r.values == values,
            r.children@.len() == 0,
            r.is_leaf,
    {
        BTreeNode { keys, values, children: Vec::new(), is_leaf: true }
    }

    /// Inserts `key` with `value` into the subtree, unless the key is already there.
    /// Returns whether it was inserted and, where this node grew past `node_size`
    /// keys and split, the sibling holding its upper part: its first pair is for the
    /// caller to take in as a separator.
    pub fn insert(&mut self, key: u64, value: V, node_size: usize) -> (r: (bool, Option<BTreeNode<V>>))
        requires
            old(self).consistent(),
            node_size >= 1,
        ensures
            Self::insert_done(*old(self), *final(self), key, value, node_size, r),
        decreases *old(self), 2int,
    {
        proof {
            if self.wf() {
                lemma_keys_increasing(*self);
            }
        }
        match find_slot(&self.keys, key) {
            Ok(i) => {
                proof {
                    assert forall|h: nat| #[trigger] self.height_le(h) implies self.height_le(h + 1) by {
                        lemma_height_mono(*self, h, h + 1);
                    }
                    if self.wf() {
                        if self.children@.len() == 0 {
                            assert(self.entries()[i as int].0 == key);
                        } else {
                            lemma_walk_around(self.children@, self.keys@, self.values@, i as int);
                            let w = Self::walk(self.children@, self.keys@, self.values@, i as int);
                            let t = self.children@[i as int].entries();
                            assert(self.entries()[(w.len() + t.len()) as int] == (key, self.values@[i as int]));
                        }
                    }
                }
                proof {
                    lemma_same_refl(*self);
                }
                (false, None)
            },
            Err(idx) => {
                if !self.is_leaf {
                    self.insert_as_not_leaf(key, value, idx, node_size)
                } else {
                    self.insert_as_leaf(key, value, idx, node_size)
                }
            },
        }
    }

    /// Puts the pair at `idx`, where the search left off, and splits the leaf if it
    /// now holds more than `node_size` keys: it keeps the first `node_size / 2 + 1`.
    fn insert_as_leaf(&mut self, key: u64, value: V, idx: usize, node_size: usize) -> (r: (bool, Option<BTreeNode<V>>))
        requires
            old(self).consistent(),
            old(self).is_leaf,
            node_size >= 1,
            idx <= old(self).keys@.len(),
            old(self).wf() ==> forall|j: int| 0 <= j < idx ==> #[trigger] old(self).keys@[j] < key,
            old(self).wf() ==> forall|j: int| idx <= j < old(self).keys@.len() ==> key < #[trigger] old(self).keys@[j],
        ensures
            Self::insert_done(*old(self), *final(self), key, value, node_size, r),
            r.0,
            final(self).keys_with(r.1) == old(self).keys@.insert(idx as int, key),
            final(self).values_with(r.1) == old(self).values@.insert(idx as int, value),
            final(self).children@ == old(self).children@,
    {
        let ghost pre = *self;
        self.keys.insert(idx, key);
        self.values.insert(idx, value);
        let ghost full = *self;
        proof {
            assert forall|h: nat| #[trigger] pre.height_le(h) implies full.height_le(h) && full.height_le(h + 1) by {
                lemma_height_mono(pre, h, h + 1);
            }
            if pre.wf() {
                assert(full.entries() =~= pre.entries().insert(idx as int, (key, value)));
                lemma_sorted_insert(pre.entries(), idx as int, (key, value));
                lemma_entry_map_insert(pre.entries(), idx as int, (key, value));
            }
        }
        if self.keys.len() <= node_size {
            (true, None)
        } else {
            let mid_size: usize = node_size / 2;
            let right_keys = self.keys.split_off(mid_size + 1);
            let right_values = self.values.split_off(mid_size + 1);
            let right = BTreeNode::new_leaf(right_keys, right_values);
            proof {
                if pre.wf() {
                    assert(self.combined(Some(right)) =~= full.entries());
                    lemma_sorted_parts(self.entries(), right.overflow_entries());
                }
            }
            (true, Some(right))
        }
    }

    /// Hands the pair down to child `child_index`. A well-formed node always has
    /// that child; where it has not, the pair goes into a new leaf at the end.
    fn insert_to_child_node(&mut self, key: u64, value: V, child_index: usize, node_size: usize) -> (r: (bool, Option<BTreeNode<V>>))
        requires
            old(self).consistent(),
            node_size >= 1,
        ensures
            final(self).keys == old(self).keys,
            final(self).values == old(self).values,
            final(self).is_leaf == old(self).is_leaf,
            child_index < old(self).children@.len() ==> {
                &&& final(self).children@ == old(self).children@.update(child_index as int, final(self).children@[child_index as int])
                &&& Self::insert_done(*old(self).children@[child_index as int], *final(self).children@[child_index as int], key, value, node_size, r)
            },
            child_index >= old(self).children@.len() ==> {
                &&& r.0 && r.1 is None
                &&& final(self).children@.len() == old(self).children@.len() + 1
                &&& final(self).children@.drop_last() == old(self).children@
                &&& final(self).children@.last().keys@ == seq![key]
                &&& final(self).children@.last().values@ == seq![value]
                &&& final(self).children@.last().children@.len() == 0
                &&& final(self).children@.last().is_leaf
            },
        decreases *old(self), 0int,
    {
        if child_index < self.children.len() {
            let (ok, new_node) = self.children[child_index].insert(key, value, node_size);
            if ok {
                (true, new_node)
            } else {
                (false, None)
            }
        } else {
            self.children.push(Box::new(BTreeNode::new_leaf(vec![key], vec![value])));
            proof {
                assert(self.children@.drop_last() =~= old(self).children@);
            }
            (true, None)
        }
    }

    /// Inserts through child `idx`; where that child split, takes in the first
    /// pair of its sibling at `idx` and the rest of the sibling, even where no key
    /// is left in it, as child `idx + 1`, so that no child is lost; then splits
    /// itself if it holds more than `node_size` keys, keeping the first
    /// `node_size / 2 + 1` and as many children as go with them. Only child `idx`
    /// changes, and one child may be added after it.
    #[verifier::rlimit(80)]
    fn insert_as_not_leaf(&mut self, key: u64, value: V, idx: usize, node_size: usize) -> (r: (bool, Option<BTreeNode<V>>))
        requires
            old(self).consistent(),
            !old(self).is_leaf,
            node_size >= 1,
            idx <= old(self).keys@.len(),
            old(self).wf() ==> forall|j: int| 0 <= j < idx ==> #[trigger] old(self).keys@[j] < key,
            old(self).wf() ==> forall|j: int| idx <= j < old(self).keys@.len() ==> key < #[trigger] old(self).keys@[j],
        ensures
            Self::insert_done(*old(self), *final(self), key, value, node_size, r),
            idx < old(self).children@.len() ==> {
                &&& grows_at(old(self).keys@, final(self).keys_with(r.1), idx as int)
                &&& grows_at(old(self).values@, final(self).values_with(r.1), idx as int)
                &&& grows_at(old(self).children@.remove(idx as int), final(self).children_with(r.1).remove(idx as int), idx as int)
            },
        decreases *old(self), 1int,
    {
        let ghost pre = *self;
        let ghost e = (key, value);
        proof {
            if pre.wf() {
                lemma_child_wf(pre, idx as int);
                lemma_walk_around(pre.children@, pre.keys@, pre.values@, idx as int);
                lemma_has_key_middle(
                    Self::walk(pre.children@, pre.keys@, pre.values@, idx as int),
                    pre.children@[idx as int].entries(),
                    walk_tail(pre.children@, pre.keys@, pre.values@, idx as int),
                    key,
                );
            }
        }
        let (ok, new_node) = self.insert_to_child_node(key, value, idx, node_size);
        let ghost mid = *self;
        if let Some(mut new_node) = new_node {
            assert(idx < pre.children@.len());
            let ghost sib = new_node;
            let ghost cp = mid.children@[idx as int];
            let median_key = new_node.keys.remove(0);
            let median_value = new_node.values.remove(0);
            self.keys.insert(idx, median_key);
            self.values.insert(idx, median_value);
            let ghost st = new_node;
            assert(idx < self.children.len());
            self.children.insert(idx + 1, Box::new(new_node));
            let ghost full = *self;
            proof {
                assert(st.consistent());
                assert(pre.children@[idx as int].consistent());
                lemma_sibling_linked(pre, cp, Box::new(st), full, idx as int, node_size as nat, pre.wf());
                lemma_grows_insert(pre.keys@, full.keys@, idx as int, sib.keys@[0]);
                lemma_grows_insert(pre.values@, full.values@, idx as int, sib.values@[0]);
                assert(full.children@.remove(idx as int) =~= pre.children@.remove(idx as int).insert(idx as int, Box::new(st)));
                lemma_grows_insert(pre.children@.remove(idx as int), full.children@.remove(idx as int), idx as int, Box::new(st));
                if pre.wf() {
                    assert(st.keys@ =~= sib.keys@.drop_first());
                    assert(st.values@ =~= sib.values@.drop_first());
                    lemma_absorb(pre, cp, Some(sib), Box::new(st), full, idx as int, e);
                }
            }
            if self.values.len() <= node_size {
                proof {
                    assert(full.keys_with(None) =~= full.keys@);
                    assert(full.values_with(None) =~= full.values@);
                    assert(full.children_with(None) =~= full.children@);
                    if pre.fits(node_size as nat) {
                        assert(full.fits(node_size as nat));
                    }
                    assert forall|h: nat| #[trigger] pre.height_le(h) implies full.height_le(h + 1) by {
                        lemma_height_mono(full, h, h + 1);
                    }
                }
                (ok, None)
            } else {
                let mid_size: usize = node_size / 2;
                let right_keys = self.keys.split_off(mid_size + 1);
                let right_values = self.values.split_off(mid_size + 1);
                let right_child = if self.children.len() > mid_size + 2 {
                    self.children.split_off(mid_size + 2)
                } else {
                    Vec::new()
                };
                let right_node = BTreeNode {
                    keys: right_keys,
                    values: right_values,
                    children: right_child,
                    is_leaf: self.is_leaf,
                };
                proof {
                    let post = *self;
                    assert(post.children@ + right_node.children@ =~= full.children@);
                    assert(post.keys_with(Some(right_node)) =~= full.keys@);
                    assert(post.values_with(Some(right_node)) =~= full.values@);
                    assert(post.children_with(Some(right_node)) =~= full.children@);
                    lemma_split_parts(full, post, right_node, node_size as nat);
                    assert(mid_size + 1 <= node_size);
                    assert(right_node.keys@.len() == pre.keys@.len() - node_size / 2);
                    if pre.fits(node_size as nat) {
                        assert(full.keys@.len() <= node_size + 1);
                        assert(post.fits(node_size as nat));
                        assert(right_node.fits(node_size as nat));
                    }
                    assert forall|h: nat| #[trigger] pre.height_le(h) implies post.height_le(h + 1) by {
                        lemma_height_mono(post, h, h + 1);
                    }
                    if pre.wf() {
                        lemma_split_walk(full, post, right_node, mid_size + 1);
                        lemma_sorted_parts(post.entries(), right_node.overflow_entries());
                    }
                }
                (true, Some(right_node))
            }
        } else {
            proof {
                if idx < pre.children@.len() {
                    let cp = mid.children@[idx as int];
                    assert(pre.children@[idx as int].consistent());
                    lemma_child_replaced(pre, mid, idx as int, ok, node_size as nat, pre.wf());
                    lemma_grows_same(pre.keys@, mid.keys_with(None), idx as int);
                    lemma_grows_same(pre.values@, mid.values_with(None), idx as int);
                    assert(mid.children_with(None).remove(idx as int) =~= pre.children@.remove(idx as int));
                    lemma_grows_same(pre.children@.remove(idx as int), mid.children_with(None).remove(idx as int), idx as int);
                    if !ok {
                        assert forall|j: int| 0 <= j < mid.children@.len() implies (#[trigger] mid.children@[j]).same_as(*pre.children@[j]) by {
                            if j != idx {
                                lemma_same_refl(*pre.children@[j]);
                            }
                        }
                        assert forall|j: int| 0 <= j < pre.children@.len() implies (#[trigger] pre.children@[j]).entries() == mid.children@[j].entries() by {}
                        lemma_walk_frame(pre.children@, pre.keys@, pre.values@, mid.children@, mid.keys@, mid.values@, pre.children@.len() as int);
                    }
                    if pre.wf() {
                        if ok {
                            lemma_absorb(pre, cp, None, cp, mid, idx as int, e);
                        } else {
                            assert forall|j: int| 0 <= j < mid.children@.len() implies (#[trigger] mid.children@[j]).shape_ok() by {
                                if j != idx {
                                    assert(mid.children@[j] == pre.children@[j]);
                                }
                            }
                        }
                    }
                } else {
                    let leaf = mid.children@.last();
                    assert forall|j: int| 0 <= j < mid.children@.len() implies (#[trigger] mid.children@[j]).consistent() && (pre.fits(node_size as nat) ==> mid.children@[j].fits(node_size as nat)) by {
                        if j < pre.children@.len() {
                            assert(mid.children@[j] == pre.children@[j]);
                        }
                    }
                    assert forall|h: nat| #[trigger] pre.height_le(h) implies mid.height_le(h + 1) by {
                        assert forall|j: int| 0 <= j < mid.children@.len() implies (#[trigger] mid.children@[j]).height_le(h) by {
                            if j < pre.children@.len() {
                                assert(mid.children@[j] == pre.children@[j]);
                                lemma_height_mono(*pre.children@[j], (h - 1) as nat, h);
                            }
                        }
                    }
                    if pre.wf() {
                        assert(false);
                    }
                }
            }
            (ok, None)
        }
    }
}

/// `new` is `old` with at most one item added at `i`: the two agree before `i`,
/// and `new` ends with what `old` holds from `i` on.
pub open spec fn grows_at<T>(old: Seq<T>, new: Seq<T>, i: int) -> bool {
    &&& new.len() == old.len() || new.len() == old.len() + 1
    &&& new.subrange(0, i) == old.subrange(0, i)
    &&& new.subrange(new.len() - (old.len() - i), new.len() as int) == old.subrange(i, old.len() as int)
}

} // verus!
