use vstd::prelude::*;

use crate::node::{grows_at, BTreeNode};
use crate::walk::{increasing, lemma_insert_in_middle, sorted};

verus! {

/// The walk up to `i` depends only on the walks of the first `i` children, and
/// on the first `i` keys and values.
pub proof fn lemma_walk_frame<V>(
    cs: Seq<Box<BTreeNode<V>>>, ks: Seq<u64>, vs: Seq<V>,
    cs2: Seq<Box<BTreeNode<V>>>, ks2: Seq<u64>, vs2: Seq<V>,
    i: int,
)
    requires
        0 <= i <= cs.len(),
        i <= cs2.len(),
        forall|j: int| 0 <= j < i ==> (#[trigger] cs[j]).entries() == cs2[j].entries(),
        (if ks.len() < i { ks.len() as int } else { i }) == (if ks2.len() < i { ks2.len() as int } else { i }),
        forall|j: int| 0 <= j < i && j < ks.len() ==> #[trigger] ks[j] == ks2[j],
        forall|j: int| 0 <= j < i && j < ks.len() ==> #[trigger] vs[j] == vs2[j],
    ensures
        BTreeNode::walk(cs, ks, vs, i) == BTreeNode::walk(cs2, ks2, vs2, i),
    decreases i,
{
    if i > 0 {
        lemma_walk_frame(cs, ks, vs, cs2, ks2, vs2, i - 1);
    }
}

/// The walk up to `m` and the walk of the remaining children make up the walk up to `n`.
pub proof fn lemma_walk_split<V>(cs: Seq<Box<BTreeNode<V>>>, ks: Seq<u64>, vs: Seq<V>, m: int, n: int)
    requires
        0 <= m <= n <= cs.len(),
        m <= ks.len(),
        ks.len() == vs.len(),
    ensures
        BTreeNode::walk(cs, ks, vs, n) == BTreeNode::walk(cs, ks, vs, m) + BTreeNode::walk(
            cs.subrange(m, cs.len() as int),
            ks.subrange(m, ks.len() as int),
            vs.subrange(m, vs.len() as int),
            n - m,
        ),
    decreases n,
{
    if n > m {
        lemma_walk_split(cs, ks, vs, m, n - 1);
        let cs2 = cs.subrange(m, cs.len() as int);
        let ks2 = ks.subrange(m, ks.len() as int);
        let vs2 = vs.subrange(m, vs.len() as int);
        assert(cs2[n - m - 1] == cs[n - 1]);
        if n - 1 < ks.len() {
            assert(ks2[n - m - 1] == ks[n - 1]);
            assert(vs2[n - m - 1] == vs[n - 1]);
        }
        assert(BTreeNode::walk(cs, ks, vs, n) =~= BTreeNode::walk(cs, ks, vs, m) + BTreeNode::walk(cs2, ks2, vs2, n - m));
    } else {
        assert(BTreeNode::walk(cs, ks, vs, n) =~= BTreeNode::walk(cs, ks, vs, m) + Seq::empty());
    }
}

/// What follows child `idx` in the walk of a well-shaped node: the key at `idx`,
/// then the walk of the later children; nothing after the last child.
pub open spec fn walk_tail<V>(cs: Seq<Box<BTreeNode<V>>>, ks: Seq<u64>, vs: Seq<V>, idx: int) -> Seq<(u64, V)> {
    if idx < ks.len() {
        seq![(ks[idx], vs[idx])] + BTreeNode::walk(
            cs.subrange(idx + 1, cs.len() as int),
            ks.subrange(idx + 1, ks.len() as int),
            vs.subrange(idx + 1, vs.len() as int),
            cs.len() - idx - 1,
        )
    } else {
        Seq::empty()
    }
}

/// The walk of a well-shaped node around child `idx`.
pub proof fn lemma_walk_around<V>(cs: Seq<Box<BTreeNode<V>>>, ks: Seq<u64>, vs: Seq<V>, idx: int)
    requires
        cs.len() == ks.len() + 1,
        ks.len() == vs.len(),
        0 <= idx < cs.len(),
    ensures
        BTreeNode::walk(cs, ks, vs, cs.len() as int) == BTreeNode::walk(cs, ks, vs, idx) + cs[idx].entries()
            + walk_tail(cs, ks, vs, idx),
        idx < ks.len() ==> walk_tail(cs, ks, vs, idx).len() > 0 && walk_tail(cs, ks, vs, idx)[0] == (ks[idx], vs[idx]),
        idx > 0 ==> BTreeNode::walk(cs, ks, vs, idx).len() > 0 && BTreeNode::walk(cs, ks, vs, idx).last() == (ks[idx - 1], vs[idx - 1]),
{
    if idx < ks.len() {
        lemma_walk_split(cs, ks, vs, idx + 1, cs.len() as int);
        assert(BTreeNode::walk(cs, ks, vs, cs.len() as int) =~= BTreeNode::walk(cs, ks, vs, idx) + cs[idx].entries()
            + walk_tail(cs, ks, vs, idx));
    } else {
        assert(BTreeNode::walk(cs, ks, vs, cs.len() as int) =~= BTreeNode::walk(cs, ks, vs, idx) + cs[idx].entries()
            + walk_tail(cs, ks, vs, idx));
    }
}

/// Where the key at `i` of a well-shaped node sits in the node's walk.
pub open spec fn key_position<V>(n: BTreeNode<V>, i: int) -> int {
    BTreeNode::walk(n.children@, n.keys@, n.values@, i + 1).len() - 1
}

/// In a well-shaped internal node, the key at `i` stands in the walk at
/// `key_position`, and later keys stand later.
pub proof fn lemma_key_position<V>(n: BTreeNode<V>, i: int, j: int)
    requires
        n.children@.len() == n.keys@.len() + 1,
        n.keys@.len() == n.values@.len(),
        0 <= i < j < n.keys@.len(),
    ensures
        0 <= key_position(n, i) < key_position(n, j) < n.entries().len(),
        n.entries()[key_position(n, i)] == (n.keys@[i], n.values@[i]),
        n.entries()[key_position(n, j)] == (n.keys@[j], n.values@[j]),
{
    let (cs, ks, vs) = (n.children@, n.keys@, n.values@);
    lemma_walk_split(cs, ks, vs, i + 1, j);
    lemma_walk_split(cs, ks, vs, i + 1, cs.len() as int);
    lemma_walk_split(cs, ks, vs, j + 1, cs.len() as int);
    assert(BTreeNode::walk(cs, ks, vs, i + 1).last() == (ks[i], vs[i]));
    assert(BTreeNode::walk(cs, ks, vs, j + 1).last() == (ks[j], vs[j]));
}

/// A well-formed node has its own keys strictly increasing.
pub proof fn lemma_keys_increasing<V>(n: BTreeNode<V>)
    requires
        n.wf(),
    ensures
        forall|i: int, j: int| 0 <= i < j < n.keys@.len() ==> n.keys@[i] < n.keys@[j],
{
    assert forall|i: int, j: int| 0 <= i < j < n.keys@.len() implies n.keys@[i] < n.keys@[j] by {
        if n.children@.len() == 0 {
            assert(n.entries()[i].0 == n.keys@[i]);
            assert(n.entries()[j].0 == n.keys@[j]);
        } else {
            lemma_key_position(n, i, j);
        }
    }
}

/// Every child of a well-formed node is well formed.
pub proof fn lemma_child_wf<V>(n: BTreeNode<V>, idx: int)
    requires
        n.wf(),
        0 <= idx < n.children@.len(),
    ensures
        n.children@[idx].wf(),
{
    let (cs, ks, vs) = (n.children@, n.keys@, n.values@);
    lemma_walk_around(cs, ks, vs, idx);
    let a = BTreeNode::walk(cs, ks, vs, idx);
    let b = cs[idx].entries();
    let c = walk_tail(cs, ks, vs, idx);
    assert forall|x: int, y: int| 0 <= x < y < b.len() implies b[x].0 < b[y].0 by {
        assert(b[x] == (a + b + c)[a.len() + x]);
        assert(b[y] == (a + b + c)[a.len() + y]);
    }
}

/// A height bound keeps holding when it is raised.
pub proof fn lemma_height_mono<V>(n: BTreeNode<V>, h: nat, g: nat)
    requires
        n.height_le(h),
        h <= g,
    ensures
        n.height_le(g),
    decreases n,
{
    assert forall|j: int| 0 <= j < n.children@.len() implies (#[trigger] n.children@[j]).height_le((g - 1) as nat) by {
        lemma_height_mono(*n.children@[j], (h - 1) as nat, (g - 1) as nat);
    }
}

/// The walk of a node that took in the first pair of a child's sibling at `idx`
/// and the rest of it, `st`, as child `idx + 1`.
pub proof fn lemma_absorb_walk_split<V>(
    pre: BTreeNode<V>,
    cp: Box<BTreeNode<V>>,
    s: BTreeNode<V>,
    st: Box<BTreeNode<V>>,
    post: BTreeNode<V>,
    idx: int,
)
    requires
        pre.children@.len() == pre.keys@.len() + 1,
        pre.keys@.len() == pre.values@.len(),
        0 <= idx <= pre.keys@.len(),
        s.keys@.len() >= 1,
        post.keys@ == pre.keys@.insert(idx, s.keys@[0]),
        post.values@ == pre.values@.insert(idx, s.values@[0]),
        post.children@ == pre.children@.update(idx, cp).insert(idx + 1, st),
        st.keys@ == s.keys@.drop_first(),
        st.values@ == s.values@.drop_first(),
        st.children@ == s.children@,
    ensures
        post.entries() == BTreeNode::walk(pre.children@, pre.keys@, pre.values@, idx) + cp.combined(Some(s))
            + walk_tail(pre.children@, pre.keys@, pre.values@, idx),
{
    let (cs, ks, vs) = (pre.children@, pre.keys@, pre.values@);
    let (cs2, ks2, vs2) = (post.children@, post.keys@, post.values@);
    let w = BTreeNode::walk(cs, ks, vs, idx);
    lemma_walk_frame(cs, ks, vs, cs2, ks2, vs2, idx);
    assert(st.entries() =~= s.overflow_entries().drop_first());
    lemma_walk_around(cs2, ks2, vs2, idx + 1);
    assert(BTreeNode::walk(cs2, ks2, vs2, idx + 1) == w + cp.entries() + seq![(ks2[idx], vs2[idx])]);
    if idx < ks.len() {
        assert(cs2.subrange(idx + 2, cs2.len() as int) =~= cs.subrange(idx + 1, cs.len() as int));
        assert(ks2.subrange(idx + 2, ks2.len() as int) =~= ks.subrange(idx + 1, ks.len() as int));
        assert(vs2.subrange(idx + 2, vs2.len() as int) =~= vs.subrange(idx + 1, vs.len() as int));
    }
    assert(walk_tail(cs2, ks2, vs2, idx + 1) == walk_tail(cs, ks, vs, idx));
    assert(post.entries() =~= w + cp.combined(Some(s)) + walk_tail(cs, ks, vs, idx));
}

/// The walk of a node whose child `idx` became `cp` with no sibling split off.
pub proof fn lemma_absorb_walk_plain<V>(pre: BTreeNode<V>, cp: Box<BTreeNode<V>>, post: BTreeNode<V>, idx: int)
    requires
        pre.children@.len() == pre.keys@.len() + 1,
        pre.keys@.len() == pre.values@.len(),
        0 <= idx <= pre.keys@.len(),
        post.keys@ == pre.keys@,
        post.values@ == pre.values@,
        post.children@ == pre.children@.update(idx, cp),
    ensures
        post.entries() == BTreeNode::walk(pre.children@, pre.keys@, pre.values@, idx) + cp.combined(None)
            + walk_tail(pre.children@, pre.keys@, pre.values@, idx),
{
    let (cs, ks, vs) = (pre.children@, pre.keys@, pre.values@);
    let (cs2, ks2, vs2) = (post.children@, post.keys@, post.values@);
    lemma_walk_frame(cs, ks, vs, cs2, ks2, vs2, idx);
    lemma_walk_around(cs2, ks2, vs2, idx);
    if idx < ks.len() {
        assert(cs2.subrange(idx + 1, cs2.len() as int) =~= cs.subrange(idx + 1, cs.len() as int));
    }
    assert(walk_tail(cs2, ks2, vs2, idx) == walk_tail(cs, ks, vs, idx));
    assert(post.entries() =~= BTreeNode::walk(cs, ks, vs, idx) + cp.combined(None) + walk_tail(cs, ks, vs, idx));
}

/// A well-formed internal node whose child `idx` took in `e` (the child becoming
/// `cp`, maybe with a sibling `ov` split off) and that took in the sibling's first
/// pair at `idx` and the rest of it, `st`, as child `idx + 1`: the node stays well
/// formed and its walk gains `e` at its place.
pub proof fn lemma_absorb<V>(
    pre: BTreeNode<V>,
    cp: Box<BTreeNode<V>>,
    ov: Option<BTreeNode<V>>,
    st: Box<BTreeNode<V>>,
    post: BTreeNode<V>,
    idx: int,
    e: (u64, V),
)
    requires
        pre.wf(),
        !pre.is_leaf,
        0 <= idx <= pre.keys@.len(),
        forall|j: int| 0 <= j < idx ==> #[trigger] pre.keys@[j] < e.0,
        forall|j: int| idx <= j < pre.keys@.len() ==> e.0 < #[trigger] pre.keys@[j],
        cp.wf(),
        sorted(cp.combined(ov)),
        exists|p: int| 0 <= p <= pre.children@[idx].entries().len() && cp.combined(ov) == pre.children@[idx].entries().insert(p, e),
        post.is_leaf == false,
        ov is None ==> {
            &&& post.keys@ == pre.keys@
            &&& post.values@ == pre.values@
            &&& post.children@ == pre.children@.update(idx, cp)
        },
        ov is Some ==> {
            &&& ov.unwrap().overflow_ok()
            &&& post.keys@ == pre.keys@.insert(idx, ov.unwrap().keys@[0])
            &&& post.values@ == pre.values@.insert(idx, ov.unwrap().values@[0])
            &&& post.children@ == pre.children@.update(idx, cp).insert(idx + 1, st)
            &&& st.keys@ == ov.unwrap().keys@.drop_first()
            &&& st.values@ == ov.unwrap().values@.drop_first()
            &&& st.children@ == ov.unwrap().children@
            &&& st.is_leaf == ov.unwrap().is_leaf
        },
    ensures
        post.wf(),
        exists|p: int| 0 <= p <= pre.entries().len() && post.entries() == pre.entries().insert(p, e),
{
    let (cs, ks, vs) = (pre.children@, pre.keys@, pre.values@);
    let cs2 = post.children@;
    let c = pre.children@[idx];
    let p = choose|p: int| 0 <= p <= c.entries().len() && cp.combined(ov) == c.entries().insert(p, e);
    lemma_walk_around(cs, ks, vs, idx);
    let w = BTreeNode::walk(cs, ks, vs, idx);
    let tail = walk_tail(cs, ks, vs, idx);
    if ov is Some {
        lemma_absorb_walk_split(pre, cp, ov.unwrap(), st, post, idx);
        assert forall|j: int| 0 <= j < cs2.len() implies (#[trigger] cs2[j]).shape_ok() by {
            if j < idx {
                assert(cs2[j] == cs[j]);
            } else if j > idx + 1 {
                assert(cs2[j] == cs[j - 1]);
            }
        }
    } else {
        lemma_absorb_walk_plain(pre, cp, post, idx);
        assert forall|j: int| 0 <= j < cs2.len() implies (#[trigger] cs2[j]).shape_ok() by {
            if j != idx {
                assert(cs2[j] == cs[j]);
            }
        }
    }
    lemma_insert_in_middle(w, c.entries(), tail, p, e);
}

/// Splitting a well-shaped internal node before its key at `a`: the left part
/// keeps the keys before `a` and one child more, the sibling takes the rest, and
/// their walks together are the node's walk.
pub proof fn lemma_split_walk<V>(full: BTreeNode<V>, left: BTreeNode<V>, sib: BTreeNode<V>, a: int)
    requires
        full.children@.len() == full.keys@.len() + 1,
        full.keys@.len() == full.values@.len(),
        0 <= a < full.keys@.len(),
        left.keys@ == full.keys@.subrange(0, a),
        left.values@ == full.values@.subrange(0, a),
        left.children@ == full.children@.subrange(0, a + 1),
        sib.keys@ == full.keys@.subrange(a, full.keys@.len() as int),
        sib.values@ == full.values@.subrange(a, full.values@.len() as int),
        sib.children@ == full.children@.subrange(a + 1, full.children@.len() as int),
    ensures
        full.entries() == left.entries() + sib.overflow_entries(),
{
    let (cs, ks, vs) = (full.children@, full.keys@, full.values@);
    let (cl, kl, vl) = (left.children@, left.keys@, left.values@);
    lemma_walk_around(cs, ks, vs, a);
    lemma_walk_frame(cs, ks, vs, cl, kl, vl, a);
    assert(left.entries() == BTreeNode::walk(cs, ks, vs, a) + cs[a].entries());
    assert(sib.keys@.drop_first() =~= ks.subrange(a + 1, ks.len() as int));
    assert(sib.values@.drop_first() =~= vs.subrange(a + 1, vs.len() as int));
    assert(full.entries() =~= left.entries() + sib.overflow_entries());
}

/// A node whose child `idx` was replaced by `post.children@[idx]`: it stays
/// consistent, and its height bounds, capacity and balance follow those of the
/// child (`keep` says whether the child kept its balance).
pub proof fn lemma_child_replaced<V>(pre: BTreeNode<V>, post: BTreeNode<V>, idx: int, grew: bool, cap: nat, keep: bool)
    requires
        keep ==> forall|h: nat| #[trigger] pre.children@[idx].balanced(h) ==> post.children@[idx].balanced(h),
        pre.fits(cap) ==> post.children@[idx].fits(cap),
        pre.consistent(),
        0 <= idx < pre.children@.len(),
        post.keys@.len() == pre.keys@.len(),
        post.values@.len() == pre.values@.len(),
        post.children@ == pre.children@.update(idx, post.children@[idx]),
        post.children@[idx].consistent(),
        forall|h: nat| #[trigger] pre.children@[idx].height_le(h) ==> post.children@[idx].height_le(h + 1),
        !grew ==> forall|h: nat| #[trigger] pre.children@[idx].height_le(h) ==> post.children@[idx].height_le(h),
    ensures
        post.consistent(),
        forall|h: nat| #[trigger] pre.height_le(h) ==> post.height_le(h + 1),
        !grew ==> forall|h: nat| #[trigger] pre.height_le(h) ==> post.height_le(h),
        pre.fits(cap) ==> post.fits(cap),
        keep ==> forall|h: nat| #[trigger] pre.balanced(h) ==> post.balanced(h),
{
    assert forall|j: int| 0 <= j < post.children@.len() implies (#[trigger] post.children@[j]).consistent() && (pre.fits(cap) ==> post.children@[j].fits(cap)) by {
        if j != idx {
            assert(post.children@[j] == pre.children@[j]);
        }
    }
    if keep {
        assert forall|h: nat| #[trigger] pre.balanced(h) implies post.balanced(h) by {
            assert(pre.children@[idx].balanced((h - 1) as nat));
            assert forall|j: int| 0 <= j < post.children@.len() implies (#[trigger] post.children@[j]).balanced((h - 1) as nat) by {
                if j != idx {
                    assert(post.children@[j] == pre.children@[j]);
                }
            }
        }
    }
    assert forall|h: nat| #[trigger] pre.height_le(h) implies post.height_le(h + 1) && (!grew ==> post.height_le(h)) by {
        assert(pre.children@[idx].height_le((h - 1) as nat));
        assert forall|j: int| 0 <= j < post.children@.len() implies (#[trigger] post.children@[j]).height_le(h) && (!grew ==> post.children@[j].height_le((h - 1) as nat)) by {
            if j != idx {
                assert(post.children@[j] == pre.children@[j]);
                lemma_height_mono(*pre.children@[j], (h - 1) as nat, h);
            }
        }
    }
}

/// A node whose child `idx` became `cp` and that linked `st` in as child
/// `idx + 1`, both no taller than the child was: it stays consistent and no
/// taller, its children fit the capacity, and (where `keep` holds) it stays balanced.
pub proof fn lemma_sibling_linked<V>(
    pre: BTreeNode<V>,
    cp: Box<BTreeNode<V>>,
    st: Box<BTreeNode<V>>,
    full: BTreeNode<V>,
    idx: int,
    cap: nat,
    keep: bool,
)
    requires
        keep ==> forall|h: nat| #[trigger] pre.children@[idx].balanced(h) ==> cp.balanced(h) && st.balanced(h),
        pre.fits(cap) ==> cp.fits(cap) && st.fits(cap) && full.keys@.len() <= cap + 1,
        pre.consistent(),
        0 <= idx < pre.children@.len(),
        full.values@.len() == full.keys@.len(),
        cp.consistent(),
        st.consistent(),
        full.children@ == pre.children@.update(idx, cp).insert(idx + 1, st),
        forall|h: nat| #[trigger] pre.children@[idx].height_le(h) ==> cp.height_le(h) && st.height_le(h),
    ensures
        full.consistent(),
        forall|h: nat| #[trigger] pre.height_le(h) ==> full.height_le(h),
        pre.fits(cap) ==> forall|j: int| 0 <= j < full.children@.len() ==> (#[trigger] full.children@[j]).fits(cap),
        keep ==> forall|h: nat| #[trigger] pre.balanced(h) ==> full.balanced(h),
{
    let (cs, fc) = (pre.children@, full.children@);
    assert forall|j: int| 0 <= j < fc.len() implies (#[trigger] fc[j]).consistent() && (pre.fits(cap) ==> fc[j].fits(cap)) && (fc[j] == cp || fc[j] == st || exists|i: int| 0 <= i < cs.len() && fc[j] == cs[i]) by {
        if j < idx {
            assert(fc[j] == cs[j]);
        } else if j > idx + 1 {
            assert(fc[j] == cs[j - 1]);
        }
    }
    assert forall|h: nat| #[trigger] pre.height_le(h) implies full.height_le(h) by {
        assert(cs[idx].height_le((h - 1) as nat));
        assert forall|j: int| 0 <= j < fc.len() implies (#[trigger] fc[j]).height_le((h - 1) as nat) by {
            assert(fc[j] == cp || fc[j] == st || exists|i: int| 0 <= i < cs.len() && fc[j] == cs[i]);
        }
    }
    if keep {
        assert forall|h: nat| #[trigger] pre.balanced(h) implies full.balanced(h) by {
            assert(cs[idx].balanced((h - 1) as nat));
            assert forall|j: int| 0 <= j < fc.len() implies (#[trigger] fc[j]).balanced((h - 1) as nat) by {
                assert(fc[j] == cp || fc[j] == st || exists|i: int| 0 <= i < cs.len() && fc[j] == cs[i]);
            }
        }
    }
}

/// The two parts of a split node, whose children together are those of `full`,
/// stay consistent and no taller than it, keep its balance where they have
/// children as it does, and fit the capacity where their own keys do.
pub proof fn lemma_split_parts<V>(full: BTreeNode<V>, left: BTreeNode<V>, right: BTreeNode<V>, cap: nat)
    requires
        full.consistent(),
        left.values@.len() == left.keys@.len(),
        right.values@.len() == right.keys@.len(),
        left.children@ + right.children@ == full.children@,
    ensures
        left.consistent(),
        right.consistent(),
        forall|h: nat| #[trigger] full.height_le(h) ==> left.height_le(h) && right.height_le(h),
        forall|h: nat| #[trigger] full.balanced(h) ==> {
            &&& (left.children@.len() == 0 <==> h == 0) ==> left.balanced(h)
            &&& (right.children@.len() == 0 <==> h == 0) ==> right.balanced(h)
        },
        (forall|j: int| 0 <= j < full.children@.len() ==> (#[trigger] full.children@[j]).fits(cap)) ==> {
            &&& left.keys@.len() <= cap ==> left.fits(cap)
            &&& right.keys@.len() <= cap ==> right.fits(cap)
        },
{
    let (fc, lc, rc) = (full.children@, left.children@, right.children@);
    assert forall|j: int| 0 <= j < lc.len() implies #[trigger] lc[j] == fc[j] by {
        assert(lc[j] == (lc + rc)[j]);
    }
    assert forall|j: int| 0 <= j < rc.len() implies #[trigger] rc[j] == fc[lc.len() + j] by {
        assert(rc[j] == (lc + rc)[lc.len() + j]);
    }
}

/// A well-formed subtree keeps the node invariants at every node.
pub proof fn lemma_wf_node_invariants<V>(n: BTreeNode<V>)
    requires
        n.wf(),
    ensures
        n.node_invariants(),
    decreases n,
{
    lemma_keys_increasing(n);
    assert forall|j: int| 0 <= j < n.children@.len() implies (#[trigger] n.children@[j]).node_invariants() by {
        lemma_child_wf(n, j);
        lemma_wf_node_invariants(*n.children@[j]);
    }
}

/// A well-formed subtree has the separator property at every internal node.
pub proof fn lemma_wf_separated<V>(n: BTreeNode<V>)
    requires
        n.wf(),
    ensures
        n.separated(),
    decreases n,
{
    if !n.is_leaf {
        let (cs, ks, vs) = (n.children@, n.keys@, n.values@);
        assert forall|i: int, x: int| 0 <= i < cs.len() && 0 <= x < cs[i].entries().len() implies {
            &&& i < ks.len() ==> (#[trigger] cs[i].entries()[x]).0 < ks[i]
            &&& 0 < i ==> ks[i - 1] < cs[i].entries()[x].0
        } by {
            lemma_walk_around(cs, ks, vs, i);
            let w = BTreeNode::walk(cs, ks, vs, i);
            let t = walk_tail(cs, ks, vs, i);
            let whole = w + cs[i].entries() + t;
            assert(whole[w.len() + x] == cs[i].entries()[x]);
            if i < ks.len() {
                assert(whole[(w.len() + cs[i].entries().len()) as int] == t[0]);
            }
            if 0 < i {
                assert(whole[w.len() - 1] == w.last());
            }
        }
    }
    assert forall|j: int| 0 <= j < n.children@.len() implies (#[trigger] n.children@[j]).separated() by {
        lemma_child_wf(n, j);
        lemma_wf_separated(*n.children@[j]);
    }
}

/// Every subtree is the same as itself.
pub proof fn lemma_same_refl<V>(n: BTreeNode<V>)
    ensures
        n.same_as(n),
    decreases n,
{
    assert forall|j: int| 0 <= j < n.children@.len() implies (#[trigger] n.children@[j]).same_as(*n.children@[j]) by {
        lemma_same_refl(*n.children@[j]);
    }
}

/// A sequence with one item inserted at `i` grows at `i`.
pub proof fn lemma_grows_insert<T>(old: Seq<T>, new: Seq<T>, i: int, x: T)
    requires
        0 <= i <= old.len(),
        new == old.insert(i, x),
    ensures
        grows_at(old, new, i),
{
    assert(new.subrange(0, i) =~= old.subrange(0, i));
    assert(new.subrange(new.len() - (old.len() - i), new.len() as int) =~= old.subrange(i, old.len() as int));
}

/// A sequence left as it is grows at any `i` within it.
pub proof fn lemma_grows_same<T>(old: Seq<T>, new: Seq<T>, i: int)
    requires
        0 <= i <= old.len(),
        new == old,
    ensures
        grows_at(old, new, i),
{
    assert(new.subrange(new.len() - (old.len() - i), new.len() as int) =~= old.subrange(i, old.len() as int));
}

} // verus!
