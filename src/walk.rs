use vstd::prelude::*;

verus! {

/// Keys strictly increase along the sequence.
pub open spec fn sorted<V>(s: Seq<(u64, V)>) -> bool {
    forall|i: int, j: int| 0 <= i < j < s.len() ==> s[i].0 < s[j].0
}

/// Keys strictly increase along the sequence of keys.
pub open spec fn increasing(ks: Seq<u64>) -> bool {
    forall|i: int, j: int| 0 <= i < j < ks.len() ==> ks[i] < ks[j]
}

/// The key/value pairs of two parallel sequences, position by position.
pub open spec fn pairs<V>(keys: Seq<u64>, values: Seq<V>) -> Seq<(u64, V)> {
    Seq::new(keys.len(), |i: int| (keys[i], values[i]))
}

/// Some pair of the sequence has key `k`.
pub open spec fn has_key<V>(s: Seq<(u64, V)>, k: u64) -> bool {
    exists|i: int| 0 <= i < s.len() && (#[trigger] s[i]).0 == k
}

/// The map from each key of the sequence to the value paired with it.
pub open spec fn entry_map<V>(s: Seq<(u64, V)>) -> Map<u64, V> {
    Map::new(
        |k: u64| has_key(s, k),
        |k: u64| s[choose|i: int| 0 <= i < s.len() && (#[trigger] s[i]).0 == k].1,
    )
}

/// The keys of the sequence, in order.
pub open spec fn keys_of<V>(s: Seq<(u64, V)>) -> Seq<u64> {
    s.map_values(|e: (u64, V)| e.0)
}

/// Inserting a pair whose key lies strictly between its neighbours keeps the order.
pub proof fn lemma_sorted_insert<V>(s: Seq<(u64, V)>, p: int, e: (u64, V))
    requires
        sorted(s),
        0 <= p <= s.len(),
        p > 0 ==> s[p - 1].0 < e.0,
        p < s.len() ==> e.0 < s[p].0,
    ensures
        sorted(s.insert(p, e)),
{
    let t = s.insert(p, e);
    assert forall|i: int, j: int| 0 <= i < j < t.len() implies t[i].0 < t[j].0 by {
        if i < p && j > p {
            assert(s[i].0 <= s[p - 1].0);
        } else if i == p && j > p + 1 {
            assert(s[p].0 <= s[j - 1].0);
        }
    }
}

/// In a sorted concatenation, a key that falls after everything in `a` and before
/// everything in `c` can only be found in `b`.
pub proof fn lemma_has_key_middle<V>(a: Seq<(u64, V)>, b: Seq<(u64, V)>, c: Seq<(u64, V)>, k: u64)
    requires
        sorted(a + b + c),
        a.len() > 0 ==> a.last().0 < k,
        c.len() > 0 ==> k < c[0].0,
    ensures
        has_key(a + b + c, k) == has_key(b, k),
{
    let s = a + b + c;
    if has_key(s, k) {
        let i = choose|i: int| 0 <= i < s.len() && (#[trigger] s[i]).0 == k;
        if i < a.len() {
            assert(s[i].0 <= s[a.len() - 1].0);
            assert(false);
        } else if i >= a.len() + b.len() {
            assert(s[(a.len() + b.len()) as int].0 <= s[i].0);
            assert(false);
        } else {
            assert(b[i - a.len()] == s[i]);
        }
    }
    if has_key(b, k) {
        let i = choose|i: int| 0 <= i < b.len() && (#[trigger] b[i]).0 == k;
        assert(s[a.len() as int + i] == b[i]);
    }
}

/// Inserting a pair with a new key into a sorted sequence adds that key to its map.
pub proof fn lemma_entry_map_insert<V>(s: Seq<(u64, V)>, p: int, e: (u64, V))
    requires
        sorted(s),
        0 <= p <= s.len(),
        sorted(s.insert(p, e)),
    ensures
        entry_map(s.insert(p, e)) == entry_map(s).insert(e.0, e.1),
        !has_key(s, e.0),
{
    let t = s.insert(p, e);
    if has_key(s, e.0) {
        let i = choose|i: int| 0 <= i < s.len() && (#[trigger] s[i]).0 == e.0;
        if i < p {
            assert(t[i] == s[i]);
        } else {
            assert(t[i + 1] == s[i]);
        }
        assert(false);
    }
    assert forall|k: u64| has_key(t, k) == (has_key(s, k) || k == e.0) by {
        if has_key(s, k) {
            let i = choose|i: int| 0 <= i < s.len() && (#[trigger] s[i]).0 == k;
            if i < p {
                assert(t[i] == s[i]);
            } else {
                assert(t[i + 1] == s[i]);
            }
        }
        if k == e.0 {
            assert(t[p] == e);
        }
        if has_key(t, k) && k != e.0 {
            let i = choose|i: int| 0 <= i < t.len() && (#[trigger] t[i]).0 == k;
            if i < p {
                assert(t[i] == s[i]);
            } else {
                assert(t[i] == s[i - 1]);
            }
        }
    }
    assert forall|k: u64| #[trigger] entry_map(t).contains_key(k) && k != e.0 implies entry_map(t)[k] == entry_map(s)[k] by {
        let i = choose|i: int| 0 <= i < t.len() && (#[trigger] t[i]).0 == k;
        let j = choose|j: int| 0 <= j < s.len() && (#[trigger] s[j]).0 == k;
        let jt = if j < p { j } else { j + 1 };
        assert(t[jt] == s[j]);
        if i < jt {
            assert(t[i].0 < t[jt].0);
        } else if jt < i {
            assert(t[jt].0 < t[i].0);
        }
    }
    assert(entry_map(t).contains_key(e.0));
    let i = choose|i: int| 0 <= i < t.len() && (#[trigger] t[i]).0 == e.0;
    if i < p {
        assert(t[i].0 < t[p].0);
    } else if p < i {
        assert(t[p].0 < t[i].0);
    }
    assert(entry_map(t) =~= entry_map(s).insert(e.0, e.1));
}

/// Both parts of a sorted concatenation are sorted.
pub proof fn lemma_sorted_parts<V>(a: Seq<(u64, V)>, b: Seq<(u64, V)>)
    requires
        sorted(a + b),
    ensures
        sorted(a),
        sorted(b),
{
    assert forall|i: int, j: int| 0 <= i < j < a.len() implies a[i].0 < a[j].0 by {
        assert(a[i] == (a + b)[i] && a[j] == (a + b)[j]);
    }
    assert forall|i: int, j: int| 0 <= i < j < b.len() implies b[i].0 < b[j].0 by {
        assert(b[i] == (a + b)[a.len() + i] && b[j] == (a + b)[a.len() + j]);
    }
}

/// Inserting `e` into the middle part of a sorted concatenation, where it falls
/// after everything in `w` and before everything in `t`.
pub proof fn lemma_insert_in_middle<V>(
    w: Seq<(u64, V)>,
    c: Seq<(u64, V)>,
    t: Seq<(u64, V)>,
    p: int,
    e: (u64, V),
)
    requires
        sorted(w + c + t),
        0 <= p <= c.len(),
        sorted(c.insert(p, e)),
        w.len() > 0 ==> w.last().0 < e.0,
        t.len() > 0 ==> e.0 < t[0].0,
    ensures
        w + c.insert(p, e) + t == (w + c + t).insert(w.len() + p, e),
        sorted(w + c.insert(p, e) + t),
{
    let s = w + c + t;
    let q = w.len() + p;
    let comb = c.insert(p, e);
    assert(w + comb + t =~= s.insert(q, e));
    assert(comb[p] == e);
    if p > 0 {
        assert(comb[p - 1] == c[p - 1]);
        assert(s[q - 1] == c[p - 1]);
    } else if q > 0 {
        assert(s[q - 1] == w.last());
    }
    if p < c.len() {
        assert(comb[p + 1] == c[p]);
        assert(s[q] == c[p]);
    } else if q < s.len() {
        assert(s[q] == t[0]);
    }
    lemma_sorted_insert(s, q, e);
}

/// Binary search over strictly increasing keys: `Ok` with the position of `key`,
/// or `Err` with the position where it would be inserted.
pub fn find_slot(keys: &Vec<u64>, key: u64) -> (r: Result<usize, usize>)
    ensures
        match r {
            Ok(i) => i < keys@.len() && keys@[i as int] == key,
            Err(i) => i <= keys@.len() && (increasing(keys@) ==> {
                &&& forall|j: int| 0 <= j < i ==> #[trigger] keys@[j] < key
                &&& forall|j: int| i <= j < keys@.len() ==> key < #[trigger] keys@[j]
            }),
        },
{
    let mut lo: usize = 0;
    let mut hi: usize = keys.len();
    while lo < hi
        invariant
            lo <= hi <= keys@.len(),
            increasing(keys@) ==> forall|j: int| 0 <= j < lo ==> #[trigger] keys@[j] < key,
            increasing(keys@) ==> forall|j: int| hi <= j < keys@.len() ==> key < #[trigger] keys@[j],
        decreases hi - lo,
    {
        let mid: usize = lo + (hi - lo) / 2;
        if keys[mid] == key {
            return Ok(mid);
        } else if keys[mid] < key {
            lo = mid + 1;
        } else {
            hi = mid;
        }
    }
    Err(lo)
}

} // verus!
