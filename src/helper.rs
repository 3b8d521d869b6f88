//! Choosing among the intersections of a ray with the walls.
use vstd::prelude::*;

verus! {

/// How many distinct key values lie below `k`: each value is counted at its
/// first occurrence.
pub open spec fn distinct_below(keys: Seq<i64>, k: int) -> int
    decreases keys.len(),
{
    if keys.len() == 0 {
        0
    } else {
        let t = keys.drop_last();
        distinct_below(t, k) + if keys.last() < k && !t.contains(keys.last()) {
            1int
        } else {
            0int
        }
    }
}

/// How many distinct key values there are.
pub open spec fn distinct_count(keys: Seq<i64>) -> int
    decreases keys.len(),
{
    if keys.len() == 0 {
        0
    } else {
        let t = keys.drop_last();
        distinct_count(t) + if !t.contains(keys.last()) {
            1int
        } else {
            0int
        }
    }
}

proof fn lemma_contains_push(t: Seq<i64>, x: i64, y: i64)
    ensures
        t.push(x).contains(y) <==> (t.contains(y) || x == y),
{
    if t.push(x).contains(y) {
        let k = choose|k: int| 0 <= k < t.push(x).len() && t.push(x)[k] == y;
        if k < t.len() {
            assert(t[k] == y);
        }
    }
    if t.contains(y) {
        let k = choose|k: int| 0 <= k < t.len() && t[k] == y;
        assert(t.push(x)[k] == y);
    }
    assert(t.push(x)[t.len() as int] == x);
}

/// No value lies below a value that no key undercuts.
proof fn lemma_below_none(keys: Seq<i64>, k: int)
    requires
        forall|j: int| 0 <= j < keys.len() ==> k <= #[trigger] keys[j],
    ensures
        distinct_below(keys, k) == 0,
    decreases keys.len(),
{
    if keys.len() > 0 {
        lemma_below_none(keys.drop_last(), k);
    }
}

/// Stepping from `cur` to the next value `n` above it adds `cur` itself to
/// the values below.
proof fn lemma_step(keys: Seq<i64>, cur: i64, n: i64)
    requires
        cur < n,
        forall|i: int| 0 <= i < keys.len() ==> !(cur < #[trigger] keys[i] < n),
    ensures
        distinct_below(keys, n as int) == distinct_below(keys, cur as int) + if keys.contains(cur) {
            1int
        } else {
            0int
        },
    decreases keys.len(),
{
    if keys.len() > 0 {
        let t = keys.drop_last();
        assert(keys == t.push(keys.last()));
        lemma_step(t, cur, n);
        lemma_contains_push(t, keys.last(), cur);
        assert(!(cur < keys[keys.len() - 1] < n));
    }
}

/// When no key lies above `cur`, the values are those below it and `cur`
/// itself.
proof fn lemma_top(keys: Seq<i64>, cur: i64)
    requires
        forall|i: int| 0 <= i < keys.len() ==> #[trigger] keys[i] <= cur,
    ensures
        distinct_count(keys) == distinct_below(keys, cur as int) + if keys.contains(cur) {
            1int
        } else {
            0int
        },
    decreases keys.len(),
{
    if keys.len() > 0 {
        let t = keys.drop_last();
        assert(keys == t.push(keys.last()));
        lemma_top(t, cur);
        lemma_contains_push(t, keys.last(), cur);
        assert(keys[keys.len() - 1] <= cur);
    }
}

proof fn lemma_below_le_count(keys: Seq<i64>, k: int)
    ensures
        distinct_below(keys, k) <= distinct_count(keys),
    decreases keys.len(),
{
    if keys.len() > 0 {
        lemma_below_le_count(keys.drop_last(), k);
    }
}

/// A present value has fewer values below it than there are values.
proof fn lemma_present_below(keys: Seq<i64>, k: i64)
    requires
        keys.contains(k),
    ensures
        distinct_below(keys, k as int) + 1 <= distinct_count(keys),
    decreases keys.len(),
{
    let t = keys.drop_last();
    assert(keys == t.push(keys.last()));
    lemma_contains_push(t, keys.last(), k);
    if t.contains(k) {
        lemma_present_below(t, k);
    } else {
        lemma_below_le_count(t, k as int);
    }
}

/// The smallest key above `k`, if any.
fn next_key_above(keys: &Vec<i64>, k: i64) -> (r: Option<i64>)
    ensures
        r is None ==> forall|i: int| 0 <= i < keys@.len() ==> #[trigger] keys@[i] <= k,
        r matches Some(n) ==> {
            &&& k < n
            &&& keys@.contains(n)
            &&& forall|i: int| 0 <= i < keys@.len() ==> !(k < #[trigger] keys@[i] < n)
        },
{
    let mut best: Option<i64> = None;
    let mut i: usize = 0;
    while i < keys.len()
        invariant
            0 <= i <= keys@.len(),
            best is None ==> forall|j: int| 0 <= j < i ==> #[trigger] keys@[j] <= k,
            best matches Some(n) ==> {
                &&& k < n
                &&& keys@.contains(n)
                &&& forall|j: int| 0 <= j < i ==> !(k < #[trigger] keys@[j] < n)
            },
        decreases keys@.len() - i,
    {
        let v = keys[i];
        if k < v {
            match best {
                Some(n) => {
                    if v < n {
                        best = Some(v);
                    }
                },
                None => {
                    best = Some(v);
                },
            }
        }
        i = i + 1;
    }
    best
}

/// Picks, among candidate intersections keyed by their scaled distance from
/// the ray's start, one whose key is the `skip`-th smallest distinct key;
/// equal keys are one intersection, and of candidates with equal keys the
/// last one stands for it. None when `skip` reaches the number of distinct
/// keys.
pub fn pick_intersection(keys: &Vec<i64>, skip: usize) -> (r: Option<usize>)
    ensures
        r is None <==> skip >= distinct_count(keys@),
        r matches Some(i) ==> {
            &&& i < keys@.len()
            &&& distinct_below(keys@, keys@[i as int] as int) == skip
            &&& forall|j: int| i < j < keys@.len() ==> keys@[j] != keys@[i as int]
        },
{
    if keys.len() == 0 {
        return None;
    }
    // Start from the smallest key: nothing lies below it.
    let mut cur: i64 = keys[0];
    let mut i: usize = 1;
    while i < keys.len()
        invariant
            1 <= i <= keys@.len(),
            keys@.contains(cur),
            forall|j: int| 0 <= j < i ==> cur <= #[trigger] keys@[j],
        decreases keys@.len() - i,
    {
        if keys[i] < cur {
            cur = keys[i];
        }
        i = i + 1;
    }
    proof {
        lemma_below_none(keys@, cur as int);
    }
    let mut rank: usize = 0;
    while rank < skip
        invariant
            keys@.contains(cur),
            distinct_below(keys@, cur as int) == rank,
            rank <= skip,
        decreases skip - rank,
    {
        match next_key_above(keys, cur) {
            Some(n) => {
                proof {
                    lemma_step(keys@, cur, n);
                }
                cur = n;
                rank = rank + 1;
            },
            None => {
                proof {
                    lemma_top(keys@, cur);
                }
                return None;
            },
        }
    }
    proof {
        lemma_present_below(keys@, cur);
    }
    let mut last: usize = keys.len();
    let mut i: usize = keys.len();
    while i > 0
        invariant
            0 <= i <= keys@.len(),
            last == keys@.len() ==> forall|j: int| i <= j < keys@.len() ==> keys@[j] != cur,
            last < keys@.len() ==> keys@[last as int] == cur && forall|j: int|
                last < j < keys@.len() ==> keys@[j] != cur,
            last == keys@.len() || last < keys@.len(),
        decreases i,
    {
        i = i - 1;
        if last == keys.len() && keys[i] == cur {
            last = i;
        }
    }
    proof {
        if last == keys@.len() {
            let j = choose|j: int| 0 <= j < keys@.len() && keys@[j] == cur;
            assert(keys@[j] != cur);
        }
    }
    Some(last)
}

} // verus!
