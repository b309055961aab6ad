//! Stable sorting by integer keys.
use vstd::prelude::*;

verus! {

/// Whether position `a` comes before position `b`: by the key, and by the position where the keys
/// are equal.
pub open spec fn precedes(keys: Seq<i128>, a: int, b: int) -> bool {
    keys[a] < keys[b] || (keys[a] == keys[b] && a < b)
}

/// Whether `order` lists positions of `keys` from `lo` up to `hi` in stable order.
pub open spec fn orders_range(keys: Seq<i128>, order: Seq<usize>, lo: int, hi: int) -> bool {
    &&& order.len() == hi - lo
    &&& forall|i: int| 0 <= i < order.len() ==> lo <= #[trigger] order[i] < hi
    &&& forall|i: int, j: int|
        0 <= i < j < order.len() ==> precedes(
            keys,
            (#[trigger] order[i]) as int,
            (#[trigger] order[j]) as int,
        )
}

/// Whether `order` lists all positions of `keys` with ascending keys, and those with equal keys in
/// their own order.
pub open spec fn is_stable_order(keys: Seq<i128>, order: Seq<usize>) -> bool {
    orders_range(keys, order, 0, keys.len() as int)
}

/// The items of `s` at the positions that `order` lists.
pub open spec fn arranged<T>(s: Seq<T>, order: Seq<usize>) -> Seq<T> {
    Seq::new(order.len(), |i: int| s[order[i] as int])
}

/// Whether `out` is `s` sorted stably by `keys`, which holds the key of each item of `s`.
pub open spec fn sorted_by<T>(s: Seq<T>, keys: Seq<i128>, out: Seq<T>) -> bool {
    exists|order: Seq<usize>| #[trigger] is_stable_order(keys, order) && out == arranged(s, order)
}

/// Merges two stable orders of neighbouring ranges.
fn merge(
    keys: &Vec<i128>,
    left: &Vec<usize>,
    right: &Vec<usize>,
    lo: usize,
    mid: usize,
    hi: usize,
) -> (r: Vec<usize>)
    requires
        lo <= mid <= hi <= keys@.len(),
        orders_range(keys@, left@, lo as int, mid as int),
        orders_range(keys@, right@, mid as int, hi as int),
    ensures
        orders_range(keys@, r@, lo as int, hi as int),
{
    let mut out: Vec<usize> = Vec::new();
    let mut i: usize = 0;
    let mut j: usize = 0;
    while i < left.len() || j < right.len()
        invariant
            lo <= mid <= hi <= keys@.len(),
            orders_range(keys@, left@, lo as int, mid as int),
            orders_range(keys@, right@, mid as int, hi as int),
            i <= left@.len(),
            j <= right@.len(),
            out@.len() == i + j,
            forall|a: int| 0 <= a < out@.len() ==> lo <= #[trigger] out@[a] < hi,
            forall|a: int, b: int|
                0 <= a < b < out@.len() ==> precedes(
                    keys@,
                    (#[trigger] out@[a]) as int,
                    (#[trigger] out@[b]) as int,
                ),
            forall|a: int, b: int|
                0 <= a < out@.len() && i <= b < left@.len() ==> precedes(
                    keys@,
                    (#[trigger] out@[a]) as int,
                    (#[trigger] left@[b]) as int,
                ),
            forall|a: int, b: int|
                0 <= a < out@.len() && j <= b < right@.len() ==> precedes(
                    keys@,
                    (#[trigger] out@[a]) as int,
                    (#[trigger] right@[b]) as int,
                ),
        decreases left@.len() + right@.len() - i - j,
    {
        if j >= right.len() || (i < left.len() && keys[left[i]] <= keys[right[j]]) {
            out.push(left[i]);
            i += 1;
        } else {
            out.push(right[j]);
            j += 1;
        }
    }
    out
}

fn order_range(keys: &Vec<i128>, lo: usize, hi: usize) -> (r: Vec<usize>)
    requires
        lo <= hi <= keys@.len(),
    ensures
        orders_range(keys@, r@, lo as int, hi as int),
    decreases hi - lo,
{
    let mut out: Vec<usize> = Vec::new();
    if hi - lo == 0 {
        out
    } else if hi - lo == 1 {
        out.push(lo);
        out
    } else {
        let mid: usize = lo + (hi - lo) / 2;
        let left = order_range(keys, lo, mid);
        let right = order_range(keys, mid, hi);
        merge(keys, &left, &right, lo, mid, hi)
    }
}

/// The positions of `keys` in stable ascending order of the keys.
pub fn stable_order(keys: &Vec<i128>) -> (r: Vec<usize>)
    ensures
        is_stable_order(keys@, r@),
{
    order_range(keys, 0, keys.len())
}

/// As many different positions as there are make up all positions.
proof fn lemma_all_positions(order: Seq<usize>, n: nat)
    requires
        order.len() == n,
        order.no_duplicates(),
        forall|i: int| 0 <= i < order.len() ==> #[trigger] order[i] < n,
    ensures
        forall|p: usize| p < n ==> #[trigger] order.contains(p),
{
    let ints = order.map_values(|x: usize| x as int);
    assert(ints.no_duplicates()) by {
        assert forall|i: int, j: int|
            0 <= i < ints.len() && 0 <= j < ints.len() && i != j implies ints[i] != ints[j] by {
            assert(order[i] != order[j]);
        }
    }
    let range = vstd::set_lib::set_int_range(0, n as int);
    vstd::set_lib::lemma_int_range(0, n as int);
    ints.unique_seq_to_set();
    assert(ints.to_set().subset_of(range)) by {
        assert forall|x: int| ints.to_set().contains(x) implies range.contains(x) by {
            let k = choose|k: int| 0 <= k < ints.len() && ints[k] == x;
            assert(0 <= order[k] < n);
        }
    }
    vstd::set_lib::lemma_subset_equality(ints.to_set(), range);
    assert forall|p: usize| p < n implies #[trigger] order.contains(p) by {
        assert(range.contains(p as int));
        assert(ints.to_set().contains(p as int));
        let k = choose|k: int| 0 <= k < ints.len() && ints[k] == p as int;
        assert(order[k] == p);
    }
}

/// A stable order lists every position exactly once.
pub proof fn law_order_is_permutation(keys: Seq<i128>, order: Seq<usize>)
    requires
        is_stable_order(keys, order),
    ensures
        order.no_duplicates(),
        forall|p: usize| p < keys.len() ==> #[trigger] order.contains(p),
{
    assert(order.no_duplicates());
    lemma_all_positions(order, keys.len());
}

proof fn lemma_arranged_items<T>(s: Seq<T>, order: Seq<usize>)
    requires
        order.len() == s.len(),
        order.no_duplicates(),
        forall|i: int| 0 <= i < order.len() ==> #[trigger] order[i] < s.len(),
    ensures
        arranged(s, order).to_multiset() == s.to_multiset(),
    decreases s.len(),
{
    if s.len() == 0 {
        assert(arranged(s, order) =~= s);
    } else {
        let n = s.len();
        lemma_all_positions(order, n);
        assert(order[0] < n);
        assert(exists|i: int| 0 <= i < order.len() && order[i] == n - 1) by {
            lemma_length_bound(order);
            assert(order.contains((n - 1) as usize));
        }
        let k = choose|i: int| 0 <= i < order.len() && order[i] == n - 1;
        let rest = order.remove(k);
        let init = s.drop_last();
        assert forall|i: int| 0 <= i < rest.len() implies #[trigger] rest[i] < init.len() by {
            let j = if i < k {
                i
            } else {
                i + 1
            };
            assert(rest[i] == order[j]);
            assert(order[j] != order[k]);
        }
        assert(rest.no_duplicates()) by {
            assert forall|i: int, j: int|
                0 <= i < rest.len() && 0 <= j < rest.len() && i != j implies rest[i]
                != rest[j] by {
                let a = if i < k {
                    i
                } else {
                    i + 1
                };
                let b = if j < k {
                    j
                } else {
                    j + 1
                };
                assert(order[a] != order[b]);
            }
        }
        lemma_arranged_items(init, rest);
        let some = arranged(init, rest);
        assert(arranged(s, order) =~= some.insert(k, s.last()));
        vstd::seq_lib::to_multiset_insert(some, k, s.last());
        vstd::seq_lib::to_multiset_build(init, s.last());
        assert(init.push(s.last()) =~= s);
    }
}

/// There are no more different positions than a `usize` can tell apart.
proof fn lemma_length_bound(order: Seq<usize>)
    requires
        order.no_duplicates(),
    ensures
        order.len() <= usize::MAX + 1,
{
    let ints = order.map_values(|x: usize| x as int);
    assert(ints.no_duplicates()) by {
        assert forall|i: int, j: int|
            0 <= i < ints.len() && 0 <= j < ints.len() && i != j implies ints[i] != ints[j] by {
            assert(order[i] != order[j]);
        }
    }
    let range = vstd::set_lib::set_int_range(0, usize::MAX + 1);
    vstd::set_lib::lemma_int_range(0, usize::MAX + 1);
    ints.unique_seq_to_set();
    assert(ints.to_set().subset_of(range)) by {
        assert forall|x: int| ints.to_set().contains(x) implies range.contains(x) by {
            let k = choose|k: int| 0 <= k < ints.len() && ints[k] == x;
            assert(order[k] as int == x);
        }
    }
    vstd::set_lib::lemma_len_subset(ints.to_set(), range);
}

/// Sorting loses and adds nothing.
pub proof fn law_sorted_is_permutation<T>(s: Seq<T>, keys: Seq<i128>, out: Seq<T>)
    requires
        sorted_by(s, keys, out),
        keys.len() == s.len(),
    ensures
        out.to_multiset() == s.to_multiset(),
        out.len() == s.len(),
{
    let order = choose|order: Seq<usize>| #[trigger]
        is_stable_order(keys, order) && out == arranged(s, order);
    law_order_is_permutation(keys, order);
    lemma_arranged_items(s, order);
}

/// Two stable orders of the same keys are the same order: a stable sort has one result.
pub proof fn law_order_is_unique(keys: Seq<i128>, a: Seq<usize>, b: Seq<usize>)
    requires
        is_stable_order(keys, a),
        is_stable_order(keys, b),
    ensures
        a == b,
{
    assert forall|k: int| 0 <= k < a.len() implies a[k] == b[k] by {
        lemma_same_prefix(keys, a, b, k);
    }
    assert(a =~= b);
}

proof fn lemma_same_prefix(keys: Seq<i128>, a: Seq<usize>, b: Seq<usize>, k: int)
    requires
        is_stable_order(keys, a),
        is_stable_order(keys, b),
        0 <= k < a.len(),
    ensures
        forall|i: int| 0 <= i <= k ==> a[i] == b[i],
    decreases k,
{
    if k > 0 {
        lemma_same_prefix(keys, a, b, k - 1);
    }
    law_order_is_permutation(keys, a);
    law_order_is_permutation(keys, b);
    if a[k] != b[k] {
        let x = a[k];
        let y = b[k];
        assert(b.contains(x));
        assert(a.contains(y));
        let i = choose|i: int| 0 <= i < b.len() && b[i] == x;
        let j = choose|j: int| 0 <= j < a.len() && a[j] == y;
        assert(i > k) by {
            if i < k {
                assert(a[i] == b[i]);
            }
        }
        assert(j > k) by {
            if j < k {
                assert(a[j] == b[j]);
            }
        }
        assert(precedes(keys, a[k] as int, a[j] as int));
        assert(precedes(keys, b[k] as int, b[i] as int));
        assert(false);
    }
}

// ---- filtering ----

/// What a filter keeps was there before.
pub proof fn lemma_filtered_within<T>(s: Seq<T>, pred: spec_fn(T) -> bool, i: int)
    requires
        0 <= i < s.filter(pred).len(),
    ensures
        s.contains(s.filter(pred)[i]),
    decreases s.len(),
{
    reveal(Seq::filter);
    let rest = s.drop_last();
    if i < rest.filter(pred).len() {
        lemma_filtered_within(rest, pred, i);
        let k = choose|k: int| 0 <= k < rest.len() && rest[k] == rest.filter(pred)[i];
        assert(s[k] == rest[k]);
    } else {
        assert(s[s.len() - 1] == s.last());
    }
}

/// Sorting moves each item to one place: no item with a lower key comes after one with a higher key,
/// and of items with equal keys the one that stood first comes first.
pub proof fn law_sorted_is_stable<T>(s: Seq<T>, keys: Seq<i128>, out: Seq<T>)
    requires
        sorted_by(s, keys, out),
    ensures
        exists|from: Seq<usize>|
            {
                &&& #[trigger] from.no_duplicates()
                &&& from.len() == keys.len()
                &&& out.len() == keys.len()
                &&& forall|i: int|
                    0 <= i < from.len() ==> (#[trigger] from[i]) < keys.len() && out[i]
                        == s[from[i] as int]
                &&& forall|i: int, j: int|
                    0 <= i < j < from.len() ==> {
                        let a = (#[trigger] from[i]) as int;
                        let b = (#[trigger] from[j]) as int;
                        keys[a] <= keys[b] && (keys[a] == keys[b] ==> a < b)
                    }
            },
{
    let from = choose|order: Seq<usize>| #[trigger]
        is_stable_order(keys, order) && out == arranged(s, order);
    law_order_is_permutation(keys, from);
    assert(from.no_duplicates());
    assert forall|i: int, j: int| 0 <= i < j < from.len() implies {
        let a = (#[trigger] from[i]) as int;
        let b = (#[trigger] from[j]) as int;
        keys[a] <= keys[b] && (keys[a] == keys[b] ==> a < b)
    } by {
        assert(precedes(keys, from[i] as int, from[j] as int));
    }
}

} // verus!
