//! Stable sorting.
//!
//! A list is sorted by computing the order of its positions: where two keys
//! tie, the earlier position goes first.

use vstd::prelude::*;

verus! {

/// A key that lists are sorted by.
pub trait SortKey: Sized {
    /// Whether this key goes before the other.
    spec fn first(&self, other: &Self) -> bool;

    /// Of two keys at most one goes before the other.
    proof fn lemma_asymmetric(a: &Self, b: &Self)
        requires
            a.first(b),
        ensures
            !b.first(a),
    ;

    /// A third key does not tie with both of two keys that do not tie.
    proof fn lemma_weak(a: &Self, b: &Self, c: &Self)
        requires
            a.first(b),
        ensures
            a.first(c) || c.first(b),
    ;

    /// Whether this key goes before the other.
    fn comes_first(&self, other: &Self) -> (r: bool)
        ensures
            r == self.first(other),
    ;
}

/// Whether position `a` goes before position `b`.
pub open spec fn goes_before<K: SortKey>(keys: Seq<K>, a: int, b: int) -> bool {
    keys[a].first(&keys[b]) || (!keys[b].first(&keys[a]) && a < b)
}

/// Whether `order` holds positions in `lo..hi` in the order in which they go.
pub open spec fn in_order<K: SortKey>(order: Seq<usize>, keys: Seq<K>, lo: int, hi: int) -> bool {
    &&& forall|i: int| 0 <= i < order.len() ==> lo <= #[trigger] order[i] < hi
    &&& forall|i: int, j: int|
        0 <= i < j < order.len() ==> goes_before(
            keys,
            #[trigger] order[i] as int,
            #[trigger] order[j] as int,
        )
}

/// Whether `order` holds every position once, in the order in which they go.
pub open spec fn is_stable_order<K: SortKey>(order: Seq<usize>, keys: Seq<K>) -> bool {
    order.len() == keys.len() && in_order(order, keys, 0, keys.len() as int)
}

/// Going before is transitive.
proof fn lemma_goes_before_transitive<K: SortKey>(keys: Seq<K>, a: int, b: int, c: int)
    requires
        goes_before(keys, a, b),
        goes_before(keys, b, c),
    ensures
        goes_before(keys, a, c),
{
    let x = keys[a];
    let y = keys[b];
    let z = keys[c];
    if x.first(&y) {
        K::lemma_asymmetric(&x, &y);
        K::lemma_weak(&x, &y, &z);
        if !x.first(&z) {
            // `z` goes before `y`, so `y` does not go before `z`, and they do not tie.
            K::lemma_asymmetric(&z, &y);
        }
    } else if y.first(&z) {
        K::lemma_weak(&y, &z, &x);
    } else if z.first(&x) {
        K::lemma_weak(&z, &x, &y);
    }
}

/// No position goes before itself.
pub proof fn lemma_goes_before_irreflexive<K: SortKey>(keys: Seq<K>, a: int)
    ensures
        !goes_before(keys, a, a),
{
    if keys[a].first(&keys[a]) {
        K::lemma_asymmetric(&keys[a], &keys[a]);
    }
}

/// A sorted order holds every position, and none twice: sorting loses nothing.
pub proof fn law_order_is_permutation<K: SortKey>(order: Seq<usize>, keys: Seq<K>)
    requires
        is_stable_order(order, keys),
        keys.len() <= usize::MAX,
    ensures
        order.no_duplicates(),
        forall|a: usize| a < keys.len() ==> #[trigger] order.contains(a),
{
    assert forall|i: int, j: int| 0 <= i < order.len() && 0 <= j < order.len() && i != j implies order[i]
        != order[j] by {
        lemma_goes_before_irreflexive(keys, order[i] as int);
        if i < j {
            assert(goes_before(keys, order[i] as int, order[j] as int));
        } else {
            assert(goes_before(keys, order[j] as int, order[i] as int));
        }
    }
    let n = order.len();
    let all = Set::<usize>::new(|x: usize| x < n);
    order.unique_seq_to_set();
    assert(order.to_set().subset_of(all)) by {
        assert forall|x: usize| order.to_set().contains(x) implies all.contains(x) by {
            let i = choose|i: int| 0 <= i < order.len() && order[i] == x;
            assert(order[i] < keys.len());
        }
    }
    lemma_range_set(n);
    vstd::set_lib::lemma_subset_equality(order.to_set(), all);
    assert forall|a: usize| a < keys.len() implies #[trigger] order.contains(a) by {
        assert(all.contains(a));
        assert(order.to_set().contains(a));
    }
}

/// There are `n` numbers below `n`.
proof fn lemma_range_set(n: nat)
    requires
        n <= usize::MAX + 1,
    ensures
        Set::<usize>::new(|x: usize| x < n).finite(),
        Set::<usize>::new(|x: usize| x < n).len() == n,
    decreases n,
{
    let s = Set::<usize>::new(|x: usize| x < n);
    if n == 0 {
        assert(s =~= Set::empty());
    } else {
        let m = (n - 1) as nat;
        let t = Set::<usize>::new(|x: usize| x < m);
        lemma_range_set(m);
        assert(s =~= t.insert(m as usize));
    }
}

fn merge<K: SortKey>(keys: &Vec<K>, left: &Vec<usize>, right: &Vec<usize>, lo: usize, mid: usize, hi: usize) -> (r: Vec<usize>)
    requires
        lo <= mid <= hi <= keys@.len(),
        in_order(left@, keys@, lo as int, mid as int),
        in_order(right@, keys@, mid as int, hi as int),
        left@.len() + right@.len() <= usize::MAX,
    ensures
        in_order(r@, keys@, lo as int, hi as int),
        r@.len() == left@.len() + right@.len(),
{
    let mut out: Vec<usize> = Vec::new();
    let mut i: usize = 0;
    let mut j: usize = 0;
    while i < left.len() || j < right.len()
        invariant
            lo <= mid <= hi <= keys@.len(),
            in_order(left@, keys@, lo as int, mid as int),
            in_order(right@, keys@, mid as int, hi as int),
            i <= left@.len(),
            j <= right@.len(),
            out@.len() == i + j,
            in_order(out@, keys@, lo as int, hi as int),
            forall|a: int, b: int|
                0 <= a < out@.len() && i <= b < left@.len() ==> goes_before(
                    keys@,
                    #[trigger] out@[a] as int,
                    #[trigger] left@[b] as int,
                ),
            forall|a: int, b: int|
                0 <= a < out@.len() && j <= b < right@.len() ==> goes_before(
                    keys@,
                    #[trigger] out@[a] as int,
                    #[trigger] right@[b] as int,
                ),
        decreases left@.len() - i + right@.len() - j,
    {
        let ghost before = out@;
        let take_right = i == left.len() || (j < right.len() && keys[right[j]].comes_first(
            &keys[left[i]],
        ));
        if take_right {
            let x = right[j];
            out.push(x);
            assert forall|b: int| i <= b < left@.len() implies goes_before(
                keys@,
                x as int,
                #[trigger] left@[b] as int,
            ) by {
                if b > i {
                    lemma_goes_before_transitive(
                        keys@,
                        x as int,
                        left@[i as int] as int,
                        left@[b] as int,
                    );
                }
            }
            j += 1;
        } else {
            let x = left[i];
            out.push(x);
            assert forall|b: int| j <= b < right@.len() implies goes_before(
                keys@,
                x as int,
                #[trigger] right@[b] as int,
            ) by {
                assert(goes_before(keys@, x as int, right@[j as int] as int));
                if b > j {
                    lemma_goes_before_transitive(
                        keys@,
                        x as int,
                        right@[j as int] as int,
                        right@[b] as int,
                    );
                }
            }
            i += 1;
        }
    }
    out
}

fn sort_range<K: SortKey>(keys: &Vec<K>, lo: usize, hi: usize) -> (r: Vec<usize>)
    requires
        lo <= hi <= keys@.len(),
    ensures
        in_order(r@, keys@, lo as int, hi as int),
        r@.len() == hi - lo,
    decreases hi - lo,
{
    if hi - lo <= 1 {
        let mut out: Vec<usize> = Vec::new();
        if lo < hi {
            out.push(lo);
        }
        out
    } else {
        let mid: usize = lo + (hi - lo) / 2;
        let left = sort_range(keys, lo, mid);
        let right = sort_range(keys, mid, hi);
        merge(keys, &left, &right, lo, mid, hi)
    }
}

/// The order in which the positions of a list go by their keys.
pub(crate) fn stable_order<K: SortKey>(keys: &Vec<K>) -> (r: Vec<usize>)
    ensures
        is_stable_order(r@, keys@),
{
    sort_range(keys, 0, keys.len())
}

} // verus!
