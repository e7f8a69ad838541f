//! A verified merge sort, used wherever the pipeline orders its data.
use vstd::prelude::*;

verus! {

broadcast use vstd::seq_lib::group_to_multiset_ensures, vstd::multiset::group_multiset_axioms;

pub use vstd::relations::sorted_by;
use vstd::relations::total_ordering;

/// `le` is a total preorder: any two values compare, and comparison chains.
pub open spec fn total_preorder<T>(le: spec_fn(T, T) -> bool) -> bool {
    &&& forall|a: T, b: T| #[trigger] le(a, b) || le(b, a)
    &&& forall|a: T, b: T, c: T| #[trigger] le(a, b) && #[trigger] le(b, c) ==> le(a, c)
}

/// The executable comparison `order` computes the relation `le`.
pub open spec fn computes<T, F: Fn(T, T) -> bool>(order: F, le: spec_fn(T, T) -> bool) -> bool {
    &&& forall|a: T, b: T| #[trigger] order.requires((a, b))
    &&& forall|a: T, b: T, r: bool| #[trigger] order.ensures((a, b), r) ==> r == le(a, b)
}

/// Lexicographic order on triples of integers.
pub open spec fn triple_le(a: (u64, u64, u64), b: (u64, u64, u64)) -> bool {
    a.0 < b.0 || (a.0 == b.0 && (a.1 < b.1 || (a.1 == b.1 && a.2 <= b.2)))
}

/// Lexicographic order on byte strings (a proper prefix comes first).
pub open spec fn bytes_le(a: Seq<u8>, b: Seq<u8>) -> bool
    decreases a.len(),
{
    if a.len() == 0 {
        true
    } else if b.len() == 0 {
        false
    } else if a[0] != b[0] {
        a[0] < b[0]
    } else {
        bytes_le(a.drop_first(), b.drop_first())
    }
}

pub proof fn lemma_triple_le_total_preorder()
    ensures
        total_preorder(|a: (u64, u64, u64), b: (u64, u64, u64)| triple_le(a, b)),
        total_ordering(|a: (u64, u64, u64), b: (u64, u64, u64)| triple_le(a, b)),
{
}

/// Two sequences that hold the same elements and are both sorted by a total
/// order are equal: the sorted arrangement is unique.
pub proof fn lemma_sorted_unique<T>(a: Seq<T>, b: Seq<T>, le: spec_fn(T, T) -> bool)
    requires
        total_ordering(le),
        a.to_multiset() == b.to_multiset(),
        sorted_by(a, le),
        sorted_by(b, le),
    ensures
        a == b,
    decreases a.len(),
{
    a.to_multiset_ensures();
    b.to_multiset_ensures();
    if a.len() == 0 {
        assert(b.len() == 0);
        assert(a =~= b);
    } else {
        assert(b.len() > 0);
        let x = a[0];
        let y = b[0];
        assert(a.to_multiset().count(x) > 0) by {
            vstd::seq_lib::to_multiset_contains(a, x);
        }
        assert(b.contains(x)) by {
            vstd::seq_lib::to_multiset_contains(b, x);
        }
        assert(a.contains(y)) by {
            vstd::seq_lib::to_multiset_contains(b, y);
            vstd::seq_lib::to_multiset_contains(a, y);
        }
        let j = choose|j: int| 0 <= j < b.len() && b[j] == x;
        let i = choose|i: int| 0 <= i < a.len() && a[i] == y;
        if j > 0 {
            assert(le(b[0], b[j]));
        }
        if i > 0 {
            assert(le(a[0], a[i]));
        }
        assert(le(y, x));
        assert(le(x, y));
        assert(x == y);
        vstd::seq_lib::to_multiset_remove(a, 0);
        vstd::seq_lib::to_multiset_remove(b, 0);
        assert(a.remove(0) =~= a.drop_first());
        assert(b.remove(0) =~= b.drop_first());
        lemma_sorted_unique(a.drop_first(), b.drop_first(), le);
        assert(a.len() == b.len());
        assert forall|k: int| 0 <= k < a.len() implies a[k] == b[k] by {
            if k > 0 {
                assert(a[k] == a.drop_first()[k - 1]);
                assert(b[k] == b.drop_first()[k - 1]);
            }
        }
        assert(a =~= b);
    }
}

/// A sequence that holds the elements of `s` and is sorted by the total order
/// `le` is the sorted arrangement `s.sort_by(le)`.
pub proof fn lemma_sorted_is_sort_by<T>(r: Seq<T>, s: Seq<T>, le: spec_fn(T, T) -> bool)
    requires
        total_ordering(le),
        r.to_multiset() == s.to_multiset(),
        sorted_by(r, le),
    ensures
        r == s.sort_by(le),
{
    s.lemma_sort_by_ensures(le);
    lemma_sorted_unique(r, s.sort_by(le), le);
}

pub proof fn lemma_bytes_le_total(a: Seq<u8>, b: Seq<u8>)
    ensures
        bytes_le(a, b) || bytes_le(b, a),
    decreases a.len(),
{
    if a.len() > 0 && b.len() > 0 && a[0] == b[0] {
        lemma_bytes_le_total(a.drop_first(), b.drop_first());
    }
}

pub proof fn lemma_bytes_le_transitive(a: Seq<u8>, b: Seq<u8>, c: Seq<u8>)
    requires
        bytes_le(a, b),
        bytes_le(b, c),
    ensures
        bytes_le(a, c),
    decreases a.len(),
{
    if a.len() > 0 && b.len() > 0 && c.len() > 0 && a[0] == b[0] && b[0] == c[0] {
        lemma_bytes_le_transitive(a.drop_first(), b.drop_first(), c.drop_first());
    }
}

/// Two byte strings that are each `bytes_le` the other are equal.
pub proof fn lemma_bytes_le_antisymmetric(a: Seq<u8>, b: Seq<u8>)
    requires
        bytes_le(a, b),
        bytes_le(b, a),
    ensures
        a == b,
    decreases a.len(),
{
    if a.len() > 0 && b.len() > 0 {
        lemma_bytes_le_antisymmetric(a.drop_first(), b.drop_first());
        assert(a =~= seq![a[0]] + a.drop_first());
        assert(b =~= seq![b[0]] + b.drop_first());
    }
}

/// Compares two byte strings lexicographically, as `<=` on `str` does.
pub fn bytes_le_exec(a: &[u8], b: &[u8]) -> (r: bool)
    ensures
        r == bytes_le(a@, b@),
{
    let mut i: usize = 0;
    assert(a@.skip(0) =~= a@);
    assert(b@.skip(0) =~= b@);
    while i < a.len() && i < b.len()
        invariant
            i <= a@.len(),
            i <= b@.len(),
            bytes_le(a@, b@) == bytes_le(a@.skip(i as int), b@.skip(i as int)),
            forall|k: int| 0 <= k < i ==> a@[k] == b@[k],
        decreases a.len() - i,
    {
        assert(a@.skip(i as int)[0] == a@[i as int]);
        assert(b@.skip(i as int)[0] == b@[i as int]);
        if a[i] != b[i] {
            return a[i] < b[i];
        }
        assert(a@.skip(i as int).drop_first() =~= a@.skip(i + 1));
        assert(b@.skip(i as int).drop_first() =~= b@.skip(i + 1));
        i = i + 1;
    }
    i == a.len()
}

/// Compares two triples lexicographically.
pub fn triple_le_exec(a: (u64, u64, u64), b: (u64, u64, u64)) -> (r: bool)
    ensures
        r == triple_le(a, b),
{
    a.0 < b.0 || (a.0 == b.0 && (a.1 < b.1 || (a.1 == b.1 && a.2 <= b.2)))
}

fn merge<T: Copy, F: Fn(T, T) -> bool>(
    a: &Vec<T>,
    b: &Vec<T>,
    order: &F,
    Ghost(le): Ghost<spec_fn(T, T) -> bool>,
) -> (r: Vec<T>)
    requires
        total_preorder(le),
        computes(*order, le),
        sorted_by(a@, le),
        sorted_by(b@, le),
    ensures
        r@.to_multiset() == a@.to_multiset().add(b@.to_multiset()),
        sorted_by(r@, le),
{
    let mut r: Vec<T> = Vec::new();
    let mut i: usize = 0;
    let mut j: usize = 0;
    assert(a@.take(0) =~= Seq::<T>::empty());
    assert(b@.take(0) =~= Seq::<T>::empty());
    while i < a.len() || j < b.len()
        invariant
            total_preorder(le),
            computes(*order, le),
            sorted_by(a@, le),
            sorted_by(b@, le),
            i <= a@.len(),
            j <= b@.len(),
            r@.len() == i + j,
            r@.to_multiset() == a@.take(i as int).to_multiset().add(b@.take(j as int).to_multiset()),
            sorted_by(r@, le),
            r@.len() > 0 && i < a@.len() ==> le(r@.last(), a@[i as int]),
            r@.len() > 0 && j < b@.len() ==> le(r@.last(), b@[j as int]),
        decreases a@.len() + b@.len() - i - j,
    {
        let take_a = if j >= b.len() {
            true
        } else if i >= a.len() {
            false
        } else {
            order(a[i], b[j])
        };
        let ghost prev = r@;
        if take_a {
            let x = a[i];
            r.push(x);
            proof {
                assert(a@.take(i + 1) =~= a@.take(i as int).push(x));
                if j < b@.len() && i + 1 < a@.len() {
                    assert(le(x, a@[i + 1]));
                }
                if j < b@.len() {
                    assert(le(a@[i as int], b@[j as int]));
                }
                assert forall|p: int, q: int| 0 <= p < q < r@.len() implies #[trigger] le(r@[p], r@[q]) by {
                    if q == r@.len() - 1 && p < q {
                        if p < prev.len() - 1 {
                            assert(le(prev[p], prev.last()));
                        }
                    }
                }
            }
            i = i + 1;
        } else {
            let x = b[j];
            r.push(x);
            proof {
                assert(b@.take(j + 1) =~= b@.take(j as int).push(x));
                if j + 1 < b@.len() {
                    assert(le(x, b@[j + 1]));
                }
                if i < a@.len() {
                    assert(!le(a@[i as int], b@[j as int]));
                    assert(le(b@[j as int], a@[i as int]));
                }
                assert forall|p: int, q: int| 0 <= p < q < r@.len() implies #[trigger] le(r@[p], r@[q]) by {
                    if q == r@.len() - 1 && p < q {
                        if p < prev.len() - 1 {
                            assert(le(prev[p], prev.last()));
                        }
                    }
                }
            }
            j = j + 1;
        }
    }
    assert(a@.take(a@.len() as int) =~= a@);
    assert(b@.take(b@.len() as int) =~= b@);
    r
}

fn sort_range<T: Copy, F: Fn(T, T) -> bool>(
    v: &Vec<T>,
    lo: usize,
    hi: usize,
    order: &F,
    Ghost(le): Ghost<spec_fn(T, T) -> bool>,
) -> (r: Vec<T>)
    requires
        lo <= hi <= v@.len(),
        total_preorder(le),
        computes(*order, le),
    ensures
        r@.to_multiset() == v@.subrange(lo as int, hi as int).to_multiset(),
        sorted_by(r@, le),
    decreases hi - lo,
{
    if hi - lo <= 1 {
        let mut r: Vec<T> = Vec::new();
        if hi > lo {
            r.push(v[lo]);
            assert(r@ =~= v@.subrange(lo as int, hi as int));
        } else {
            assert(r@ =~= v@.subrange(lo as int, hi as int));
        }
        return r;
    }
    let mid = lo + (hi - lo) / 2;
    let a = sort_range(v, lo, mid, order, Ghost(le));
    let b = sort_range(v, mid, hi, order, Ghost(le));
    proof {
        assert(v@.subrange(lo as int, hi as int) =~= v@.subrange(lo as int, mid as int) + v@.subrange(
            mid as int,
            hi as int,
        ));
        vstd::seq_lib::lemma_multiset_commutative(
            v@.subrange(lo as int, mid as int),
            v@.subrange(mid as int, hi as int),
        );
    }
    merge(&a, &b, order, Ghost(le))
}

/// Sorts `v` by the total preorder `le`, which `order` computes. The result is a
/// rearrangement of `v`. Among elements that compare equal the order of `v`
/// is kept.
pub fn merge_sort_by<T: Copy, F: Fn(T, T) -> bool>(
    v: &Vec<T>,
    order: &F,
    Ghost(le): Ghost<spec_fn(T, T) -> bool>,
) -> (r: Vec<T>)
    requires
        total_preorder(le),
        computes(*order, le),
    ensures
        r@.to_multiset() == v@.to_multiset(),
        r@.len() == v@.len(),
        sorted_by(r@, le),
{
    let r = sort_range(v, 0, v.len(), order, Ghost(le));
    assert(v@.subrange(0, v@.len() as int) =~= v@);
    proof {
        r@.to_multiset_ensures();
        v@.to_multiset_ensures();
    }
    r
}

/// Sorts triples of integers lexicographically.
pub fn sort_triples(v: &Vec<(u64, u64, u64)>) -> (r: Vec<(u64, u64, u64)>)
    ensures
        r@.to_multiset() == v@.to_multiset(),
        r@.len() == v@.len(),
        sorted_by(r@, |a: (u64, u64, u64), b: (u64, u64, u64)| triple_le(a, b)),
        r@ == v@.sort_by(|a: (u64, u64, u64), b: (u64, u64, u64)| triple_le(a, b)),
{
    let order = |a: (u64, u64, u64), b: (u64, u64, u64)| -> (r: bool)
        ensures
            r == triple_le(a, b),
        { triple_le_exec(a, b) };
    proof {
        lemma_triple_le_total_preorder();
    }
    let r = merge_sort_by(v, &order, Ghost(|a: (u64, u64, u64), b: (u64, u64, u64)| triple_le(a, b)));
    proof {
        lemma_sorted_is_sort_by(r@, v@, |a: (u64, u64, u64), b: (u64, u64, u64)| triple_le(a, b));
    }
    r
}

} // verus!
