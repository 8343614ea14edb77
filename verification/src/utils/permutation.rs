use vstd::prelude::*;

verus! {

broadcast use {vstd::seq_lib::group_to_multiset_ensures, vstd::multiset::group_multiset_axioms};

/// `b` is `a` with the elements at positions `lo..hi` rearranged among
/// themselves and every other element left in place.
pub open spec fn perm_in_range<T>(a: Seq<T>, b: Seq<T>, lo: int, hi: int) -> bool {
    &&& a.len() == b.len()
    &&& 0 <= lo <= hi <= a.len()
    &&& a.subrange(lo, hi).to_multiset() == b.subrange(lo, hi).to_multiset()
    &&& forall|j: int| 0 <= j < a.len() && !(lo <= j < hi) ==> a[j] == b[j]
}

/// `s` with the elements at `i` and `j` exchanged.
pub open spec fn swapped<T>(s: Seq<T>, i: int, j: int) -> Seq<T> {
    s.update(i, s[j]).update(j, s[i])
}

/// Exchanging two elements inside a range rearranges that range.
pub proof fn lemma_swap_perm<T>(s: Seq<T>, i: int, j: int, lo: int, hi: int)
    requires
        0 <= lo <= i < hi <= s.len(),
        lo <= j < hi,
    ensures
        perm_in_range(s, swapped(s, i, j), lo, hi),
{
    let t = swapped(s, i, j);
    let a = s.subrange(lo, hi);
    let b = t.subrange(lo, hi);
    assert(b =~= swapped(a, i - lo, j - lo));
    let a1 = a.update(i - lo, a[j - lo]);
    assert(a1.to_multiset() =~= a.to_multiset().insert(a[j - lo]).remove(a[i - lo]));
    assert(a1.update(j - lo, a[i - lo]).to_multiset() =~= a1.to_multiset().insert(a[i - lo]).remove(a1[j - lo]));
    assert(b.to_multiset() =~= a.to_multiset());
}

/// Rearranging twice within a range is rearranging within it.
pub proof fn lemma_perm_trans<T>(a: Seq<T>, b: Seq<T>, c: Seq<T>, lo: int, hi: int)
    requires
        perm_in_range(a, b, lo, hi),
        perm_in_range(b, c, lo, hi),
    ensures
        perm_in_range(a, c, lo, hi),
{
}

/// Rearranging within a smaller range is rearranging within a larger one.
pub proof fn lemma_perm_widen<T>(a: Seq<T>, b: Seq<T>, lo: int, hi: int, lo2: int, hi2: int)
    requires
        perm_in_range(a, b, lo2, hi2),
        0 <= lo <= lo2,
        hi2 <= hi <= a.len(),
    ensures
        perm_in_range(a, b, lo, hi),
{
    broadcast use vstd::seq_lib::lemma_multiset_commutative;
    assert(a.subrange(lo, hi) =~= a.subrange(lo, lo2) + a.subrange(lo2, hi2) + a.subrange(hi2, hi));
    assert(b.subrange(lo, hi) =~= b.subrange(lo, lo2) + b.subrange(lo2, hi2) + b.subrange(hi2, hi));
    assert(a.subrange(lo, lo2) =~= b.subrange(lo, lo2));
    assert(a.subrange(hi2, hi) =~= b.subrange(hi2, hi));
}

/// Every element of a rearranged range was already somewhere in that range.
pub proof fn lemma_perm_source<T>(a: Seq<T>, b: Seq<T>, lo: int, hi: int, k: int) -> (k0: int)
    requires
        perm_in_range(a, b, lo, hi),
        lo <= k < hi,
    ensures
        lo <= k0 < hi,
        b[k] == a[k0],
{
    let x = b[k];
    assert(b.subrange(lo, hi)[k - lo] == x);
    assert(b.subrange(lo, hi).contains(x));
    assert(b.subrange(lo, hi).to_multiset().count(x) > 0);
    assert(a.subrange(lo, hi).contains(x));
    let i = choose|i: int| 0 <= i < a.subrange(lo, hi).len() && a.subrange(lo, hi)[i] == x;
    lo + i
}

/// `<[T]>::swap`: std documents that it exchanges the elements at `a` and
/// `b`, and panics when either is out of bounds (left out here by `requires`).
#[verifier::external_body]
pub fn swap_elements<T>(v: &mut [T], a: usize, b: usize)
    requires
        a < old(v)@.len(),
        b < old(v)@.len(),
    ensures
        final(v)@ == swapped(old(v)@, a as int, b as int),
{
    v.swap(a, b)
}

/// A rearrangement of the whole sequence keeps its multiset of elements.
pub proof fn lemma_perm_whole<T>(a: Seq<T>, b: Seq<T>)
    requires
        perm_in_range(a, b, 0, a.len() as int),
    ensures
        a.to_multiset() == b.to_multiset(),
{
    assert(a.subrange(0, a.len() as int) =~= a);
    assert(b.subrange(0, b.len() as int) =~= b);
}

} // verus!
