use vstd::prelude::*;
use vstd::laws_eq::obeys_eq_spec_properties;
use vstd::laws_cmp::obeys_partial_cmp_spec_properties;
use vstd::std_specs::cmp::PartialEqSpec;
use vstd::std_specs::cmp::PartialOrdSpec;
use core::cmp::Ordering;
use crate::utils::permutation::{perm_in_range, swap_elements, lemma_swap_perm, lemma_perm_trans, lemma_perm_widen, lemma_perm_source, lemma_perm_whole};

verus! {

/// Keys whose `==` and `partial_cmp` behave as stated by their spec
/// functions, and whose comparison is a total order: any two keys compare.
pub open spec fn total_key_order<B: PartialOrd>() -> bool {
    &&& B::obeys_eq_spec()
    &&& B::obeys_partial_cmp_spec()
    &&& obeys_partial_cmp_spec_properties::<B>()
    &&& forall|a: B, b: B| #[trigger] a.partial_cmp_spec(&b) is Some
}

/// `a` compares less than `b`.
pub open spec fn key_lt<B: PartialOrd>(a: B, b: B) -> bool {
    a.partial_cmp_spec(&b) == Some(Ordering::Less)
}

/// `a` does not compare greater than `b`.
pub open spec fn key_le<B: PartialOrd>(a: B, b: B) -> bool {
    !key_lt(b, a)
}

/// For keys in a total order, `<` is a strict order, `<=` a total preorder
/// compatible with it, and `==` holds exactly of keys that are `<=` both ways.
pub proof fn lemma_key_order<B: PartialOrd>()
    requires
        total_key_order::<B>(),
    ensures
        forall|a: B| !key_lt(a, a),
        forall|a: B, b: B| #[trigger] key_lt(a, b) ==> !key_lt(b, a),
        forall|a: B, b: B, c: B| #[trigger] key_lt(a, b) && #[trigger] key_lt(b, c) ==> key_lt(a, c),
        forall|a: B, b: B, c: B| #[trigger] key_le(a, b) && #[trigger] key_le(b, c) ==> key_le(a, c),
        forall|a: B, b: B, c: B| #[trigger] key_lt(a, b) && #[trigger] key_le(b, c) ==> key_lt(a, c),
        forall|a: B, b: B, c: B| #[trigger] key_le(a, b) && #[trigger] key_lt(b, c) ==> key_lt(a, c),
        forall|a: B, b: B| #[trigger] a.eq_spec(&b) <==> (key_le(a, b) && key_le(b, a)),
        forall|a: B| #[trigger] a.eq_spec(&a),
        forall|a: B, b: B| #[trigger] a.eq_spec(&b) ==> b.eq_spec(&a),
        forall|a: B, b: B| key_lt(a, b) || #[trigger] a.eq_spec(&b) || key_lt(b, a),
{
    reveal(obeys_partial_cmp_spec_properties);
    reveal(obeys_eq_spec_properties);
    assert forall|a: B| !key_lt(a, a) by {
        assert(a.partial_cmp_spec(&a) is Some);
    }
    assert forall|a: B, b: B| #[trigger] a.eq_spec(&b) <==> (key_le(a, b) && key_le(b, a)) by {
        assert(a.partial_cmp_spec(&b) is Some);
        assert(b.partial_cmp_spec(&a) is Some);
        if a.partial_cmp_spec(&b) == Some(Ordering::Greater) {
            assert(b.partial_cmp_spec(&a) == Some(Ordering::Less));
        }
        if b.partial_cmp_spec(&a) == Some(Ordering::Greater) {
            assert(a.partial_cmp_spec(&b) == Some(Ordering::Less));
        }
        if a.partial_cmp_spec(&b) == Some(Ordering::Equal) {
            assert(a.eq_spec(&b));
        }
        if a.eq_spec(&b) {
            assert(a.partial_cmp_spec(&b) == Some(Ordering::Equal));
            assert(key_le(a, b));
            assert(key_le(b, a));
        }
        if key_le(a, b) && key_le(b, a) {
            assert(a.partial_cmp_spec(&b) == Some(Ordering::Equal));
        }
    }
    assert forall|a: B, b: B, c: B| #[trigger] key_lt(a, b) && #[trigger] key_le(b, c) implies key_lt(a, c) by {
        assert(a.partial_cmp_spec(&c) is Some);
        assert(b.partial_cmp_spec(&c) is Some);
        assert(c.partial_cmp_spec(&b) is Some);
        if c.partial_cmp_spec(&b) == Some(Ordering::Equal) {
            assert(c.eq_spec(&b));
            assert(b.eq_spec(&c));
            if a.partial_cmp_spec(&c) == Some(Ordering::Equal) {
                assert(a.eq_spec(&c));
                assert(a.eq_spec(&b));
            }
            if a.partial_cmp_spec(&c) == Some(Ordering::Greater) {
                assert(c.partial_cmp_spec(&a) == Some(Ordering::Less));
            }
        } else {
            assert(c.partial_cmp_spec(&b) == Some(Ordering::Greater));
            assert(b.partial_cmp_spec(&c) == Some(Ordering::Less));
        }
    }
    assert forall|a: B, b: B, c: B| #[trigger] key_le(a, b) && #[trigger] key_lt(b, c) implies key_lt(a, c) by {
        assert(a.partial_cmp_spec(&c) is Some);
        assert(b.partial_cmp_spec(&a) is Some);
        assert(a.partial_cmp_spec(&b) is Some);
        if b.partial_cmp_spec(&a) == Some(Ordering::Equal) {
            assert(b.eq_spec(&a));
            assert(a.eq_spec(&b));
            if a.partial_cmp_spec(&c) == Some(Ordering::Equal) {
                assert(a.eq_spec(&c));
                assert(b.eq_spec(&c));
            }
            if a.partial_cmp_spec(&c) == Some(Ordering::Greater) {
                assert(c.partial_cmp_spec(&a) == Some(Ordering::Less));
                assert(c.partial_cmp_spec(&b) == Some(Ordering::Less));
            }
        } else {
            assert(b.partial_cmp_spec(&a) == Some(Ordering::Greater));
            assert(a.partial_cmp_spec(&b) == Some(Ordering::Less));
        }
    }
    assert forall|a: B, b: B| key_lt(a, b) || #[trigger] a.eq_spec(&b) || key_lt(b, a) by {
        assert(a.partial_cmp_spec(&b) is Some);
        if a.partial_cmp_spec(&b) == Some(Ordering::Greater) {
            assert(b.partial_cmp_spec(&a) == Some(Ordering::Less));
        }
    }
    assert forall|a: B, b: B, c: B| #[trigger] key_le(a, b) && #[trigger] key_le(b, c) implies key_le(a, c) by {
        if key_lt(c, a) {
            assert(key_lt(c, b));
        }
    }
}

} // verus!

verus! {

/// `f` can be called on every element and gives one key for each.
pub open spec fn key_fn_ok<T, F: Fn(&T) -> B, B>(f: F) -> bool {
    &&& forall|x: &T| #[trigger] call_requires(f, (x,))
    &&& forall|x: &T, k1: B, k2: B|
        #[trigger] call_ensures(f, (x,), k1) && #[trigger] call_ensures(f, (x,), k2) ==> k1 == k2
}

/// The key that `f` gives `x`.
pub open spec fn key_of<T, F: Fn(&T) -> B, B>(f: F, x: T) -> B {
    choose|k: B| call_ensures(f, (&x,), k)
}

/// Every element of `s` in `lo..c` has a key no greater than every element
/// in `c..hi`.
pub open spec fn cut_at<T, F: Fn(&T) -> B, B: PartialOrd>(s: Seq<T>, f: F, lo: int, c: int, hi: int) -> bool {
    forall|j: int, k: int|
        lo <= j < c <= k < hi ==> key_le(#[trigger] key_of(f, s[j]), #[trigger] key_of(f, s[k]))
}

/// Whatever `f` returns for an element of `s` in `lo..c` is no greater
/// than whatever it returns for an element in `c..hi`.
pub open spec fn keys_cut_at<T, F: Fn(&T) -> B, B: PartialOrd>(s: Seq<T>, f: F, lo: int, c: int, hi: int) -> bool {
    forall|j: int, k: int, kj: B, kk: B|
        lo <= j < c <= k < hi && #[trigger] call_ensures(f, (&s[j],), kj) && #[trigger] call_ensures(f, (&s[k],), kk)
            ==> key_le(kj, kk)
}

/// A cut stated over the keys of the elements is one over whatever `f`
/// returns for them.
proof fn lemma_cut_keys<T, F: Fn(&T) -> B, B: PartialOrd>(s: Seq<T>, f: F, lo: int, c: int, hi: int)
    requires
        key_fn_ok(f),
        cut_at(s, f, lo, c, hi),
    ensures
        keys_cut_at(s, f, lo, c, hi),
{
    assert forall|j: int, k: int, kj: B, kk: B|
        lo <= j < c <= k < hi && #[trigger] call_ensures(f, (&s[j],), kj) && #[trigger] call_ensures(f, (&s[k],), kk)
        implies key_le(kj, kk) by {
        lemma_key_of_call(f, s[j], kj);
        lemma_key_of_call(f, s[k], kk);
        assert(key_le(key_of(f, s[j]), key_of(f, s[k])));
    }
}

/// What a call of `f` returns is the key of its argument.
proof fn lemma_key_of_call<T, F: Fn(&T) -> B, B>(f: F, x: T, k: B)
    requires
        key_fn_ok(f),
        call_ensures(f, (&x,), k),
    ensures
        key_of(f, x) == k,
{
}

/// Rearranges `v[lo..hi]` into the keys less than `pivot`, then those equal
/// to it, then those greater, and returns how many are less and how many are
/// equal. `pidx` is a position whose key is the pivot.
fn split_by_pivot<T, F: Fn(&T) -> B, B: Copy + PartialOrd>(
    v: &mut [T],
    lo: usize,
    hi: usize,
    pivot: B,
    f: &F,
    Ghost(pidx): Ghost<int>,
) -> (res: (usize, usize))
    requires
        lo < hi <= old(v)@.len(),
        key_fn_ok(*f),
        total_key_order::<B>(),
        lo <= pidx < hi,
        key_of(*f, old(v)@[pidx]) == pivot,
    ensures
        perm_in_range(old(v)@, final(v)@, lo as int, hi as int),
        lo + res.0 + res.1 <= hi,
        res.1 >= 1,
        forall|j: int| lo <= j < lo + res.0 ==> key_lt(#[trigger] key_of(*f, final(v)@[j]), pivot),
        forall|j: int| lo + res.0 <= j < lo + res.0 + res.1 ==> (#[trigger] key_of(*f, final(v)@[j])).eq_spec(&pivot),
        forall|j: int| lo + res.0 + res.1 <= j < hi ==> key_lt(pivot, #[trigger] key_of(*f, final(v)@[j])),
{
    proof {
        lemma_key_order::<B>();
    }
    let ghost s0 = v@;
    let nv = hi - lo;
    let mut last_smaller: usize = 0;
    let mut num_pivots: usize = 0;
    let mut i: usize = 0;
    while i < nv
        invariant
            nv == hi - lo,
            lo < hi <= s0.len(),
            key_fn_ok(*f),
            total_key_order::<B>(),
            lo <= pidx < hi,
            key_of(*f, s0[pidx]) == pivot,
            last_smaller + num_pivots <= i <= nv,
            perm_in_range(s0, v@, lo as int, hi as int),
            forall|j: int| lo + i <= j < hi ==> v@[j] == s0[j],
            forall|j: int| lo <= j < lo + last_smaller ==> key_lt(#[trigger] key_of(*f, v@[j]), pivot),
            forall|j: int| lo + last_smaller <= j < lo + last_smaller + num_pivots ==> (#[trigger] key_of(*f, v@[j])).eq_spec(&pivot),
            forall|j: int| lo + last_smaller + num_pivots <= j < lo + i ==> key_lt(pivot, #[trigger] key_of(*f, v@[j])),
            pidx < lo + i ==> num_pivots >= 1,
        decreases nv - i,
    {
        let ghost s1 = v@;
        let bv = f(&v[lo + i]);
        proof {
            lemma_key_of_call(*f, v@[lo + i], bv);
            lemma_key_order::<B>();
        }
        let a = lo + last_smaller;
        let b = lo + last_smaller + num_pivots;
        let c = lo + i;
        if bv < pivot {
            swap_elements(v, b, c);
            proof {
                lemma_swap_perm(s1, b as int, c as int, lo as int, hi as int);
                lemma_perm_trans(s0, s1, v@, lo as int, hi as int);
            }
            let ghost s2 = v@;
            swap_elements(v, b, a);
            proof {
                lemma_swap_perm(s2, b as int, a as int, lo as int, hi as int);
                lemma_perm_trans(s0, s2, v@, lo as int, hi as int);
                assert(key_lt(key_of(*f, v@[a as int]), pivot));
            }
            last_smaller += 1;
        } else if bv == pivot {
            swap_elements(v, b, c);
            proof {
                lemma_swap_perm(s1, b as int, c as int, lo as int, hi as int);
                lemma_perm_trans(s0, s1, v@, lo as int, hi as int);
            }
            num_pivots += 1;
        }
        i += 1;
    }
    (last_smaller, num_pivots)
}

/// Rearranges `v[lo..hi]` so that position `target` holds an element whose
/// key is no less than every key before it and no greater than every key
/// after it: partitions around the median of the first, middle and last
/// keys into the keys that are less, equal and greater, and goes on into
/// the part that holds `target` until `target` falls among the equal keys.
fn select_range<T, F: Fn(&T) -> B, B: Copy + PartialOrd>(v: &mut [T], lo: usize, hi: usize, target: usize, f: &F)
    requires
        lo <= target <= hi <= old(v)@.len(),
        key_fn_ok(*f),
        total_key_order::<B>(),
    ensures
        perm_in_range(old(v)@, final(v)@, lo as int, hi as int),
        hi - lo < 2 ==> final(v)@ == old(v)@,
        cut_at(final(v)@, *f, lo as int, target as int, hi as int),
        target < hi ==> cut_at(final(v)@, *f, lo as int, target + 1, hi as int),
    decreases hi - lo,
{
    proof {
        lemma_key_order::<B>();
    }
    let ghost s0 = v@;
    let nv = hi - lo;
    if nv < 3 {
        if nv == 2 {
            let k1 = f(&v[lo + 1]);
            let k0 = f(&v[lo]);
            proof {
                lemma_key_of_call(*f, v@[lo + 1], k1);
                lemma_key_of_call(*f, v@[lo as int], k0);
            }
            if k1 < k0 {
                swap_elements(v, lo, lo + 1);
                proof {
                    lemma_swap_perm(s0, lo as int, lo + 1, lo as int, hi as int);
                }
            }
            assert(cut_at(v@, *f, lo as int, lo + 1, hi as int));
        }
        return;
    }

    // Median of three...
    let fst = f(&v[lo]);
    let mid = f(&v[lo + nv / 2]);
    let lst = f(&v[hi - 1]);
    proof {
        lemma_key_of_call(*f, v@[lo as int], fst);
        lemma_key_of_call(*f, v@[lo + nv / 2], mid);
        lemma_key_of_call(*f, v@[hi - 1], lst);
    }
    let ghost mut pidx: int = hi - 1;
    let pivot = if fst < mid && mid < lst {
        proof { pidx = lo + nv / 2; }
        mid
    } else if mid < fst && fst < lst {
        proof { pidx = lo as int; }
        fst
    } else {
        lst
    };

    let (last_smaller, num_pivots) = split_by_pivot(v, lo, hi, pivot, f, Ghost(pidx));
    let ghost s1 = v@;
    let eq_start = lo + last_smaller;
    let eq_end = eq_start + num_pivots;

    // Keys before the equal run are less than the keys from it on, keys up
    // to its end no greater than the keys after it.
    assert forall|j: int, k: int| lo <= j < eq_start <= k < hi implies
        key_le(#[trigger] key_of(*f, s1[j]), #[trigger] key_of(*f, s1[k])) by {
        let kj = key_of(*f, s1[j]);
        let kk = key_of(*f, s1[k]);
        if k < eq_end {
            assert(kk.eq_spec(&pivot));
        } else {
            assert(key_lt(pivot, kk));
        }
        if j < eq_start {
            assert(key_lt(kj, pivot));
        } else {
            assert(kj.eq_spec(&pivot));
        }
    }
    assert forall|j: int, k: int| lo <= j < eq_end <= k < hi implies
        key_le(#[trigger] key_of(*f, s1[j]), #[trigger] key_of(*f, s1[k])) by {
        let kj = key_of(*f, s1[j]);
        let kk = key_of(*f, s1[k]);
        if k < eq_end {
            assert(kk.eq_spec(&pivot));
        } else {
            assert(key_lt(pivot, kk));
        }
        if j < eq_start {
            assert(key_lt(kj, pivot));
        } else {
            assert(kj.eq_spec(&pivot));
        }
    }
    assert(cut_at(s1, *f, lo as int, eq_start as int, hi as int));
    assert(cut_at(s1, *f, lo as int, eq_end as int, hi as int));

    if target < eq_start {
        select_range(v, lo, eq_start, target, f);
        proof {
            let s2 = v@;
            lemma_perm_widen(s1, s2, lo as int, hi as int, lo as int, eq_start as int);
            assert forall|j: int, k: int| lo <= j < target <= k < hi implies
                key_le(#[trigger] key_of(*f, s2[j]), #[trigger] key_of(*f, s2[k])) by {
                let j0 = lemma_perm_source(s1, s2, lo as int, eq_start as int, j);
                if k >= eq_start {
                    assert(key_le(key_of(*f, s1[j0]), key_of(*f, s1[k])));
                } else {
                    assert(cut_at(s2, *f, lo as int, target as int, eq_start as int));
                }
            }
            assert forall|j: int, k: int| lo <= j < target + 1 <= k < hi implies
                key_le(#[trigger] key_of(*f, s2[j]), #[trigger] key_of(*f, s2[k])) by {
                let j0 = lemma_perm_source(s1, s2, lo as int, eq_start as int, j);
                if k >= eq_start {
                    assert(key_le(key_of(*f, s1[j0]), key_of(*f, s1[k])));
                } else {
                    assert(cut_at(s2, *f, lo as int, target + 1, eq_start as int));
                }
            }
            assert(cut_at(s2, *f, lo as int, target as int, hi as int));
            assert(cut_at(s2, *f, lo as int, target + 1, hi as int));
        }
    } else if target >= eq_end {
        select_range(v, eq_end, hi, target, f);
        proof {
            let s2 = v@;
            lemma_perm_widen(s1, s2, lo as int, hi as int, eq_end as int, hi as int);
            assert forall|j: int, k: int| lo <= j < target <= k < hi implies
                key_le(#[trigger] key_of(*f, s2[j]), #[trigger] key_of(*f, s2[k])) by {
                let k0 = lemma_perm_source(s1, s2, eq_end as int, hi as int, k);
                if j < eq_end {
                    assert(key_le(key_of(*f, s1[j]), key_of(*f, s1[k0])));
                } else {
                    assert(cut_at(s2, *f, eq_end as int, target as int, hi as int));
                }
            }
            assert forall|j: int, k: int| target < hi && lo <= j < target + 1 <= k < hi implies
                key_le(#[trigger] key_of(*f, s2[j]), #[trigger] key_of(*f, s2[k])) by {
                let k0 = lemma_perm_source(s1, s2, eq_end as int, hi as int, k);
                if j < eq_end {
                    assert(key_le(key_of(*f, s1[j]), key_of(*f, s1[k0])));
                } else {
                    assert(cut_at(s2, *f, eq_end as int, target + 1, hi as int));
                }
            }
            assert(cut_at(s2, *f, lo as int, target as int, hi as int));
            assert(target < hi ==> cut_at(s2, *f, lo as int, target + 1, hi as int));
        }
    } else {
        assert forall|j: int, k: int| lo <= j < target <= k < hi implies
            key_le(#[trigger] key_of(*f, s1[j]), #[trigger] key_of(*f, s1[k])) by {
            let kj = key_of(*f, s1[j]);
            let kk = key_of(*f, s1[k]);
            if j < eq_start {
                assert(key_lt(kj, pivot));
            } else {
                assert(kj.eq_spec(&pivot));
            }
            if k < eq_end {
                assert(kk.eq_spec(&pivot));
            } else {
                assert(key_lt(pivot, kk));
            }
        }
        assert forall|j: int, k: int| lo <= j < target + 1 <= k < hi implies
            key_le(#[trigger] key_of(*f, s1[j]), #[trigger] key_of(*f, s1[k])) by {
            let kj = key_of(*f, s1[j]);
            let kk = key_of(*f, s1[k]);
            if j < eq_start {
                assert(key_lt(kj, pivot));
            } else {
                assert(kj.eq_spec(&pivot));
            }
            if k < eq_end {
                assert(kk.eq_spec(&pivot));
            } else {
                assert(key_lt(pivot, kk));
            }
        }
        assert(cut_at(s1, *f, lo as int, target as int, hi as int));
        assert(cut_at(s1, *f, lo as int, target + 1, hi as int));
    }
    proof {
        lemma_perm_trans(s0, s1, v@, lo as int, hi as int);
    }
}

/// Rearranges `v` so that its middle position `v.len() / 2` holds an element
/// whose key is no less than every key before it and no greater than every
/// key after it (quickselect on the median of three): the first half of the
/// keys are no greater than the second half.
pub fn partition_by<T, F, B>(v: &mut [T], f: F)
    where
        F: Fn(&T) -> B,
        B: Copy + PartialOrd,
    requires
        key_fn_ok(f),
        total_key_order::<B>(),
    ensures
        final(v)@.len() == old(v)@.len(),
        final(v)@.to_multiset() == old(v)@.to_multiset(),
        old(v)@.len() < 2 ==> final(v)@ == old(v)@,
        keys_cut_at(final(v)@, f, 0, (old(v)@.len() / 2) as int, old(v)@.len() as int),
        old(v)@.len() > 0 ==> keys_cut_at(final(v)@, f, 0, (old(v)@.len() / 2 + 1) as int, old(v)@.len() as int),
{
    let nv = v.len();
    select_range(v, 0, nv, nv / 2, &f);
    proof {
        lemma_perm_whole(old(v)@, v@);
        if nv < 2 {
            assert(v@ =~= old(v)@);
        }
        lemma_cut_keys(v@, f, 0, (nv / 2) as int, nv as int);
        if nv > 0 {
            lemma_cut_keys(v@, f, 0, (nv / 2 + 1) as int, nv as int);
        }
    }
}

} // verus!
