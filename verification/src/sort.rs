//! `qsort` and `bsearch` of the C library, over a slice of elements and a comparison
//! function supplied by the caller.
//!
//! The comparison function is the caller's code: it answers negative, zero or positive as
//! its first argument sorts before, with or after its second. What these functions promise
//! of the order they produce or search therefore holds for comparison functions that
//! behave as one (`consistent`); what they promise of the elements they move holds for any.

use vstd::prelude::*;
use vstd::seq_lib::to_multiset_update;

verus! {

/// `a` sorts no later than `b`: every answer `f` can give for the pair is at most zero.
pub open spec fn sorts_before<T, F: Fn(&T, &T) -> i32>(f: F, a: T, b: T) -> bool {
    forall|r: i32| #[trigger] call_ensures(f, (&a, &b), r) ==> r <= 0
}

/// `f` answers each pair with one value.
pub open spec fn deterministic<T, F: Fn(&T, &T) -> i32>(f: F) -> bool {
    forall|a: T, b: T, r1: i32, r2: i32|
        #![trigger call_ensures(f, (&a, &b), r1), call_ensures(f, (&a, &b), r2)]
        call_ensures(f, (&a, &b), r1) && call_ensures(f, (&a, &b), r2) ==> r1 == r2
}

/// Where `f` puts `a` after `b`, it does not put `b` after `a`.
pub open spec fn flips<T, F: Fn(&T, &T) -> i32>(f: F) -> bool {
    forall|a: T, b: T, r: i32|
        #[trigger] call_ensures(f, (&a, &b), r) && r > 0 ==> sorts_before(f, b, a)
}

/// `sorts_before` is transitive.
pub open spec fn transitive<T, F: Fn(&T, &T) -> i32>(f: F) -> bool {
    forall|a: T, b: T, c: T|
        #[trigger] sorts_before(f, a, b) && #[trigger] sorts_before(f, b, c) ==> sorts_before(f, a, c)
}

/// `f` behaves as a comparison: it is a function of its arguments and orders them in a total
/// preorder.
pub open spec fn consistent<T, F: Fn(&T, &T) -> i32>(f: F) -> bool {
    deterministic(f) && flips(f) && transitive(f)
}

/// `f` may be called on any two elements.
pub open spec fn callable<T, F: Fn(&T, &T) -> i32>(f: F) -> bool {
    forall|a: T, b: T| #[trigger] call_requires(f, (&a, &b))
}

/// Each element sorts no later than every element after it.
pub open spec fn sorted_by<T, F: Fn(&T, &T) -> i32>(f: F, s: Seq<T>) -> bool {
    forall|i: int, k: int| 0 <= i < k < s.len() ==> #[trigger] sorts_before(f, s[i], s[k])
}

/// Every answer `f` can give for `key` against `e` is positive: `e` sorts before `key`.
pub open spec fn answers_positive<T, F: Fn(&T, &T) -> i32>(f: F, key: T, e: T) -> bool {
    forall|r: i32| #[trigger] call_ensures(f, (&key, &e), r) ==> r > 0
}

/// Every answer `f` can give for `key` against `e` is negative: `e` sorts after `key`.
pub open spec fn answers_negative<T, F: Fn(&T, &T) -> i32>(f: F, key: T, e: T) -> bool {
    forall|r: i32| #[trigger] call_ensures(f, (&key, &e), r) ==> r < 0
}

/// The elements are laid out as `bsearch` needs them for `key`: those that `f` puts before
/// `key` come first, then those equal to it, then those after it, and each answer is the only
/// one `f` gives for its pair.
pub open spec fn partitioned<T, F: Fn(&T, &T) -> i32>(f: F, key: T, s: Seq<T>) -> bool {
    &&& forall|i: int, r1: i32, r2: i32|
        #![trigger call_ensures(f, (&key, &s[i]), r1), call_ensures(f, (&key, &s[i]), r2)]
        0 <= i < s.len() && call_ensures(f, (&key, &s[i]), r1) && call_ensures(f, (&key, &s[i]), r2)
            ==> r1 == r2
    &&& forall|i: int, k: int, r1: i32, r2: i32|
        #![trigger call_ensures(f, (&key, &s[i]), r1), call_ensures(f, (&key, &s[k]), r2)]
        0 <= i <= k < s.len() && call_ensures(f, (&key, &s[i]), r1) && call_ensures(f, (&key, &s[k]), r2)
            ==> (r2 > 0 ==> r1 > 0) && (r2 == 0 ==> r1 >= 0)
}

/// Binary search for `key` in `base` with the comparison `compar`, which is called with `key`
/// first. Returns the index of an element that compares equal, or `None` when the search
/// ends without one. On a slice laid out for `key` (`partitioned`), `None` comes exactly when
/// no element compares equal.
pub fn bsearch<T, F: Fn(&T, &T) -> i32>(key: &T, base: &[T], compar: F) -> (r: Option<usize>)
    requires
        callable(compar),
    ensures
        match r {
            Some(i) => i < base@.len() && call_ensures(compar, (key, &base@[i as int]), 0i32),
            None => partitioned(compar, *key, base@) ==> forall|i: int, v: i32|
                0 <= i < base@.len() ==> !#[trigger] call_ensures(compar, (key, &base@[i]), v)
                    || v != 0,
        },
{
    let mut lo: usize = 0;
    let mut hi: usize = base.len();
    while lo < hi
        invariant
            lo <= hi <= base@.len(),
            callable(compar),
            partitioned(compar, *key, base@) ==> forall|i: int| 0 <= i < lo ==> answers_positive(compar, *key, #[trigger] base@[i]),
            partitioned(compar, *key, base@) ==> forall|i: int| hi <= i < base@.len() ==> answers_negative(compar, *key, #[trigger] base@[i]),
        decreases hi - lo,
    {
        let mid = lo + (hi - lo) / 2;
        let order = compar(key, &base[mid]);
        if order == 0 {
            return Some(mid);
        } else if order < 0 {
            proof {
                if partitioned(compar, *key, base@) {
                    assert forall|i: int| mid <= i < base@.len() implies answers_negative(compar, *key, #[trigger] base@[i]) by {
                        assert forall|r: i32| #[trigger] call_ensures(compar, (key, &base@[i]), r) implies r < 0 by {
                            assert(call_ensures(compar, (key, &base@[mid as int]), order));
                        }
                    }
                }
            }
            hi = mid;
        } else {
            proof {
                if partitioned(compar, *key, base@) {
                    assert forall|i: int| 0 <= i <= mid implies answers_positive(compar, *key, #[trigger] base@[i]) by {
                        assert forall|r: i32| #[trigger] call_ensures(compar, (key, &base@[i]), r) implies r > 0 by {
                            assert(call_ensures(compar, (key, &base@[mid as int]), order));
                        }
                    }
                }
            }
            lo = mid + 1;
        }
    }
    None
}

/// Exchanging two elements of a sequence keeps its multiset of elements.
pub proof fn lemma_exchange_keeps_elements<A>(s: Seq<A>, a: int, b: int)
    requires
        0 <= a < s.len(),
        0 <= b < s.len(),
        a != b,
    ensures
        s.update(a, s[b]).update(b, s[a]).to_multiset() =~= s.to_multiset(),
{
    broadcast use vstd::multiset::group_multiset_axioms;
    to_multiset_update(s, a, s[b]);
    let t = s.update(a, s[b]);
    to_multiset_update(t, b, s[a]);
    assert(s.to_multiset().count(s[a]) > 0) by {
        broadcast use vstd::seq_lib::to_multiset_contains;
        assert(s.contains(s[a]));
    }
    assert(s.to_multiset().insert(s[b]).remove(s[a]).insert(s[a]).remove(s[b]) =~= s.to_multiset());
}

/// Insertion of `start[i]` into the sorted run `start[0..i]` is complete with the hole at `j`:
/// the run with the element written at `j` is sorted.
proof fn lemma_inserted_sorted<T, F: Fn(&T, &T) -> i32>(f: F, start: Seq<T>, done: Seq<T>, i: int, j: int)
    requires
        consistent(f),
        0 <= j <= i < start.len(),
        done.len() == start.len(),
        sorted_by(f, start.take(i)),
        done[j] == start[i],
        forall|k: int| 0 <= k < j ==> done[k] == start[k],
        forall|k: int| j < k <= i ==> done[k] == start[k - 1],
        forall|k: int| j < k <= i ==> #[trigger] sorts_before(f, start[i], done[k]),
        j > 0 ==> sorts_before(f, start[j - 1], start[i]),
    ensures
        sorted_by(f, done.take(i + 1)),
{
    let run = start.take(i);
    assert forall|p: int, q: int| 0 <= p < q < done.take(i + 1).len() implies #[trigger] sorts_before(
        f,
        done.take(i + 1)[p],
        done.take(i + 1)[q],
    ) by {
        let x = done[p];
        let y = done[q];
        assert(done.take(i + 1)[p] == x);
        assert(done.take(i + 1)[q] == y);
        if q < j {
            assert(sorts_before(f, run[p], run[q]));
        } else if q == j {
            if p < j - 1 {
                assert(sorts_before(f, run[p], run[j - 1]));
                assert(sorts_before(f, start[j - 1], start[i]));
            }
        } else if p < j {
            assert(sorts_before(f, run[p], run[q - 1]));
        } else if p == j {
            assert(sorts_before(f, start[i], done[q]));
        } else {
            assert(sorts_before(f, run[p - 1], run[q - 1]));
        }
    }
}

/// `new` holds the elements of `orig` rearranged: its element `k` is element `p[k]` of
/// `orig`, and no element of `orig` is used twice.
pub open spec fn arranged<T>(p: Seq<int>, orig: Seq<T>, new: Seq<T>) -> bool {
    &&& p.len() == new.len() == orig.len()
    &&& forall|k: int| 0 <= k < p.len() ==> 0 <= #[trigger] p[k] < orig.len() && new[k] == orig[p[k]]
    &&& forall|k: int, l: int| 0 <= k < l < p.len() ==> #[trigger] p[k] != #[trigger] p[l]
}

/// Among the first `m` elements of `s`, a later one that sorts no later than an earlier one
/// came later in the original order `p` too: elements that compare equal keep their order.
pub open spec fn stable_upto<T, F: Fn(&T, &T) -> i32>(f: F, p: Seq<int>, s: Seq<T>, m: int) -> bool {
    forall|k: int, l: int| 0 <= k < l < m && #[trigger] sorts_before(f, s[l], s[k]) ==> p[k] < p[l]
}

/// Writing `start[i]` into the hole at `j` keeps the arrangement and the order of equal
/// elements: the elements moved past it are those it sorts before strictly.
proof fn lemma_inserted_stable<T, F: Fn(&T, &T) -> i32>(
    f: F,
    orig: Seq<T>,
    pstart: Seq<int>,
    pdone: Seq<int>,
    start: Seq<T>,
    done: Seq<T>,
    i: int,
    j: int,
)
    requires
        0 <= j <= i < start.len(),
        arranged(pstart, orig, start),
        stable_upto(f, pstart, start, i),
        forall|k: int| 0 <= k < i ==> #[trigger] pstart[k] < i,
        forall|k: int| i <= k < start.len() ==> #[trigger] pstart[k] == k,
        done.len() == start.len(),
        pdone.len() == pstart.len(),
        done[j] == start[i],
        pdone[j] == pstart[i],
        forall|k: int| 0 <= k < j ==> #[trigger] done[k] == start[k],
        forall|k: int| j < k <= i ==> #[trigger] done[k] == start[k - 1],
        forall|k: int| i < k < start.len() ==> #[trigger] done[k] == start[k],
        forall|k: int| 0 <= k < j ==> #[trigger] pdone[k] == pstart[k],
        forall|k: int| j < k <= i ==> #[trigger] pdone[k] == pstart[k - 1],
        forall|k: int| i < k < start.len() ==> #[trigger] pdone[k] == pstart[k],
        forall|k: int| j < k <= i ==> !#[trigger] sorts_before(f, done[k], start[i]),
    ensures
        arranged(pdone, orig, done),
        stable_upto(f, pdone, done, i + 1),
        forall|k: int| 0 <= k < i + 1 ==> #[trigger] pdone[k] < i + 1,
        forall|k: int| i + 1 <= k < start.len() ==> #[trigger] pdone[k] == k,
{
    let n = start.len();
    assert(pstart[i] == i);
    assert forall|k: int| 0 <= k < n implies 0 <= #[trigger] pdone[k] < orig.len() && done[k] == orig[pdone[k]] by {
        if k < j {
        } else if k == j {
        } else if k <= i {
            assert(pstart[k - 1] == pdone[k]);
        } else {
        }
    }
    assert forall|k: int, l: int| 0 <= k < l < n implies #[trigger] pdone[k] != #[trigger] pdone[l] by {
        let ok = if k < j { k } else if k == j { i } else if k <= i { k - 1 } else { k };
        let ol = if l < j { l } else if l == j { i } else if l <= i { l - 1 } else { l };
        assert(pdone[k] == pstart[ok]);
        assert(pdone[l] == pstart[ol]);
        assert(ok != ol);
        if ok < ol {
            assert(pstart[ok] != pstart[ol]);
        } else {
            assert(pstart[ol] != pstart[ok]);
        }
    }
    assert forall|k: int| 0 <= k < i + 1 implies #[trigger] pdone[k] < i + 1 by {
        if k < j {
            assert(pstart[k] < i);
        } else if k > j {
            assert(pstart[k - 1] < i);
        }
    }
    assert forall|k: int, l: int| 0 <= k < l < i + 1 && #[trigger] sorts_before(f, done[l], done[k]) implies pdone[k] < pdone[l] by {
        if l < j {
            assert(done[l] == start[l] && pdone[l] == pstart[l]);
            assert(done[k] == start[k] && pdone[k] == pstart[k]);
            assert(sorts_before(f, start[l], start[k]));
        } else if l == j {
            assert(pdone[k] == pstart[k]);
            assert(pstart[k] < i);
        } else if k < j {
            assert(done[l] == start[l - 1] && pdone[l] == pstart[l - 1]);
            assert(done[k] == start[k] && pdone[k] == pstart[k]);
            assert(sorts_before(f, start[l - 1], start[k]));
        } else if k == j {
            assert(done[l] == start[l - 1] && pdone[l] == pstart[l - 1]);
            assert(pstart[l - 1] < i);
            assert(!sorts_before(f, done[l], start[i]));
        } else {
            assert(done[l] == start[l - 1] && pdone[l] == pstart[l - 1]);
            assert(done[k] == start[k - 1] && pdone[k] == pstart[k - 1]);
            assert(sorts_before(f, start[l - 1], start[k - 1]));
        }
    }
}

/// Sorts `base` in place with the comparison `compar`, by insertion: each element in turn is
/// moved back past the elements before it that `compar` puts after it. The elements are
/// rearranged, never lost or repeated, and an element is never moved past one that compares
/// equal to it (the sort is stable); with a comparison that behaves as one (`consistent`),
/// they end sorted by it.
pub fn qsort<T: Copy, F: Fn(&T, &T) -> i32>(base: &mut [T], compar: F)
    requires
        callable(compar),
    ensures
        final(base)@.len() == old(base)@.len(),
        final(base)@.to_multiset() == old(base)@.to_multiset(),
        consistent(compar) ==> sorted_by(compar, final(base)@),
        exists|p: Seq<int>| arranged(p, old(base)@, final(base)@) && stable_upto(compar, p, final(base)@, old(base)@.len() as int),
{
    let n = base.len();
    let ghost mut perm: Seq<int> = Seq::new(n as nat, |k: int| k);
    if n <= 1 {
        proof {
            assert(base@.take(n as int) =~= base@);
            assert(arranged(perm, old(base)@, base@));
        }
        return;
    }
    let mut i: usize = 1;
    while i < n
        invariant
            1 <= i <= n,
            n == base@.len(),
            callable(compar),
            base@.to_multiset() == old(base)@.to_multiset(),
            consistent(compar) ==> sorted_by(compar, base@.take(i as int)),
            arranged(perm, old(base)@, base@),
            stable_upto(compar, perm, base@, i as int),
            forall|k: int| 0 <= k < i ==> #[trigger] perm[k] < i,
            forall|k: int| i <= k < n ==> #[trigger] perm[k] == k,
        decreases n - i,
    {
        let tmp = base[i];
        let ghost start = base@;
        let ghost pstart = perm;
        let mut j: usize = i;
        let mut moving = true;
        proof {
            assert(base@.update(i as int, tmp) =~= start);
        }
        while moving && j > 0
            invariant
                j <= i < n,
                n == base@.len(),
                start.len() == n,
                start[i as int] == tmp,
                callable(compar),
                base@.update(j as int, tmp).to_multiset() == start.to_multiset(),
                forall|k: int| 0 <= k < j ==> base@[k] == start[k],
                forall|k: int| j < k <= i ==> base@[k] == start[k - 1],
                forall|k: int| i < k < n ==> base@[k] == start[k],
                consistent(compar) ==> forall|k: int| j < k <= i ==> #[trigger] sorts_before(compar, tmp, base@[k]),
                !moving ==> j > 0 && (consistent(compar) ==> sorts_before(compar, start[j - 1], tmp)),
                perm.len() == n,
                forall|k: int| 0 <= k < j ==> perm[k] == pstart[k],
                forall|k: int| j < k <= i ==> perm[k] == pstart[k - 1],
                forall|k: int| i < k < n ==> perm[k] == pstart[k],
                forall|k: int| j < k <= i ==> !#[trigger] sorts_before(compar, base@[k], tmp),
            decreases j + if moving { 1int } else { 0int },
        {
            let prev = base[j - 1];
            let order = compar(&prev, &tmp);
            if order <= 0 {
                proof {
                    if consistent(compar) {
                        assert forall|r: i32| #[trigger] call_ensures(compar, (&prev, &tmp), r) implies r <= 0 by {
                            assert(call_ensures(compar, (&prev, &tmp), order));
                        }
                    }
                }
                moving = false;
            } else {
                let ghost before = base@;
                base[j] = prev;
                proof {
                    let w = before.update(j as int, tmp);
                    lemma_exchange_keeps_elements(w, j - 1, j as int);
                    assert(w.update(j - 1, w[j as int]).update(j as int, w[j - 1]) =~= base@.update(j - 1, tmp));
                    if consistent(compar) {
                        assert(sorts_before(compar, tmp, prev));
                    }
                    assert(call_ensures(compar, (&prev, &tmp), order));
                    assert(!sorts_before(compar, prev, tmp));
                    perm = perm.update(j as int, perm[j - 1]);
                }
                j = j - 1;
            }
        }
        base[j] = tmp;
        proof {
            if consistent(compar) {
                lemma_inserted_sorted(compar, start, base@, i as int, j as int);
            }
            let pdone = perm.update(j as int, pstart[i as int]);
            lemma_inserted_stable(compar, old(base)@, pstart, pdone, start, base@, i as int, j as int);
            perm = pdone;
        }
        i = i + 1;
    }
    proof {
        assert(base@.take(n as int) =~= base@);
    }
}

} // verus!
