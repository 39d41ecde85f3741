//! Exponential snapshot retention schedule.
//!
//! Given an unconfirmed horizon `total`, the kept-set is the sparse,
//! geometrically spaced set of frame ordinals whose snapshots are retained so
//! that any frame at or after the horizon can still be rolled back to without
//! keeping every intermediate state.

use vstd::prelude::*;

verus! {

/// Whether `n` is a power of two (1, 2, 4, 8, ...).
pub open spec fn is_pow2(n: int) -> bool
    decreases n,
{
    if n <= 0 {
        false
    } else if n == 1 {
        true
    } else {
        n % 2 == 0 && is_pow2(n / 2)
    }
}

/// The least power of two at or above `n` (1 for `n <= 1`).
pub open spec fn npow2(n: int) -> int
    decreases n,
{
    if n <= 1 {
        1
    } else {
        2 * npow2((n + 1) / 2)
    }
}

/// The kept-set without the extra power-of-two element: doubled kept-set of
/// the half horizon, plus the last frame before the horizon.
pub open spec fn naive_kept(total: int) -> Set<int>
    decreases total, 0int,
{
    if total <= 0 {
        Set::empty()
    } else if total == 1 {
        set![0int]
    } else {
        let half = kept(total / 2);
        Set::new(|x: int| x % 2 == 0 && half.contains(x / 2)).insert(total - 1)
    }
}

/// The kept-set of frame ordinals for the unconfirmed horizon `total`.
pub open spec fn kept(total: int) -> Set<int>
    decreases total, 1int,
{
    if total >= 2 && !is_pow2(total) {
        naive_kept(total).insert(npow2(total / 2))
    } else {
        naive_kept(total)
    }
}

/// The set of ordinals held by a sorted vector, as mathematical integers.
pub open spec fn seq_elems(s: Seq<u32>) -> Set<int> {
    Set::new(|x: int| exists|i: int| 0 <= i < s.len() && s[i] == x)
}

/// Strictly ascending order, so each ordinal appears once.
pub open spec fn strictly_sorted(s: Seq<u32>) -> bool {
    forall|i: int, j: int| 0 <= i < j < s.len() ==> s[i] < s[j]
}

/// Whether `n` is a power of two, computed by repeated halving.
pub fn is_power_of_two(n: u32) -> (r: bool)
    ensures
        r == is_pow2(n as int),
{
    if n == 0 {
        return false;
    }
    let mut m: u32 = n;
    while m % 2 == 0
        invariant
            m >= 1,
            is_pow2(n as int) == is_pow2(m as int),
        decreases m,
    {
        m = m / 2;
    }
    m == 1
}

/// The least power of two at or above `n`.
pub fn next_power_of_two(n: u32) -> (r: u32)
    requires
        n <= 0x8000_0000,
    ensures
        r as int == npow2(n as int),
{
    proof {
        lemma_npow2_props(n as int);
    }
    let mut p: u32 = 1;
    while p < n
        invariant
            1 <= p,
            n <= 0x8000_0000,
            is_pow2(p as int),
            p as int <= npow2(n as int),
        decreases npow2(n as int) - p,
    {
        proof {
            lemma_npow2_props(n as int);
            lemma_npow2_lt(n as int);
            lemma_pow2_le(p as int, npow2(n as int));
        }
        p = p * 2;
    }
    proof {
        lemma_npow2_min(n as int, p as int);
    }
    p
}

/// Inserts `x` into a strictly sorted vector, keeping it sorted and
/// duplicate-free.
fn insert_sorted(v: &mut Vec<u32>, x: u32)
    requires
        strictly_sorted(old(v)@),
    ensures
        strictly_sorted(final(v)@),
        seq_elems(final(v)@) == seq_elems(old(v)@).insert(x as int),
{
    let ghost orig = v@;
    let mut i: usize = 0;
    while i < v.len() && v[i] < x
        invariant
            i <= v@.len(),
            v@ == orig,
            forall|j: int| 0 <= j < i ==> v@[j] < x,
        decreases v@.len() - i,
    {
        i += 1;
    }
    if i < v.len() && v[i] == x {
        proof {
            assert(seq_elems(v@).contains(x as int));
            assert(seq_elems(v@) =~= seq_elems(orig).insert(x as int));
        }
    } else {
        v.insert(i, x);
        proof {
            assert forall|a: int, b: int| 0 <= a < b < v@.len() implies v@[a] < v@[b] by {
                if b < i {
                } else if a < i && b == i {
                } else if a < i {
                    assert(v@[b] == orig[b - 1]);
                } else if a == i {
                    assert(v@[b] == orig[b - 1]);
                    assert(orig[i as int] <= orig[b - 1]);
                } else {
                    assert(v@[a] == orig[a - 1] && v@[b] == orig[b - 1]);
                }
            }
            assert forall|y: int| seq_elems(v@).contains(y) implies seq_elems(orig).insert(
                x as int,
            ).contains(y) by {
                let j = choose|j: int| 0 <= j < v@.len() && v@[j] == y;
                if j < i {
                    assert(orig[j] == y);
                } else if j > i {
                    assert(orig[j - 1] == y);
                }
            }
            assert forall|y: int| seq_elems(orig).insert(x as int).contains(y) implies seq_elems(
                v@,
            ).contains(y) by {
                if y == x as int {
                    assert(v@[i as int] == x);
                } else {
                    let j = choose|j: int| 0 <= j < orig.len() && orig[j] == y;
                    if j < i {
                        assert(v@[j] == y);
                    } else {
                        assert(v@[j + 1] == y);
                    }
                }
            }
            assert(seq_elems(v@) =~= seq_elems(orig).insert(x as int));
        }
    }
}

/// Membership test in a kept-set vector.
pub fn kept_set_contains(v: &Vec<u32>, x: u32) -> (r: bool)
    ensures
        r == seq_elems(v@).contains(x as int),
{
    let mut i: usize = 0;
    while i < v.len()
        invariant
            i <= v@.len(),
            forall|j: int| 0 <= j < i ==> v@[j] != x,
        decreases v@.len() - i,
    {
        if v[i] == x {
            return true;
        }
        i += 1;
    }
    false
}

/// The kept-set of the horizon `total` without the extra power-of-two
/// element, as a sorted vector.
pub fn naive_kept_set(total: u32) -> (r: Vec<u32>)
    ensures
        strictly_sorted(r@),
        seq_elems(r@) == naive_kept(total as int),
    decreases total, 0int,
{
    if total == 0 {
        let r: Vec<u32> = Vec::new();
        proof {
            assert(seq_elems(r@) =~= naive_kept(0));
        }
        return r;
    }
    if total == 1 {
        let mut r: Vec<u32> = Vec::new();
        r.push(0);
        proof {
            assert(r@[0] == 0u32);
            assert(seq_elems(r@) =~= naive_kept(1));
        }
        return r;
    }
    let half = kept_set(total / 2);
    proof {
        lemma_kept_bounds((total / 2) as int);
    }
    let mut r: Vec<u32> = Vec::new();
    let mut i: usize = 0;
    while i < half.len()
        invariant
            i <= half@.len(),
            r@.len() == i,
            forall|j: int| 0 <= j < i ==> r@[j] == 2 * half@[j],
            strictly_sorted(half@),
            seq_elems(half@) == kept((total / 2) as int),
            forall|x: int| #[trigger] kept((total / 2) as int).contains(x) ==> 0 <= x < total
                / 2,
            total >= 2,
        decreases half@.len() - i,
    {
        proof {
            assert(seq_elems(half@).contains(half@[i as int] as int));
        }
        let v = half[i];
        r.push(2 * v);
        i += 1;
    }
    proof {
        assert forall|j: int| 0 <= j < r@.len() implies r@[j] < total - 1 by {
            assert(seq_elems(half@).contains(half@[j] as int));
        }
    }
    r.push(total - 1);
    proof {
        let orig = r@;
        assert forall|y: int| seq_elems(orig).contains(y) implies naive_kept(
            total as int,
        ).contains(y) by {
            let j = choose|j: int| 0 <= j < orig.len() && orig[j] == y;
            if j < orig.len() - 1 {
                assert(orig[j] == 2 * half@[j]);
                assert(seq_elems(half@).contains(half@[j] as int));
                assert(y % 2 == 0 && kept((total / 2) as int).contains(y / 2));
            }
        }
        assert forall|y: int| naive_kept(total as int).contains(y) implies seq_elems(
            orig,
        ).contains(y) by {
            if y == total - 1 {
                assert(orig[orig.len() - 1] == total - 1);
            } else {
                assert(y % 2 == 0 && kept((total / 2) as int).contains(y / 2));
                let j = choose|j: int| 0 <= j < half@.len() && half@[j] == y / 2;
                assert(orig[j] == 2 * half@[j]);
            }
        }
        assert(seq_elems(r@) =~= naive_kept(total as int));
    }
    r
}

/// The kept-set of frame ordinals for the unconfirmed horizon `total`, as a
/// sorted vector.
pub fn kept_set(total: u32) -> (r: Vec<u32>)
    ensures
        strictly_sorted(r@),
        seq_elems(r@) == kept(total as int),
    decreases total, 1int,
{
    let mut r = naive_kept_set(total);
    if total >= 2 && !is_power_of_two(total) {
        let p = next_power_of_two(total / 2);
        insert_sorted(&mut r, p);
    }
    r
}

pub proof fn lemma_npow2_props(n: int)
    ensures
        is_pow2(npow2(n)),
        npow2(n) >= n,
        npow2(n) >= 1,
    decreases n,
{
    if n >= 2 {
        lemma_npow2_props((n + 1) / 2);
    }
}

/// A power of two strictly below another is at most its half.
pub proof fn lemma_pow2_le(p: int, q: int)
    requires
        is_pow2(p),
        is_pow2(q),
        p < q,
    ensures
        2 * p <= q,
    decreases p,
{
    if p >= 2 {
        lemma_pow2_le(p / 2, q / 2);
    }
}

/// `npow2(n)` is the least power of two at or above `n`.
pub proof fn lemma_npow2_min(n: int, q: int)
    requires
        is_pow2(q),
        q >= n,
    ensures
        npow2(n) <= q,
    decreases n,
{
    if n >= 2 {
        lemma_npow2_min((n + 1) / 2, q / 2);
    }
}

/// There is a power of two in `[k, 2k)` for every `k >= 1`.
pub proof fn lemma_npow2_lt(k: int)
    requires
        k >= 1,
    ensures
        npow2(k) < 2 * k,
{
    lemma_npow2_props(k);
    if npow2(k) >= 2 * k {
        lemma_npow2_min(k, npow2(k) / 2);
    }
}

/// Every kept ordinal lies in `[0, total)`.
pub proof fn lemma_kept_bounds(total: int)
    ensures
        forall|x: int| kept(total).contains(x) ==> 0 <= x < total,
        forall|x: int| naive_kept(total).contains(x) ==> 0 <= x < total,
    decreases total,
{
    if total >= 2 {
        lemma_kept_bounds(total / 2);
        assert forall|x: int| naive_kept(total).contains(x) implies 0 <= x < total by {
            if x != total - 1 {
                assert(kept(total / 2).contains(x / 2));
                assert(x / 2 < total / 2);
            }
        }
        if !is_pow2(total) {
            lemma_npow2_lt(total / 2);
            lemma_npow2_props(total / 2);
            assert forall|x: int| kept(total).contains(x) implies 0 <= x < total by {
                if x != npow2(total / 2) {
                    assert(naive_kept(total).contains(x));
                }
            }
        } else {
            assert forall|x: int| kept(total).contains(x) implies 0 <= x < total by {
                assert(naive_kept(total).contains(x));
            }
        }
    }
}

/// Frame 0 is kept at every positive horizon.
pub proof fn lemma_kept_zero(total: int)
    requires
        total >= 1,
    ensures
        kept(total).contains(0),
        naive_kept(total).contains(0),
    decreases total,
{
    if total >= 2 {
        lemma_kept_zero(total / 2);
        assert(naive_kept(total).contains(0));
    }
}

/// The frame just before the horizon is always kept.
pub proof fn lemma_kept_last(total: int)
    requires
        total >= 1,
    ensures
        kept(total).contains(total - 1),
        naive_kept(total).contains(total - 1),
{
}

/// A power of two just below the horizon is kept.  The horizon may exceed the
/// power by at most a factor of two (plus rounding).
proof fn lemma_pow2_kept(p: int, u: int)
    requires
        is_pow2(p),
        p < u,
        u <= 2 * p + 2,
        p == 1 ==> u <= 3,
    ensures
        kept(u).contains(p),
    decreases u,
{
    if u == p + 1 {
        lemma_kept_last(u);
    } else if p == 1 {
        assert(u == 3);
        assert(kept(3).contains(npow2(3int / 2)));
    } else {
        let h = u / 2;
        lemma_pow2_kept(p / 2, h);
        assert(naive_kept(u).contains(p));
    }
}

/// Persistence of older snapshots: any frame below a horizon `u` that a later
/// horizon `v` still wants kept was already in `u`'s kept-set.  Growing the
/// horizon therefore never demands a snapshot that an earlier purge against
/// `kept(u)` might have discarded.
pub proof fn lemma_kept_persistent(u: int, v: int, x: int)
    requires
        1 <= u <= v,
        kept(v).contains(x),
        x < u,
    ensures
        kept(u).contains(x),
    decreases v,
{
    lemma_kept_bounds(v);
    if u == v {
    } else if x == 0 {
        lemma_kept_zero(u);
    } else if x == u - 1 {
        lemma_kept_last(u);
    } else {
        // u < v, 0 < x < u - 1, so v >= 2 and u >= 2.
        let extra = !is_pow2(v) && x == npow2(v / 2);
        if extra {
            lemma_npow2_props(v / 2);
            lemma_pow2_kept(x, u);
        } else {
            assert(naive_kept(v).contains(x));
            assert(x % 2 == 0 && kept(v / 2).contains(x / 2));
            lemma_kept_persistent(u / 2, v / 2, x / 2);
            assert(naive_kept(u).contains(x));
        }
    }
}

/// Max gap: every kept frame short of the horizon's last has a kept successor
/// within `total / 2` frames.
pub proof fn lemma_kept_gap(u: int, x: int)
    requires
        kept(u).contains(x),
        x < u - 1,
    ensures
        exists|y: int| kept(u).contains(y) && x < y && y <= x + u / 2,
    decreases u,
{
    lemma_kept_bounds(u);
    if u == 2 {
        assert(naive_kept(2).contains(1));
        assert(kept(2).contains(1) && x < 1 && 1 <= x + 1);
    } else if u == 3 {
        if x == 0 {
            assert(kept(3).contains(npow2(3int / 2)));
            assert(kept(3).contains(1) && x < 1 && 1 <= x + 1);
        } else {
            lemma_kept_last(3);
            assert(kept(3).contains(2) && x < 2 && 2 <= x + 1);
        }
    } else {
        let extra = !is_pow2(u) && x == npow2(u / 2);
        if extra {
            lemma_npow2_props(u / 2);
            lemma_kept_last(u);
            assert(kept(u).contains(u - 1) && x < u - 1 && u - 1 <= x + u / 2);
        } else {
            assert(naive_kept(u).contains(x));
            assert(x % 2 == 0 && kept(u / 2).contains(x / 2));
            if x / 2 < u / 2 - 1 {
                lemma_kept_gap(u / 2, x / 2);
                let y2 = choose|y2: int|
                    #[trigger] kept(u / 2).contains(y2) && x / 2 < y2 && y2 <= x / 2 + (u / 2)
                        / 2;
                assert(naive_kept(u).contains(2 * y2));
                assert(kept(u).contains(2 * y2) && x < 2 * y2 && 2 * y2 <= x + u / 2);
            } else {
                lemma_kept_last(u);
                assert(kept(u).contains(u - 1) && x < u - 1 && u - 1 <= x + u / 2);
            }
        }
    }
}

/// Every kept ordinal doubled: the first half of the recursive construction.
pub open spec fn doubled(s: Set<int>) -> Set<int> {
    Set::new(|x: int| x % 2 == 0 && s.contains(x / 2))
}

/// Doubling is a bijection: the doubled set is finite with the same size.
pub proof fn lemma_doubled_len(s: Set<int>)
    requires
        s.finite(),
    ensures
        doubled(s).finite(),
        doubled(s).len() == s.len(),
    decreases s.len(),
{
    if s.len() == 0 {
        assert(doubled(s) =~= Set::empty());
    } else {
        let x = s.choose();
        assert(s.contains(x));
        let rest = s.remove(x);
        lemma_doubled_len(rest);
        assert(doubled(s) =~= doubled(rest).insert(2 * x));
        assert(!doubled(rest).contains(2 * x));
    }
}

/// Kept-sets are finite.
pub proof fn lemma_kept_finite(total: int)
    ensures
        kept(total).finite(),
        naive_kept(total).finite(),
    decreases total,
{
    if total <= 0 {
    } else if total == 1 {
        assert(naive_kept(1) =~= Set::empty().insert(0));
    } else {
        lemma_kept_finite(total / 2);
        lemma_doubled_len(kept(total / 2));
        assert(naive_kept(total) =~= doubled(kept(total / 2)).insert(total - 1));
    }
}

/// Above the smallest horizons, each halving step grows the kept-set by
/// exactly one ordinal: the extra power of two is already among the doubled
/// ordinals, so only the last frame is new.
pub proof fn lemma_kept_size_step(total: int)
    requires
        total >= 4,
    ensures
        kept(total).finite(),
        kept(total).len() == kept(total / 2).len() + 1,
    decreases total,
{
    let h = total / 2;
    lemma_kept_finite(h);
    lemma_kept_bounds(h);
    lemma_doubled_len(kept(h));
    let d = doubled(kept(h));
    assert(naive_kept(total) =~= d.insert(total - 1));
    // The last frame is never among the doubled ordinals.
    assert(!d.contains(total - 1)) by {
        if d.contains(total - 1) {
            assert(kept(h).contains((total - 1) / 2));
            assert((total - 1) / 2 < h);
            assert((total - 1) % 2 == 0);
        }
    }
    assert(naive_kept(total).len() == kept(h).len() + 1);
    if !is_pow2(total) {
        // The extra power of two is already a doubled kept ordinal.
        let p = npow2(h);
        lemma_npow2_props(h);
        lemma_npow2_lt(h);
        assert(p >= 2 && is_pow2(p));
        assert(p % 2 == 0 && is_pow2(p / 2));
        lemma_pow2_kept(p / 2, h);
        assert(d.contains(p));
        assert(naive_kept(total).contains(p));
        assert(kept(total) =~= naive_kept(total));
    }
}

/// The kept-set never shrinks as the horizon grows.
pub proof fn lemma_kept_size_nondecreasing(total: int)
    requires
        total >= 0,
    ensures
        kept(total).finite(),
        kept(total + 1).finite(),
        kept(total).len() <= kept(total + 1).len(),
    decreases total,
{
    lemma_kept_finite(total);
    lemma_kept_finite(total + 1);
    if total == 0 {
        assert(kept(0) =~= Set::<int>::empty());
        assert(kept(1) =~= Set::<int>::empty().insert(0));
    } else if total <= 3 {
        // The smallest horizons, by direct computation.
        lemma_kept_finite(1);
        lemma_kept_finite(2);
        assert(kept(1) =~= Set::<int>::empty().insert(0));
        assert(kept(1).len() == 1);
        lemma_doubled_len(kept(1));
        assert(naive_kept(2) =~= doubled(kept(1)).insert(1));
        assert(!doubled(kept(1)).contains(1));
        assert(kept(2).len() == 2);
        assert(naive_kept(3) =~= doubled(kept(1)).insert(2));
        assert(doubled(kept(1)).contains(2) == false);
        assert(naive_kept(3).len() == 2);
        assert(kept(3) =~= naive_kept(3).insert(npow2(1)));
        assert(!naive_kept(3).contains(1));
        assert(kept(3).len() == 3);
        if total == 3 {
            lemma_kept_size_step(4);
        }
    } else {
        lemma_kept_size_step(total);
        lemma_kept_size_step(total + 1);
        if total % 2 == 0 {
            assert((total + 1) / 2 == total / 2);
        } else {
            lemma_kept_size_nondecreasing(total / 2);
            assert((total + 1) / 2 == total / 2 + 1);
        }
    }
}

} // verus!
