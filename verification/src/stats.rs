//! Order statistics over integers: extremes, totals, sorting and percentiles.
use vstd::arithmetic::div_mod::{
    lemma_fundamental_div_mod, lemma_fundamental_div_mod_converse,
};
use vstd::prelude::*;

verus! {

/// The least element.
pub open spec fn least(s: Seq<nat>) -> nat
    recommends
        s.len() > 0,
    decreases s.len(),
{
    if s.len() <= 1 {
        s[0]
    } else {
        let rest = least(s.drop_last());
        if s.last() < rest {
            s.last()
        } else {
            rest
        }
    }
}

/// The greatest element.
pub open spec fn greatest(s: Seq<nat>) -> nat
    recommends
        s.len() > 0,
    decreases s.len(),
{
    if s.len() <= 1 {
        s[0]
    } else {
        let rest = greatest(s.drop_last());
        if s.last() > rest {
            s.last()
        } else {
            rest
        }
    }
}

/// The sum of the elements.
pub open spec fn total(s: Seq<nat>) -> nat
    decreases s.len(),
{
    if s.len() == 0 {
        0
    } else {
        total(s.drop_last()) + s.last()
    }
}

/// The arithmetic mean, cut to an integer.
pub open spec fn mean(s: Seq<nat>) -> nat {
    total(s) / s.len()
}

/// The least element is one of the elements, and none is smaller; the greatest
/// likewise; and the mean lies between them.
pub proof fn lemma_extremes(s: Seq<nat>)
    requires
        s.len() > 0,
    ensures
        s.contains(least(s)),
        s.contains(greatest(s)),
        forall|i: int| 0 <= i < s.len() ==> least(s) <= #[trigger] s[i] <= greatest(s),
        least(s) <= mean(s) <= greatest(s),
{
    lemma_extremes_bound(s);
    let n = s.len() as int;
    let t = total(s) as int;
    let lo = least(s) as int;
    let hi = greatest(s) as int;
    assert(lo <= t / n <= hi) by (nonlinear_arith)
        requires
            n > 0,
            lo * n <= t <= hi * n,
    ;
}

proof fn lemma_extremes_bound(s: Seq<nat>)
    requires
        s.len() > 0,
    ensures
        s.contains(least(s)),
        s.contains(greatest(s)),
        forall|i: int| 0 <= i < s.len() ==> least(s) <= #[trigger] s[i] <= greatest(s),
        least(s) * s.len() <= total(s) <= greatest(s) * s.len(),
    decreases s.len(),
{
    if s.len() == 1 {
        assert(s[0] == s.last());
        assert(s.drop_last() =~= Seq::<nat>::empty());
        assert(total(s.drop_last()) == 0);
    } else {
        let rest = s.drop_last();
        lemma_extremes_bound(rest);
        let a = choose|i: int| 0 <= i < rest.len() && rest[i] == least(rest);
        let b = choose|i: int| 0 <= i < rest.len() && rest[i] == greatest(rest);
        assert(s[a] == least(rest));
        assert(s[b] == greatest(rest));
        assert(s[s.len() - 1] == s.last());
        assert forall|i: int| 0 <= i < s.len() implies least(s) <= #[trigger] s[i]
            <= greatest(s) by {
            if i < rest.len() {
                assert(rest[i] == s[i]);
            }
        }
        let n = rest.len() as int;
        let x = s.last() as int;
        assert(least(s) * (n + 1) <= total(s)) by (nonlinear_arith)
            requires
                least(s) <= least(rest),
                least(s) <= x,
                least(rest) * n <= total(rest),
                total(s) == total(rest) + x,
                n >= 0,
        ;
        assert(greatest(s) * (n + 1) >= total(s)) by (nonlinear_arith)
            requires
                greatest(s) >= greatest(rest),
                greatest(s) >= x,
                greatest(rest) * n >= total(rest),
                total(s) == total(rest) + x,
                n >= 0,
        ;
    }
}

/// How many elements at the head of an ascending sequence are at most `x`.
pub open spec fn place_of(sorted: Seq<u64>, x: u64) -> nat
    decreases sorted.len(),
{
    if sorted.len() == 0 {
        0
    } else if x < sorted.last() {
        place_of(sorted.drop_last(), x)
    } else {
        sorted.len()
    }
}

/// The elements in ascending order.
pub open spec fn sorted(s: Seq<u64>) -> Seq<u64>
    decreases s.len(),
{
    if s.len() == 0 {
        Seq::empty()
    } else {
        let rest = sorted(s.drop_last());
        rest.insert(place_of(rest, s.last()) as int, s.last())
    }
}

/// Whether the elements ascend.
pub open spec fn ascending(s: Seq<u64>) -> bool {
    forall|i: int, j: int| 0 <= i <= j < s.len() ==> s[i] <= s[j]
}

proof fn lemma_place(sorted: Seq<u64>, x: u64)
    ensures
        place_of(sorted, x) <= sorted.len(),
        forall|i: int| place_of(sorted, x) <= i < sorted.len() ==> x < #[trigger] sorted[i],
        place_of(sorted, x) > 0 ==> sorted[place_of(sorted, x) - 1] <= x,
    decreases sorted.len(),
{
    if sorted.len() > 0 {
        lemma_place(sorted.drop_last(), x);
        if x < sorted.last() {
            assert forall|i: int| place_of(sorted, x) <= i < sorted.len() implies x
                < #[trigger] sorted[i] by {
                if i < sorted.len() - 1 {
                    assert(sorted.drop_last()[i] == sorted[i]);
                }
            }
        }
    }
}

/// Sorting yields the same elements, ascending.
pub proof fn lemma_sorted(s: Seq<u64>)
    ensures
        ascending(sorted(s)),
        sorted(s).to_multiset() == s.to_multiset(),
        sorted(s).len() == s.len(),
    decreases s.len(),
{
    broadcast use vstd::seq_lib::group_to_multiset_ensures;

    if s.len() > 0 {
        let rest = s.drop_last();
        let x = s.last();
        lemma_sorted(rest);
        let base = sorted(rest);
        let k = place_of(base, x) as int;
        lemma_place(base, x);
        vstd::seq_lib::to_multiset_insert(base, k, x);
        assert(s =~= rest.push(x));
        let all = sorted(s);
        assert forall|i: int, j: int| 0 <= i <= j < all.len() implies all[i] <= all[j] by {
            let p = if i < k {
                i
            } else {
                i - 1
            };
            let q = if j < k {
                j
            } else {
                j - 1
            };
            if i == k && j == k {
            } else if i == k {
                assert(all[j] == base[q]);
            } else if j == k {
                assert(all[i] == base[p]);
                assert(base[i] <= base[k - 1]);
            } else {
                assert(all[i] == base[p] && all[j] == base[q]);
            }
        }
    } else {
        assert(sorted(s) =~= s);
    }
}

/// Sorts in ascending order.
pub fn sort(values: &Vec<u64>) -> (r: Vec<u64>)
    ensures
        r@ == sorted(values@),
{
    let mut r: Vec<u64> = Vec::new();
    let mut i: usize = 0;
    while i < values.len()
        invariant
            i <= values@.len(),
            r@ == sorted(values@.take(i as int)),
        decreases values@.len() - i,
    {
        let x: u64 = values[i];
        let mut k: usize = r.len();
        assert(r@.take(k as int) =~= r@);
        while k > 0 && x < r[k - 1]
            invariant
                k <= r@.len(),
                place_of(r@.take(k as int), x) == place_of(r@, x),
            decreases k,
        {
            assert(r@.take(k as int).drop_last() =~= r@.take(k - 1));
            k -= 1;
        }
        r.insert(k, x);
        assert(values@.take(i + 1).drop_last() =~= values@.take(i as int));
        i += 1;
    }
    assert(values@.take(i as int) =~= values@);
    r
}

/// Zero-based position of the nearest-rank percentile among `n` values: the
/// rank is rounded up.
pub open spec fn percentile_index(n: nat, percentile: nat) -> int {
    (percentile * n + 99) / 100 - 1
}

/// The position of a percentile is a position, and higher percentiles stand no
/// lower; the hundredth stands last.
pub proof fn lemma_percentile_index(n: nat, p: nat, q: nat)
    requires
        n > 0,
        1 <= p <= q <= 100,
    ensures
        0 <= percentile_index(n, p) <= percentile_index(n, q) < n,
        percentile_index(n, 100) == n - 1,
{
    assert(1 <= p * n && p * n <= q * n && q * n <= 100 * n) by (nonlinear_arith)
        requires
            n > 0,
            1 <= p <= q <= 100,
    ;
}

/// The value at the given percentile of an ascending slice, by the
/// nearest-rank method.
pub fn percentile_nearest_rank(sorted: &[u64], percentile: u32) -> (value: u64)
    requires
        sorted@.len() > 0,
        1 <= percentile <= 100,
    ensures
        value == sorted@[percentile_index(sorted@.len(), percentile as nat)],
        exists|k: int|
            0 <= k < sorted@.len() && value == #[trigger] sorted@[k] && 100 * k < percentile
                * sorted@.len() <= 100 * (k + 1),
{
    let n: u128 = sorted.len() as u128;
    proof {
        lemma_percentile_index(sorted@.len(), percentile as nat, percentile as nat);
        law_percentile_is_the_nearest_rank(sorted@.len(), percentile as nat);
        assert(percentile as nat * n <= 100 * n) by (nonlinear_arith)
            requires
                percentile <= 100,
        ;
    }
    let rank: u128 = (percentile as u128 * n + 99) / 100;
    sorted[(rank - 1) as usize]
}

/// Percentiles of an ascending slice rise with the rank, from the smallest
/// value to the largest, which is the hundredth percentile.
pub proof fn law_percentiles_rise(s: Seq<u64>, p: nat, q: nat)
    requires
        ascending(s),
        s.len() > 0,
        1 <= p <= q <= 100,
    ensures
        s[0] <= s[percentile_index(s.len(), p)],
        s[percentile_index(s.len(), p)] <= s[percentile_index(s.len(), q)],
        s[percentile_index(s.len(), q)] <= s[s.len() - 1],
        s[percentile_index(s.len(), 100)] == s[s.len() - 1],
{
    lemma_percentile_index(s.len(), p, q);
}

/// The position of a percentile is the nearest rank: the first position at and
/// before which at least that many percent of the values stand.
pub proof fn law_percentile_is_the_nearest_rank(n: nat, p: nat)
    requires
        n > 0,
        1 <= p <= 100,
    ensures
        0 <= percentile_index(n, p) < n,
        p * n <= 100 * (percentile_index(n, p) + 1),
        100 * percentile_index(n, p) < p * n,
{
    lemma_percentile_index(n, p, p);
    assert(1 <= p * n) by (nonlinear_arith)
        requires
            n > 0,
            1 <= p,
    ;
}

/// How many elements pass a test does not depend on where an element stands.
proof fn lemma_filter_insert(s: Seq<u64>, k: int, x: u64, test: spec_fn(u64) -> bool)
    requires
        0 <= k <= s.len(),
    ensures
        s.insert(k, x).filter(test).len() == s.filter(test).len() + if test(x) {
            1int
        } else {
            0
        },
    decreases s.len(),
{
    reveal(Seq::filter);
    let all = s.insert(k, x);
    if k == s.len() {
        assert(all.drop_last() =~= s);
    } else {
        assert(all.drop_last() =~= s.drop_last().insert(k, x));
        assert(all.last() == s.last());
        lemma_filter_insert(s.drop_last(), k, x, test);
    }
}

/// As many elements pass a test before sorting as behind it.
proof fn lemma_filter_sorted(s: Seq<u64>, test: spec_fn(u64) -> bool)
    ensures
        sorted(s).filter(test).len() == s.filter(test).len(),
    decreases s.len(),
{
    reveal(Seq::filter);
    if s.len() > 0 {
        let rest = sorted(s.drop_last());
        lemma_filter_sorted(s.drop_last(), test);
        lemma_place(rest, s.last());
        lemma_filter_insert(rest, place_of(rest, s.last()) as int, s.last(), test);
    }
}

/// If all elements before `k` pass a test, at least `k` do; if none from `k` on
/// does, at most `k` do.
proof fn lemma_filter_bounds(s: Seq<u64>, k: int, test: spec_fn(u64) -> bool)
    requires
        0 <= k <= s.len(),
    ensures
        (forall|i: int| 0 <= i < k ==> test(#[trigger] s[i])) ==> s.filter(test).len() >= k,
        (forall|i: int| k <= i < s.len() ==> !test(#[trigger] s[i])) ==> s.filter(test).len() <= k,
    decreases s.len(),
{
    reveal(Seq::filter);
    if s.len() > 0 {
        let rest = s.drop_last();
        if k == s.len() {
            lemma_filter_bounds(rest, k - 1, test);
            if forall|i: int| 0 <= i < k ==> test(#[trigger] s[i]) {
                assert forall|i: int| 0 <= i < k - 1 implies test(#[trigger] rest[i]) by {
                    assert(rest[i] == s[i]);
                }
                assert(test(s[k - 1]));
            }
            assert forall|i: int| k - 1 <= i < rest.len() implies !test(#[trigger] rest[i]) by {}
        } else {
            lemma_filter_bounds(rest, k, test);
            if forall|i: int| 0 <= i < k ==> test(#[trigger] s[i]) {
                assert forall|i: int| 0 <= i < k implies test(#[trigger] rest[i]) by {
                    assert(rest[i] == s[i]);
                }
            }
            if forall|i: int| k <= i < s.len() ==> !test(#[trigger] s[i]) {
                assert forall|i: int| k <= i < rest.len() implies !test(#[trigger] rest[i]) by {
                    assert(rest[i] == s[i]);
                }
                assert(!test(s[s.len() - 1]));
            }
        }
    }
}

/// Of the values themselves, in whatever order: at least `p` percent are at
/// most the `p`th percentile, and fewer are below it.
pub proof fn law_percentile_divides_the_values(s: Seq<u64>, p: nat)
    requires
        s.len() > 0,
        1 <= p <= 100,
    ensures
        ({
            let x = sorted(s)[percentile_index(s.len(), p)];
            &&& s.contains(x)
            &&& p * s.len() <= 100 * s.filter(|v: u64| v <= x).len()
            &&& 100 * s.filter(|v: u64| v < x).len() < p * s.len()
        }),
{
    let n = s.len();
    let k = percentile_index(n, p);
    let all = sorted(s);
    law_percentile_is_the_nearest_rank(n, p);
    lemma_sorted(s);
    let x = all[k];
    let up_to = |v: u64| v <= x;
    let less = |v: u64| v < x;
    assert forall|i: int| 0 <= i < k + 1 implies up_to(#[trigger] all[i]) by {
        assert(all[i] <= all[k]);
    }
    lemma_filter_bounds(all, k + 1, up_to);
    assert forall|i: int| k <= i < all.len() implies !less(#[trigger] all[i]) by {
        assert(all[k] <= all[i]);
    }
    lemma_filter_bounds(all, k, less);
    lemma_filter_sorted(s, up_to);
    lemma_filter_sorted(s, less);
    assert(s.contains(x)) by {
        broadcast use vstd::seq_lib::group_to_multiset_ensures;

        assert(all.contains(all[k]));
        assert(s.to_multiset().count(x) > 0);
    }
}

/// A total counts each element once: `d` more in one place are `d` more in all.
pub proof fn law_total_counts_each_once(s: Seq<nat>, i: int, d: nat)
    requires
        0 <= i < s.len(),
    ensures
        total(s.update(i, s[i] + d)) == total(s) + d,
    decreases s.len(),
{
    let more = s.update(i, s[i] + d);
    if i == s.len() - 1 {
        assert(more.drop_last() =~= s.drop_last());
    } else {
        assert(more.drop_last() =~= s.drop_last().update(i, s[i] + d));
        assert(more.last() == s.last());
        law_total_counts_each_once(s.drop_last(), i, d);
    }
}

/// A mean times the number of elements is their total, less what was cut: and
/// `d` more of one element for each element there is raise it by `d`.
pub proof fn law_mean_spreads_the_total(s: Seq<nat>, i: int, d: nat)
    requires
        0 <= i < s.len(),
    ensures
        mean(s) * s.len() <= total(s) < (mean(s) + 1) * s.len(),
        mean(s.update(i, s[i] + d * s.len())) == mean(s) + d,
{
    let n = s.len();
    let t = total(s);
    law_total_counts_each_once(s, i, d * n);
    lemma_fundamental_div_mod(t as int, n as int);
    let q = t / n;
    let r = t % n;
    assert(n * q == q * n && (q + 1) * n == q * n + n) by (nonlinear_arith);
    assert(t + d * n == (q + d) * n + r) by (nonlinear_arith)
        requires
            t == q * n + r,
    ;
    lemma_fundamental_div_mod_converse((t + d * n) as int, n as int, (q + d) as int, r as int);
}

} // verus!
