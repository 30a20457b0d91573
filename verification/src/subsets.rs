//! Subsets of a list, by size.
//!
//! A run builds the project once for each chosen subset of its feature
//! flags. A subset is written down as the positions it picks from the list,
//! in rising order, so that every subset has one notation and keeps the order
//! of the list.

use vstd::prelude::*;

verus! {

/// `tails` with `first` put in front of each.
pub open spec fn prepend_each(first: int, tails: Seq<Seq<int>>) -> Seq<Seq<int>> {
    Seq::new(tails.len(), |j: int| seq![first] + tails[j])
}

/// The ways to pick `k` of the positions `lo..n`, each in rising order, the
/// ways themselves in lexicographic order.
pub open spec fn index_combinations(lo: int, n: int, k: nat) -> Seq<Seq<int>>
    decreases n - lo,
{
    if k == 0 {
        seq![Seq::<int>::empty()]
    } else if n - lo < k {
        Seq::empty()
    } else {
        prepend_each(lo, index_combinations(lo + 1, n, (k - 1) as nat)) + index_combinations(
            lo + 1,
            n,
            k,
        )
    }
}

/// The items at the given positions.
pub open spec fn select<T>(items: Seq<T>, positions: Seq<int>) -> Seq<T> {
    Seq::new(positions.len(), |j: int| items[positions[j]])
}

/// The combinations of `k` of the items: each keeps the items' order, and
/// they come in the lexicographic order of the positions they pick.
pub open spec fn combinations<T>(items: Seq<T>, k: nat) -> Seq<Seq<T>> {
    let picks = index_combinations(0, items.len() as int, k);
    Seq::new(picks.len(), |j: int| select(items, picks[j]))
}

/// The combinations of at most `k` of the items: the empty one first, then
/// those of one item, and so on up to size `k`.
pub open spec fn combinations_up_to<T>(items: Seq<T>, k: nat) -> Seq<Seq<T>>
    decreases k,
{
    if k == 0 {
        combinations(items, 0)
    } else {
        combinations_up_to(items, (k - 1) as nat) + combinations(items, k)
    }
}

/// The curated list of a comparison: the baseline without any item, each
/// item alone, each pair, and all items together, each set once.
pub open spec fn curated_combinations<T>(items: Seq<T>) -> Seq<Seq<T>> {
    if items.len() > 2 {
        combinations_up_to(items, 2) + seq![items]
    } else {
        combinations_up_to(items, 2)
    }
}

/// Above the number of items there are no combinations.
pub proof fn lemma_no_combinations_above<T>(items: Seq<T>, k: nat)
    requires
        k > items.len(),
    ensures
        combinations(items, k) == Seq::<Seq<T>>::empty(),
{
    assert(combinations(items, k) =~= Seq::<Seq<T>>::empty());
}

/// Sizes above the number of items add nothing.
pub proof fn lemma_up_to_saturates<T>(items: Seq<T>, k: nat)
    requires
        k >= items.len(),
    ensures
        combinations_up_to(items, k) == combinations_up_to(items, items.len()),
    decreases k,
{
    if k > items.len() {
        lemma_up_to_saturates(items, (k - 1) as nat);
        lemma_no_combinations_above(items, k);
        assert(combinations_up_to(items, k) =~= combinations_up_to(items, (k - 1) as nat));
    }
}

/// The positions `lo..n` in rising order.
pub open spec fn positions(lo: int, n: int) -> Seq<int> {
    Seq::new((n - lo) as nat, |i: int| lo + i)
}

/// Picking all the positions is the one way to pick as many as there are.
pub proof fn lemma_index_combinations_all(lo: int, n: int)
    requires
        lo <= n,
    ensures
        index_combinations(lo, n, (n - lo) as nat) == seq![positions(lo, n)],
    decreases n - lo,
{
    if lo == n {
        assert(positions(lo, n) =~= Seq::<int>::empty());
    } else {
        lemma_index_combinations_all(lo + 1, n);
        let tails = index_combinations(lo + 1, n, (n - lo - 1) as nat);
        assert(index_combinations(lo + 1, n, (n - lo) as nat) =~= Seq::<Seq<int>>::empty());
        assert(seq![lo] + positions(lo + 1, n) =~= positions(lo, n));
        assert(prepend_each(lo, tails) =~= seq![positions(lo, n)]);
        assert(index_combinations(lo, n, (n - lo) as nat) =~= seq![positions(lo, n)]);
    }
}

/// The one combination of all the items is the list of items itself.
pub proof fn lemma_combinations_all<T>(items: Seq<T>)
    ensures
        combinations(items, items.len()) == seq![items],
{
    lemma_index_combinations_all(0, items.len() as int);
    assert(select(items, positions(0, items.len() as int)) =~= items);
    assert(combinations(items, items.len()) =~= seq![items]);
}


/// The positions that the combinations of at most `k` of `n` items pick, in
/// the order of `combinations_up_to`.
pub open spec fn picks_up_to(n: nat, k: nat) -> Seq<Seq<int>>
    decreases k,
{
    if k == 0 {
        index_combinations(0, n as int, 0)
    } else {
        picks_up_to(n, (k - 1) as nat) + index_combinations(0, n as int, k)
    }
}

/// Whether the positions lie in `lo..n` and rise strictly: the notation of a
/// subset in the order of the list.
pub open spec fn is_rising(picked: Seq<int>, lo: int, n: int) -> bool {
    &&& forall|i: int| 0 <= i < picked.len() ==> lo <= #[trigger] picked[i] < n
    &&& forall|i: int, j: int| 0 <= i < j < picked.len() ==> picked[i] < picked[j]
}

/// The number of subsets of size `k` that a set of `n` has.
pub open spec fn binomial(n: nat, k: nat) -> nat
    decreases n,
{
    if k == 0 {
        1
    } else if n == 0 {
        0
    } else {
        binomial((n - 1) as nat, (k - 1) as nat) + binomial((n - 1) as nat, k)
    }
}

/// The number of subsets of size at most `k` that a set of `n` has.
pub open spec fn binomial_sum(n: nat, k: nat) -> nat
    decreases k,
{
    if k == 0 {
        binomial(n, 0)
    } else {
        binomial_sum(n, (k - 1) as nat) + binomial(n, k)
    }
}

/// A set has no subset larger than itself.
pub proof fn lemma_binomial_above(n: nat, k: nat)
    requires
        k > n,
    ensures
        binomial(n, k) == 0,
    decreases n,
{
    if n > 0 {
        lemma_binomial_above((n - 1) as nat, (k - 1) as nat);
        lemma_binomial_above((n - 1) as nat, k);
    }
}

/// There are `binomial(n - lo, k)` ways to pick `k` of the positions `lo..n`.
pub proof fn lemma_index_combinations_count(lo: int, n: int, k: nat)
    requires
        lo <= n,
    ensures
        index_combinations(lo, n, k).len() == binomial((n - lo) as nat, k),
    decreases n - lo,
{
    if k == 0 {
    } else if n - lo < k {
        lemma_binomial_above((n - lo) as nat, k);
    } else {
        lemma_index_combinations_count(lo + 1, n, (k - 1) as nat);
        lemma_index_combinations_count(lo + 1, n, k);
    }
}

/// Each way to pick `k` of the positions `lo..n` holds `k` positions of
/// `lo..n`, in rising order.
pub proof fn lemma_index_combinations_rising(lo: int, n: int, k: nat)
    requires
        lo <= n,
    ensures
        forall|j: int|
            0 <= j < index_combinations(lo, n, k).len() ==> {
                &&& (#[trigger] index_combinations(lo, n, k)[j]).len() == k
                &&& is_rising(index_combinations(lo, n, k)[j], lo, n)
            },
    decreases n - lo,
{
    let all = index_combinations(lo, n, k);
    if k == 0 {
    } else if n - lo < k {
    } else {
        let tails = index_combinations(lo + 1, n, (k - 1) as nat);
        let with = prepend_each(lo, tails);
        let without = index_combinations(lo + 1, n, k);
        lemma_index_combinations_rising(lo + 1, n, (k - 1) as nat);
        lemma_index_combinations_rising(lo + 1, n, k);
        assert forall|j: int| 0 <= j < all.len() implies {
            &&& (#[trigger] all[j]).len() == k
            &&& is_rising(all[j], lo, n)
        } by {
            if j < with.len() {
                let tail = tails[j];
                assert(all[j] == seq![lo] + tail);
                assert(is_rising(tail, lo + 1, n));
                assert forall|a: int, b: int| 0 <= a < b < all[j].len() implies all[j][a]
                    < all[j][b] by {
                    assert(all[j][b] == tail[b - 1]);
                    if a > 0 {
                        assert(all[j][a] == tail[a - 1]);
                    }
                }
                assert forall|a: int| 0 <= a < all[j].len() implies lo <= #[trigger] all[j][a]
                    < n by {
                    if a > 0 {
                        assert(all[j][a] == tail[a - 1]);
                    }
                }
            } else {
                assert(all[j] == without[j - with.len()]);
                assert(is_rising(without[j - with.len()], lo + 1, n));
            }
        }
    }
}

/// No way to pick `k` of the positions `lo..n` is listed twice.
pub proof fn lemma_index_combinations_distinct(lo: int, n: int, k: nat)
    requires
        lo <= n,
    ensures
        forall|i: int, j: int|
            0 <= i < j < index_combinations(lo, n, k).len() ==> index_combinations(lo, n, k)[i]
                != index_combinations(lo, n, k)[j],
    decreases n - lo,
{
    let all = index_combinations(lo, n, k);
    if k == 0 {
    } else if n - lo < k {
    } else {
        let tails = index_combinations(lo + 1, n, (k - 1) as nat);
        let with = prepend_each(lo, tails);
        let without = index_combinations(lo + 1, n, k);
        lemma_index_combinations_distinct(lo + 1, n, (k - 1) as nat);
        lemma_index_combinations_distinct(lo + 1, n, k);
        lemma_index_combinations_rising(lo + 1, n, k);
        assert forall|i: int, j: int| 0 <= i < j < all.len() implies all[i] != all[j] by {
            if j < with.len() {
                assert(all[i] == seq![lo] + tails[i]);
                assert(all[j] == seq![lo] + tails[j]);
                assert(all[i].drop_first() =~= tails[i]);
                assert(all[j].drop_first() =~= tails[j]);
            } else if i < with.len() {
                assert(all[i] == seq![lo] + tails[i]);
                assert(all[i][0] == lo);
                let other = without[j - with.len()];
                assert(all[j] == other);
                assert(is_rising(other, lo + 1, n));
                assert(other.len() == k);
                assert(other[0] >= lo + 1);
            } else {
                assert(all[i] == without[i - with.len()]);
                assert(all[j] == without[j - with.len()]);
            }
        }
    }
}

/// Positions that rise within `lo..n` are no more than `n - lo`.
pub proof fn lemma_rising_fits(picked: Seq<int>, lo: int, n: int)
    requires
        is_rising(picked, lo, n),
    ensures
        picked.len() <= if n >= lo { n - lo } else { 0 },
    decreases picked.len(),
{
    if picked.len() > 0 {
        let rest = picked.drop_first();
        assert forall|i: int| 0 <= i < rest.len() implies lo + 1 <= #[trigger] rest[i] < n by {
            assert(rest[i] == picked[i + 1]);
            assert(picked[0] < picked[i + 1]);
        }
        assert forall|i: int, j: int| 0 <= i < j < rest.len() implies rest[i] < rest[j] by {
            assert(rest[i] == picked[i + 1]);
            assert(rest[j] == picked[j + 1]);
        }
        lemma_rising_fits(rest, lo + 1, n);
        assert(lo <= picked[0] < n);
    }
}

/// Every way to pick `k` of the positions `lo..n` in rising order is listed:
/// the result is the place where it stands.
pub proof fn lemma_index_combinations_complete(picked: Seq<int>, lo: int, n: int) -> (at: int)
    requires
        lo <= n,
        is_rising(picked, lo, n),
    ensures
        0 <= at < index_combinations(lo, n, picked.len()).len(),
        index_combinations(lo, n, picked.len())[at] == picked,
    decreases n - lo,
{
    let k = picked.len();
    lemma_rising_fits(picked, lo, n);
    if k == 0 {
        assert(picked =~= Seq::<int>::empty());
        0
    } else {
        let tails = index_combinations(lo + 1, n, (k - 1) as nat);
        let with = prepend_each(lo, tails);
        let without = index_combinations(lo + 1, n, k);
        if picked[0] == lo {
            let rest = picked.drop_first();
            assert forall|i: int| 0 <= i < rest.len() implies lo + 1 <= #[trigger] rest[i]
                < n by {
                assert(rest[i] == picked[i + 1]);
                assert(picked[0] < picked[i + 1]);
            }
            assert forall|i: int, j: int| 0 <= i < j < rest.len() implies rest[i] < rest[j] by {
                assert(rest[i] == picked[i + 1]);
                assert(rest[j] == picked[j + 1]);
            }
            let at = lemma_index_combinations_complete(rest, lo + 1, n);
            assert(seq![lo] + rest =~= picked);
            assert(with[at] == picked);
            at
        } else {
            assert forall|i: int| 0 <= i < picked.len() implies lo + 1 <= #[trigger] picked[i]
                < n by {
                if i > 0 {
                    assert(picked[0] < picked[i]);
                }
            }
            let at = lemma_index_combinations_complete(picked, lo + 1, n);
            assert(index_combinations(lo, n, k)[with.len() + at] == without[at]);
            with.len() + at
        }
    }
}

/// The combinations of at most `k` items are the items at `picks_up_to`.
pub proof fn lemma_up_to_picks<T>(items: Seq<T>, k: nat)
    ensures
        picks_up_to(items.len(), k).len() == combinations_up_to(items, k).len(),
        forall|j: int|
            0 <= j < combinations_up_to(items, k).len() ==> #[trigger] combinations_up_to(
                items,
                k,
            )[j] == select(items, picks_up_to(items.len(), k)[j]),
    decreases k,
{
    if k > 0 {
        lemma_up_to_picks(items, (k - 1) as nat);
    }
}

/// The law of the enumeration. Of a list of `n` items, the combinations of at
/// most `k` are `binomial(n, 0) + ... + binomial(n, k)` many. Each is the
/// items at some positions of the list, at most `k` of them and in rising
/// order, so it is a subset that keeps the order of the list. No two of them
/// pick the same positions: no subset is listed twice.
pub proof fn lemma_enumeration_exact<T>(items: Seq<T>, k: nat)
    ensures
        combinations_up_to(items, k).len() == binomial_sum(items.len(), k),
        picks_up_to(items.len(), k).len() == combinations_up_to(items, k).len(),
        forall|j: int|
            0 <= j < combinations_up_to(items, k).len() ==> {
                &&& #[trigger] combinations_up_to(items, k)[j] == select(
                    items,
                    picks_up_to(items.len(), k)[j],
                )
                &&& picks_up_to(items.len(), k)[j].len() <= k
                &&& is_rising(picks_up_to(items.len(), k)[j], 0, items.len() as int)
            },
        forall|i: int, j: int|
            0 <= i < j < picks_up_to(items.len(), k).len() ==> picks_up_to(items.len(), k)[i]
                != picks_up_to(items.len(), k)[j],
    decreases k,
{
    let n = items.len();
    let sets = combinations_up_to(items, k);
    let picks = picks_up_to(n, k);
    let last = index_combinations(0, n as int, k);
    lemma_up_to_picks(items, k);
    lemma_index_combinations_count(0, n as int, k);
    lemma_index_combinations_rising(0, n as int, k);
    lemma_index_combinations_distinct(0, n as int, k);
    if k > 0 {
        let before = picks_up_to(n, (k - 1) as nat);
        lemma_enumeration_exact(items, (k - 1) as nat);
        lemma_up_to_picks(items, (k - 1) as nat);
        assert forall|j: int| 0 <= j < sets.len() implies {
            &&& picks[j].len() <= k
            &&& is_rising(picks[j], 0, n as int)
        } by {
            if j < before.len() {
                assert(picks[j] == before[j]);
                assert(combinations_up_to(items, (k - 1) as nat)[j] == select(items, before[j]));
            } else {
                assert(picks[j] == last[j - before.len()]);
            }
        }
        assert forall|i: int, j: int| 0 <= i < j < picks.len() implies picks[i] != picks[j] by {
            if j < before.len() {
                assert(picks[i] == before[i]);
                assert(picks[j] == before[j]);
            } else if i < before.len() {
                assert(picks[i] == before[i]);
                assert(combinations_up_to(items, (k - 1) as nat)[i] == select(items, before[i]));
                assert(picks[i].len() <= k - 1);
                assert(picks[j] == last[j - before.len()]);
                assert(picks[j].len() == k);
            } else {
                assert(picks[i] == last[i - before.len()]);
                assert(picks[j] == last[j - before.len()]);
            }
        }
    } else {
        assert forall|j: int| 0 <= j < sets.len() implies {
            &&& picks[j].len() <= k
            &&& is_rising(picks[j], 0, n as int)
        } by {
            assert(picks[j] == last[j]);
        }
    }
}

/// Every subset of at most `k` of `n` positions is listed: the result is the
/// place where it stands in `picks_up_to(n, k)`.
pub proof fn lemma_enumeration_complete(picked: Seq<int>, n: nat, k: nat) -> (at: int)
    requires
        is_rising(picked, 0, n as int),
        picked.len() <= k,
    ensures
        0 <= at < picks_up_to(n, k).len(),
        picks_up_to(n, k)[at] == picked,
    decreases k,
{
    if picked.len() == k {
        let at = lemma_index_combinations_complete(picked, 0, n as int);
        if k == 0 {
            at
        } else {
            picks_up_to(n, (k - 1) as nat).len() + at
        }
    } else {
        lemma_enumeration_complete(picked, n, (k - 1) as nat)
    }
}

/// Where no item occurs twice in the list, no combination occurs twice
/// either.
pub proof fn lemma_distinct_items_distinct_sets<T>(items: Seq<T>, k: nat)
    requires
        items.no_duplicates(),
    ensures
        combinations_up_to(items, k).no_duplicates(),
{
    let sets = combinations_up_to(items, k);
    let picks = picks_up_to(items.len(), k);
    lemma_enumeration_exact(items, k);
    assert forall|i: int, j: int| 0 <= i < sets.len() && 0 <= j < sets.len() && i != j implies sets[i]
        != sets[j] by {
        let p = picks[i];
        let q = picks[j];
        assert(sets[i] == select(items, p));
        assert(sets[j] == select(items, q));
        assert(is_rising(p, 0, items.len() as int));
        assert(is_rising(q, 0, items.len() as int));
        if sets[i] == sets[j] {
            assert(p.len() == q.len());
            assert forall|a: int| 0 <= a < p.len() implies p[a] == q[a] by {
                assert(select(items, p)[a] == items[p[a]]);
                assert(select(items, q)[a] == items[q[a]]);
            }
            assert(p =~= q);
            if i < j {
                assert(picks[i] != picks[j]);
            } else {
                assert(picks[j] != picks[i]);
            }
        }
    }
}

/// The empty combination, the baseline, is listed once, in the first place.
pub proof fn lemma_baseline_once<T>(items: Seq<T>, k: nat)
    ensures
        combinations_up_to(items, k).len() > 0,
        forall|j: int|
            0 <= j < combinations_up_to(items, k).len() ==> ((#[trigger] combinations_up_to(
                items,
                k,
            )[j]).len() == 0 <==> j == 0),
    decreases k,
{
    let sets = combinations_up_to(items, k);
    let picks = picks_up_to(items.len(), k);
    lemma_enumeration_exact(items, k);
    lemma_picks_start_empty(items.len(), k);
    assert forall|j: int| 0 <= j < sets.len() implies ((#[trigger] sets[j]).len() == 0 <==> j
        == 0) by {
        assert(sets[j] == select(items, picks[j]));
        assert(sets[0] == select(items, picks[0]));
        if j > 0 && sets[j].len() == 0 {
            assert(picks[j] =~= picks[0]);
        }
    }
}

/// The first of `picks_up_to` picks nothing.
proof fn lemma_picks_start_empty(n: nat, k: nat)
    ensures
        picks_up_to(n, k).len() > 0,
        picks_up_to(n, k)[0].len() == 0,
    decreases k,
{
    if k > 0 {
        lemma_picks_start_empty(n, (k - 1) as nat);
    }
}

/// The law of the curated list. Of `n` items it has the baseline, the `n`
/// single items and the pairs, and one set more where `n` is above two; the
/// baseline is listed once, in the first place; and where no item occurs
/// twice in the list, no set occurs twice either.
pub proof fn lemma_curated_exact<T>(items: Seq<T>)
    ensures
        curated_combinations(items).len() == binomial_sum(items.len(), 2) + if items.len() > 2 {
            1nat
        } else {
            0nat
        },
        forall|j: int|
            0 <= j < curated_combinations(items).len() ==> ((#[trigger] curated_combinations(
                items,
            )[j]).len() == 0 <==> j == 0),
        items.no_duplicates() ==> curated_combinations(items).no_duplicates(),
{
    let small = combinations_up_to(items, 2);
    let picks = picks_up_to(items.len(), 2);
    let curated = curated_combinations(items);
    lemma_enumeration_exact(items, 2);
    lemma_baseline_once(items, 2);
    assert forall|j: int| 0 <= j < small.len() implies (#[trigger] small[j]).len() <= 2 by {
        assert(small[j] == select(items, picks[j]));
    }
    assert forall|j: int| 0 <= j < curated.len() implies ((#[trigger] curated[j]).len() == 0 <==> j
        == 0) by {
        if j < small.len() {
            assert(curated[j] == small[j]);
        }
    }
    if items.no_duplicates() {
        lemma_distinct_items_distinct_sets(items, 2);
        assert forall|i: int, j: int|
            0 <= i < curated.len() && 0 <= j < curated.len() && i != j implies curated[i]
            != curated[j] by {
            if i < small.len() {
                assert(curated[i] == small[i]);
            }
            if j < small.len() {
                assert(curated[j] == small[j]);
            }
        }
    }
}

} // verus!
