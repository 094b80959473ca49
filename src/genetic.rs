//! The genetic operators: crossover, mutation, selection and reproduction.
use crate::geometry::Location;
use crate::random::{chance, random_in, shuffle_indices};
use crate::simulation::Simulation;
use crate::tour::{
    all_wf, is_permutation, lemma_covering_is_permutation, lemma_permutation_covers,
    lemma_permutations_same_multiset, lemma_same_multiset_permutation, same_order, slice_contains,
        tour_length, tour_wf, Tour,
};
use rand::rngs::ThreadRng;
use vstd::prelude::*;

verus! {

/// Number of routes in the mating pool.
pub const MATING_POOL_SIZE: usize = 7;

/// Denominator of the odds below.
pub const ODDS_BASE: u32 = 1000;

/// Odds of stopping at each step of a cascade of choices (larger crossover
/// slices, larger mutations).
pub const CASCADE_ODDS: u32 = 667;

/// Odds that a crossover splices the slice in early.
pub const EARLY_SPLICE_ODDS: u32 = 100;

/// Number of random draws for a route that the mating pool lacks.
pub const DIVERSITY_ATTEMPTS: usize = 10;

/// Appends `x[start..end]` to `child`.
fn append_slice(child: &mut Vec<usize>, x: &Vec<usize>, start: usize, end: usize)
    requires
        start <= end <= x.len(),
    ensures
        final(child)@ == old(child)@ + x@.subrange(start as int, end as int),
{
    let mut j: usize = start;
    while j < end
        invariant
            start <= j <= end <= x.len(),
            child@ == old(child)@ + x@.subrange(start as int, j as int),
        decreases end - j,
    {
        child.push(x[j]);
        assert(x@.subrange(start as int, j + 1) =~= x@.subrange(start as int, j as int).push(
            x@[j as int],
        ));
        j += 1;
    }
}

proof fn lemma_concat_no_duplicates(a: Seq<usize>, b: Seq<usize>)
    requires
        a.no_duplicates(),
        b.no_duplicates(),
        forall|i: int| 0 <= i < a.len() ==> !b.contains(#[trigger] a[i]),
    ensures
        (a + b).no_duplicates(),
{
    let c = a + b;
    assert forall|i: int, j: int| 0 <= i < c.len() && 0 <= j < c.len() && i != j implies c[i]
        != c[j] by {
        if i < a.len() && j >= a.len() {
            assert(b[j - a.len()] == c[j]);
        } else if j < a.len() && i >= a.len() {
            assert(b[i - a.len()] == c[i]);
        }
    }
}

/// Each route of `pool` has the order of a route of `population`.
#[verifier::opaque]
pub open spec fn drawn_from(pool: Seq<Tour>, population: Seq<Tour>) -> bool {
    forall|i: int| 0 <= i < pool.len() ==> holds(population, #[trigger] pool[i])
}

/// Whether `t` is one of the routes of `pool`.
pub open spec fn holds(pool: Seq<Tour>, t: Tour) -> bool {
    exists|i: int| 0 <= i < pool.len() && (#[trigger] pool[i]).order@ == t.order@
}

/// No two routes of `pool` have the same order.
pub open spec fn distinct_orders(pool: Seq<Tour>) -> bool {
    forall|i: int, j: int|
        0 <= i < j < pool.len() ==> (#[trigger] pool[i]).order@ != (#[trigger] pool[j]).order@
}

/// Every route of `population` has its order in `pool`.
#[verifier::opaque]
pub open spec fn holds_all(pool: Seq<Tour>, population: Seq<Tour>) -> bool {
    forall|j: int| 0 <= j < population.len() ==> holds(pool, #[trigger] population[j])
}

/// `t` has its order in `pool`, or `pool` is full and no route of it is
/// longer than `t`.
pub open spec fn covered(pool: Seq<Tour>, t: Tour) -> bool {
    holds(pool, t) || (pool.len() == MATING_POOL_SIZE && forall|m: int|
        0 <= m < pool.len() ==> (#[trigger] pool[m]).length <= t.length)
}

/// `t` has its order in the elite of `pool`, all but its last slot, or is
/// no shorter than the last route of the elite.
pub open spec fn elite_covers(pool: Seq<Tour>, t: Tour) -> bool {
    holds(pool.take(MATING_POOL_SIZE - 1), t) || pool[MATING_POOL_SIZE - 2].length <= t.length
}

/// The lengths of `pool` do not decrease below index `end`.
pub open spec fn sorted_below(pool: Seq<Tour>, end: int) -> bool {
    forall|i: int, j: int| 0 <= i <= j < end && j < pool.len()
        ==> (#[trigger] pool[i]).length <= (#[trigger] pool[j]).length
}

proof fn lemma_holds_all_kept(before: Seq<Tour>, after: Seq<Tour>, population: Seq<Tour>)
    requires
        holds_all(before, population),
        forall|u: Tour| holds(before, u) ==> holds(after, u),
    ensures
        holds_all(after, population),
{
    reveal(holds_all);
    assert forall|j: int| 0 <= j < population.len() implies holds(after, #[trigger] population[j]) by {
        assert(holds(before, population[j]));
    }
}

proof fn lemma_drawn_from_kept(before: Seq<Tour>, after: Seq<Tour>, population: Seq<Tour>, k: int)
    requires
        drawn_from(before, population),
        0 <= k < population.len(),
        forall|i: int| 0 <= i < after.len() ==> (#[trigger] after[i]).order@ == population[k].order@
            || exists|j: int| 0 <= j < before.len() && after[i] == before[j],
    ensures
        drawn_from(after, population),
{
    reveal(drawn_from);
    assert forall|i: int| 0 <= i < after.len() implies holds(population, #[trigger] after[i]) by {
        if after[i].order@ != population[k].order@ {
            let j = choose|j: int| 0 <= j < before.len() && after[i] == before[j];
            assert(holds(population, before[j]));
        } else {
            assert(population[k].order@ == after[i].order@);
        }
    }
}

/// Whether some route of `pool` has the order of `t`.
fn pool_holds(pool: &Vec<Tour>, t: &Tour) -> (r: bool)
    ensures
        r == holds(pool@, *t),
{
    let mut i: usize = 0;
    while i < pool.len()
        invariant
            i <= pool.len(),
            forall|k: int| 0 <= k < i ==> (#[trigger] pool@[k]).order@ != t.order@,
        decreases pool.len() - i,
    {
        if same_order(&pool[i].order, &t.order) {
            return true;
        }
        i += 1;
    }
    false
}

/// The first position of `pool` whose route is longer than `length`.
fn insertion_point(pool: &Vec<Tour>, length: u128) -> (p: usize)
    requires
        sorted_below(pool@, pool.len() as int),
    ensures
        p <= pool.len(),
        forall|i: int| 0 <= i < p ==> (#[trigger] pool@[i]).length <= length,
        forall|i: int| p <= i < pool.len() ==> length < (#[trigger] pool@[i]).length,
{
    let mut p: usize = 0;
    while p < pool.len() && pool[p].length <= length
        invariant
            p <= pool.len(),
            sorted_below(pool@, pool.len() as int),
            forall|i: int| 0 <= i < p ==> (#[trigger] pool@[i]).length <= length,
        decreases pool.len() - p,
    {
        p += 1;
    }
    p
}

/// Inserts a copy of `t` into the sorted `pool`, after the routes that are
/// not longer.
fn insert_sorted(pool: &mut Vec<Tour>, t: &Tour, Ghost(points): Ghost<Seq<Location>>)
    requires
        sorted_below(old(pool)@, old(pool).len() as int),
        tour_wf(*t, points),
        all_wf(old(pool)@, points),
    ensures
        final(pool).len() == old(pool).len() + 1,
        sorted_below(final(pool)@, final(pool).len() as int),
        all_wf(final(pool)@, points),
        holds(final(pool)@, *t),
        forall|u: Tour| holds(old(pool)@, u) ==> holds(final(pool)@, u),
        final(pool)@[0].length <= t.length,
        old(pool).len() > 0 ==> final(pool)@[0].length <= old(pool)@[0].length,
        forall|i: int| 0 <= i < final(pool).len() ==> (#[trigger] final(pool)@[i]).order@
            == t.order@
            || exists|j: int| 0 <= j < old(pool).len() && final(pool)@[i] == old(pool)@[j],
        distinct_orders(old(pool)@) && !holds(old(pool)@, *t) ==> distinct_orders(final(pool)@),
{
    let p = insertion_point(pool, t.length);
    let ghost before = pool@;
    pool.insert(p, t.duplicate());
    proof {
        assert(pool@[p as int].order@ == t.order@);
        assert forall|u: Tour| holds(before, u) implies holds(pool@, u) by {
            let i = choose|i: int| 0 <= i < before.len() && (#[trigger] before[i]).order@
                == u.order@;
            if i < p {
                assert(pool@[i] == before[i]);
            } else {
                assert(pool@[i + 1] == before[i]);
            }
        }
        assert forall|i: int| 0 <= i < pool.len() implies (#[trigger] pool@[i]).order@ == t.order@
            || exists|j: int| 0 <= j < before.len() && pool@[i] == before[j] by {
            if i < p {
                assert(pool@[i] == before[i]);
            } else if i > p {
                assert(pool@[i] == before[i - 1]);
            }
        }
        if distinct_orders(before) && !holds(before, *t) {
            assert forall|i: int, j: int| 0 <= i < j < pool.len() implies (#[trigger] pool@[i]).order@
                != (#[trigger] pool@[j]).order@ by {
                if i < p && j < p {
                    assert(pool@[i] == before[i] && pool@[j] == before[j]);
                } else if i < p && j == p {
                    assert(pool@[i] == before[i]);
                } else if i < p && j > p {
                    assert(pool@[i] == before[i] && pool@[j] == before[j - 1]);
                } else if i == p {
                    assert(pool@[j] == before[j - 1]);
                } else {
                    assert(pool@[i] == before[i - 1] && pool@[j] == before[j - 1]);
                }
            }
        }
    }
}

/// The indices `0, 1, ..., n - 1` in order.
pub fn identity_order(n: usize) -> (r: Vec<usize>)
    ensures
        is_permutation(r@, n as nat),
        forall|i: int| 0 <= i < n ==> r@[i] == i,
{
    let mut r: Vec<usize> = Vec::new();
    let mut i: usize = 0;
    while i < n
        invariant
            i <= n,
            r.len() == i,
            forall|k: int| 0 <= k < i ==> r@[k] == k,
        decreases n - i,
    {
        r.push(i);
        i += 1;
    }
    r
}

/// `s` without the indices that `sl` holds, in the order of `s`.
pub open spec fn without(s: Seq<usize>, sl: Seq<usize>) -> Seq<usize>
    decreases s.len(),
{
    if s.len() == 0 {
        s
    } else if sl.contains(s.last()) {
        without(s.drop_last(), sl)
    } else {
        without(s.drop_last(), sl).push(s.last())
    }
}

/// The order that puts `x[start..end]` as one piece at position `cut` of
/// `y`, the other indices keeping the order of `y`.
pub open spec fn spliced(x: Seq<usize>, y: Seq<usize>, start: int, end: int, cut: int) -> Seq<
    usize,
> {
    let sl = x.subrange(start, end);
    without(y.take(cut), sl) + sl + without(y.skip(cut), sl)
}

/// Where a crossover splices the slice `x[start..end]` into `y`: the first
/// position of `y` that holds a point of the slice and either is its first
/// point or wins a draw with `EARLY_SPLICE_ODDS`; the length of `y` if none.
fn splice_point(x: &Vec<usize>, y: &Vec<usize>, start: usize, end: usize, rng: &mut ThreadRng) -> (cut:
    usize)
    requires
        start < end <= x.len(),
    ensures
        cut <= y.len(),
        forall|k: int| 0 <= k < cut ==> y@[k] != x@[start as int],
        cut < y.len() ==> x@.subrange(start as int, end as int).contains(y@[cut as int]),
{
    let mut k: usize = 0;
    while k < y.len()
        invariant
            start < end <= x.len(),
            k <= y.len(),
            forall|j: int| 0 <= j < k ==> y@[j] != x@[start as int],
        decreases y.len() - k,
    {
        if slice_contains(x, start, end, y[k]) && (chance(rng, EARLY_SPLICE_ODDS, ODDS_BASE)
            || y[k] == x[start]) {
            return k;
        }
        proof {
            if y@[k as int] == x@[start as int] {
                assert(x@.subrange(start as int, end as int)[0] == x@[start as int]);
            }
        }
        k += 1;
    }
    k
}

/// The child of a crossover: `x[start..end]` spliced as one piece into `y`
/// at position `cut`, the other points in the order of `y`.
pub fn splice(x: &Vec<usize>, y: &Vec<usize>, start: usize, end: usize, cut: usize) -> (child: Vec<
    usize,
>)
    requires
        start < end <= x.len(),
        cut <= y.len(),
        is_permutation(x@, x.len() as nat),
        is_permutation(y@, x.len() as nat),
    ensures
        child@ == spliced(x@, y@, start as int, end as int, cut as int),
        is_permutation(child@, x.len() as nat),
{
    let n = x.len();
    let ghost sl = x@.subrange(start as int, end as int);
    let mut child: Vec<usize> = Vec::new();
    let mut k: usize = 0;
    while k < n
        invariant
            n == x.len() == y.len(),
            is_permutation(x@, n as nat),
            is_permutation(y@, n as nat),
            start < end <= n,
            cut <= n,
            sl == x@.subrange(start as int, end as int),
            k <= n,
            k <= cut ==> child@ == without(y@.take(k as int), sl),
            k > cut ==> child@ == without(y@.take(cut as int), sl) + sl + without(
                y@.subrange(cut as int, k as int),
                sl,
            ),
            child@.no_duplicates(),
            forall|i: int| 0 <= i < child.len() ==> (#[trigger] child@[i]) < n,
            forall|i: int| 0 <= i < child.len() && sl.contains(#[trigger] child@[i]) ==> k > cut,
            forall|i: int|
                0 <= i < child.len() && !sl.contains(#[trigger] child@[i]) ==> exists|j: int|
                    0 <= j < k && y@[j] == child@[i],
            k > cut ==> forall|j: int| 0 <= j < sl.len() ==> child@.contains(#[trigger] sl[j]),
            forall|j: int| 0 <= j < k && !sl.contains(#[trigger] y@[j]) ==> child@.contains(y@[j]),
        decreases n - k,
    {
        if k == cut {
            let ghost before = child@;
            append_slice(&mut child, x, start, end);
            proof {
                assert(sl.no_duplicates());
                lemma_concat_no_duplicates(before, sl);
                assert forall|j: int| 0 <= j < sl.len() implies child@.contains(#[trigger] sl[j]) by {
                    assert(child@[before.len() + j] == sl[j]);
                }
                assert forall|j: int| 0 <= j < k && !sl.contains(#[trigger] y@[j]) implies child@.contains(
                    y@[j],
                ) by {
                    let i = choose|i: int| 0 <= i < before.len() && before[i] == y@[j];
                    assert(child@[i] == y@[j]);
                }
                assert forall|i: int|
                    0 <= i < child.len() && !sl.contains(#[trigger] child@[i]) implies exists|j: int|
                    0 <= j < k && y@[j] == child@[i] by {
                    if i >= before.len() {
                        assert(child@[i] == sl[i - before.len()]);
                    } else {
                        assert(child@[i] == before[i]);
                    }
                }
                assert forall|i: int| 0 <= i < child.len() implies (#[trigger] child@[i]) < n by {
                    if i >= before.len() {
                        assert(child@[i] == x@[start + i - before.len()]);
                    } else {
                        assert(child@[i] == before[i]);
                    }
                }
                assert(y@.subrange(cut as int, k as int) =~= Seq::<usize>::empty());
                assert(without(Seq::<usize>::empty(), sl) =~= Seq::<usize>::empty());
                assert(child@ =~= without(y@.take(cut as int), sl) + sl + without(
                    y@.subrange(cut as int, k as int),
                    sl,
                ));
            }
        }
        let v = y[k];
        let ghost before = child@;
        let inside = slice_contains(x, start, end, v);
        if !inside {
            child.push(v);
            proof {
                assert forall|i: int| 0 <= i < before.len() implies before[i] != v by {
                    if !sl.contains(before[i]) {
                        let j = choose|j: int| 0 <= j < k && y@[j] == before[i];
                    }
                }
                assert forall|j: int| 0 <= j < k + 1 && !sl.contains(#[trigger] y@[j]) implies child@.contains(
                    y@[j],
                ) by {
                    if j < k {
                        let i = choose|i: int| 0 <= i < before.len() && before[i] == y@[j];
                        assert(child@[i] == y@[j]);
                    } else {
                        assert(child@[before.len() as int] == y@[j]);
                    }
                }
                if k >= cut {
                    assert forall|j: int| 0 <= j < sl.len() implies child@.contains(#[trigger] sl[j]) by {
                        let i = choose|i: int| 0 <= i < before.len() && before[i] == sl[j];
                        assert(child@[i] == sl[j]);
                    }
                }
            }
        }
        proof {
            if k < cut {
                assert(y@.take(k + 1).drop_last() =~= y@.take(k as int));
                assert(y@.take(k + 1).last() == v);
            } else {
                assert(y@.subrange(cut as int, k + 1).drop_last() =~= y@.subrange(cut as int, k as int));
                assert(y@.subrange(cut as int, k + 1).last() == v);
                assert(child@ =~= without(y@.take(cut as int), sl) + sl + without(
                    y@.subrange(cut as int, k + 1),
                    sl,
                ));
            }
        }
        k += 1;
    }
    if cut == n {
        let ghost before = child@;
        append_slice(&mut child, x, start, end);
        proof {
            assert(sl.no_duplicates());
            lemma_concat_no_duplicates(before, sl);
            assert forall|i: int| 0 <= i < child.len() implies (#[trigger] child@[i]) < n by {
                if i >= before.len() {
                    assert(child@[i] == x@[start + i - before.len()]);
                } else {
                    assert(child@[i] == before[i]);
                }
            }
            assert forall|j: int| 0 <= j < sl.len() implies child@.contains(#[trigger] sl[j]) by {
                assert(child@[before.len() + j] == sl[j]);
            }
            assert forall|j: int| 0 <= j < n && !sl.contains(#[trigger] y@[j]) implies child@.contains(
                y@[j],
            ) by {
                let i = choose|i: int| 0 <= i < before.len() && before[i] == y@[j];
                assert(child@[i] == y@[j]);
            }
            assert(y@.skip(n as int) =~= Seq::<usize>::empty());
            assert(y@.take(n as int) =~= y@);
        }
    } else {
        proof {
            assert(y@.subrange(cut as int, n as int) =~= y@.skip(cut as int));
        }
    }
    proof {
        assert(y@.take(n as int) =~= y@);
        assert forall|v: usize| v < n implies child@.contains(v) by {
            lemma_permutation_covers(y@, n, v);
            let j = choose|j: int| 0 <= j < n && y@[j] == v;
            if sl.contains(v) {
                let i = choose|i: int| 0 <= i < sl.len() && sl[i] == v;
            } else {
                assert(!sl.contains(y@[j]));
            }
        }
        lemma_covering_is_permutation(child@, n);
    }
    child
}

/// `(route_length + 1) / divisor`, and at least `least`.
pub open spec fn swaps_for(route_length: int, divisor: int, least: int) -> int {
    if (route_length + 1) / divisor >= least {
        (route_length + 1) / divisor
    } else {
        least
    }
}

/// The numbers of swaps that a mutation of a route of `route_length` points
/// makes: one (most often), small, medium or big.
pub open spec fn is_mutation_size(route_length: int, count: int) -> bool {
    count == 1 || count == swaps_for(route_length, 6, 1) || count == swaps_for(route_length, 4, 2)
        || count == swaps_for(route_length, 2, 3)
}

/// `s` with the indices at positions `i` and `j` exchanged.
pub open spec fn swap_at(s: Seq<usize>, i: int, j: int) -> Seq<usize> {
    s.update(i, s[j]).update(j, s[i])
}

/// `s` after exchanging, in turn, the two positions of each pair of `pairs`.
pub open spec fn swapped(s: Seq<usize>, pairs: Seq<(usize, usize)>) -> Seq<usize>
    decreases pairs.len(),
{
    if pairs.len() == 0 {
        s
    } else {
        swap_at(swapped(s, pairs.drop_last()), pairs.last().0 as int, pairs.last().1 as int)
    }
}

/// `new` is `old` after `count` swaps, for a count that a mutation of a route
/// of `route_length` points makes.
pub open spec fn mutated_from(new: Seq<usize>, old: Seq<usize>, route_length: int) -> bool {
    exists|pairs: Seq<(usize, usize)>|
        is_mutation_size(route_length, pairs.len() as int) && new == swapped(old, pairs)
}

/// Exchanges, in turn, the two positions of each pair of `pairs` in `order`.
pub fn apply_swaps(order: &mut Vec<usize>, pairs: &Vec<(usize, usize)>)
    requires
        forall|k: int| 0 <= k < pairs.len() ==> (#[trigger] pairs@[k]).0 < old(order).len()
            && pairs@[k].1 < old(order).len(),
    ensures
        final(order)@ == swapped(old(order)@, pairs@),
        forall|n: nat| is_permutation(old(order)@, n) ==> is_permutation(final(order)@, n),
{
    let ghost start = order@;
    let mut k: usize = 0;
    while k < pairs.len()
        invariant
            k <= pairs.len(),
            order.len() == start.len(),
            forall|m: int| 0 <= m < pairs.len() ==> (#[trigger] pairs@[m]).0 < start.len()
                && pairs@[m].1 < start.len(),
            order@ == swapped(start, pairs@.take(k as int)),
            forall|n: nat| is_permutation(start, n) ==> is_permutation(order@, n),
        decreases pairs.len() - k,
    {
        let (i1, i2) = pairs[k];
        let ghost s = order@;
        let a = order[i1];
        let b = order[i2];
        order.set(i1, b);
        order.set(i2, a);
        proof {
            assert(pairs@.take(k + 1).drop_last() =~= pairs@.take(k as int));
            assert(order@ =~= swap_at(s, i1 as int, i2 as int));
            let t = order@;
            assert forall|n: nat| is_permutation(start, n) implies is_permutation(t, n) by {
                assert forall|i: int, j: int|
                    0 <= i < t.len() && 0 <= j < t.len() && i != j implies t[i] != t[j] by {
                    let si = if i == i2 { i1 as int } else if i == i1 { i2 as int } else { i };
                    let sj = if j == i2 { i1 as int } else if j == i1 { i2 as int } else { j };
                    assert(t[i] == s[si] && t[j] == s[sj]);
                }
                assert forall|i: int| 0 <= i < t.len() implies (#[trigger] t[i]) < n by {
                    let si = if i == i2 { i1 as int } else if i == i1 { i2 as int } else { i };
                    assert(t[i] == s[si]);
                }
            }
        }
        k += 1;
    }
    assert(pairs@.take(pairs.len() as int) =~= pairs@);
}

/// The number of swaps of a mutation on a route of `route_length` points:
/// `(route_length + 1) / divisor`, and at least `least`.
fn swap_count(route_length: usize, divisor: usize, least: usize) -> (r: usize)
    requires
        divisor >= 2,
    ensures
        r == swaps_for(route_length as int, divisor as int, least as int),
{
    let n: u128 = route_length as u128 + 1;
    assert(n / (divisor as u128) <= n / 2) by (nonlinear_arith)
        requires divisor >= 2, n >= 0;
    let q = (n / (divisor as u128)) as usize;
    if q >= least {
        q
    } else {
        least
    }
}

/// The shortest distinct routes of `population`, at most
/// `MATING_POOL_SIZE` of them, in ascending length.
fn elite_of(population: &Vec<Tour>, Ghost(points): Ghost<Seq<Location>>) -> (pool: Vec<Tour>)
    requires
        population.len() > MATING_POOL_SIZE,
        all_wf(population@, points),
    ensures
        0 < pool.len() <= MATING_POOL_SIZE,
        sorted_below(pool@, pool.len() as int),
        all_wf(pool@, points),
        forall|i: int| 0 <= i < population.len() ==> pool@[0].length <= (#[trigger] population@[i]).length,
        drawn_from(pool@, population@),
        distinct_orders(pool@),
        forall|j: int| 0 <= j < population.len() ==> covered(pool@, #[trigger] population@[j]),
{
    let mut pool: Vec<Tour> = Vec::new();
    proof {
        reveal(drawn_from);
    }
    let mut k: usize = 0;
    while k < population.len()
        invariant
            k <= population.len(),
            pool.len() <= MATING_POOL_SIZE,
            k > 0 ==> pool.len() > 0,
            sorted_below(pool@, pool.len() as int),
            all_wf(pool@, points),
            all_wf(population@, points),
            forall|i: int| 0 <= i < k ==> pool@[0].length <= (#[trigger] population@[i]).length,
            drawn_from(pool@, population@),
            distinct_orders(pool@),
            forall|j: int| 0 <= j < k ==> covered(pool@, #[trigger] population@[j]),
        decreases population.len() - k,
    {
        let route = &population[k];
        if !pool_holds(&pool, route)
            && (pool.len() < MATING_POOL_SIZE || route.length < pool[pool.len() - 1].length)
        {
            let ghost before = pool@;
            insert_sorted(&mut pool, route, Ghost(points));
            let ghost inserted = pool@;
            if pool.len() > MATING_POOL_SIZE {
                pool.pop();
            }
            proof {
                assert forall|i: int, j: int| 0 <= i < j < pool.len() implies (#[trigger] pool@[i]).order@
                    != (#[trigger] pool@[j]).order@ by {
                    assert(pool@[i] == inserted[i] && pool@[j] == inserted[j]);
                }
                assert forall|j: int| 0 <= j < k + 1 implies covered(pool@, #[trigger] population@[j]) by {
                    let t = population@[j];
                    if j < k && !holds(before, t) {
                        assert(covered(before, t));
                        assert forall|m: int| 0 <= m < pool.len() implies (#[trigger] pool@[m]).length
                            <= t.length by {
                            assert(pool@[m] == inserted[m]);
                            if inserted[m].order@ != route.order@ {
                                let i = choose|i: int| 0 <= i < before.len() && inserted[m] == before[i];
                                assert(before[i].length <= t.length);
                            }
                        }
                    } else {
                        assert(holds(inserted, t));
                        let i = choose|i: int| 0 <= i < inserted.len() && (#[trigger] inserted[i]).order@
                            == t.order@;
                        if i < pool.len() {
                            assert(pool@[i] == inserted[i]);
                        } else {
                            assert(inserted[i].length == t.length);
                            assert forall|m: int| 0 <= m < pool.len() implies (#[trigger] pool@[m]).length
                                <= t.length by {
                                assert(pool@[m] == inserted[m]);
                            }
                        }
                    }
                }
                reveal(drawn_from);
                assert forall|i: int| 0 <= i < pool.len()
                    implies holds(population@, #[trigger] pool@[i]) by {
                    if pool@[i].order@ != route.order@ {
                        let j = choose|j: int| 0 <= j < before.len() && pool@[i] == before[j];
                        assert(before[j] == pool@[i]);
                    }
                }
            }
        } else {
            proof {
                if holds(pool@, *route) {
                    let i = choose|i: int| 0 <= i < pool.len()
                        && (#[trigger] pool@[i]).order@ == route.order@;
                    assert(pool@[i].length == route.length);
                } else {
                    assert forall|m: int| 0 <= m < pool.len() implies (#[trigger] pool@[m]).length
                        <= route.length by {
                        assert(pool@[m].length <= pool@[pool.len() - 1].length);
                    }
                }
                assert(covered(pool@, population@[k as int]));
            }
        }
        k += 1;
    }
    pool
}

/// Fills `pool` up to `MATING_POOL_SIZE` routes, in ascending length, with
/// further routes of `population` where it has too few.
fn fill_pool(pool: &mut Vec<Tour>, population: &Vec<Tour>, Ghost(points): Ghost<Seq<Location>>)
    requires
        population.len() > MATING_POOL_SIZE,
        all_wf(population@, points),
        0 < old(pool).len() <= MATING_POOL_SIZE,
        sorted_below(old(pool)@, old(pool).len() as int),
        all_wf(old(pool)@, points),
        forall|i: int| 0 <= i < population.len() ==> old(pool)@[0].length <= (#[trigger] population@[i]).length,
        drawn_from(old(pool)@, population@),
        distinct_orders(old(pool)@),
        forall|j: int| 0 <= j < population.len() ==> covered(old(pool)@, #[trigger] population@[j]),
    ensures
        final(pool).len() == MATING_POOL_SIZE,
        sorted_below(final(pool)@, MATING_POOL_SIZE as int),
        all_wf(final(pool)@, points),
        forall|i: int| 0 <= i < population.len() ==> final(pool)@[0].length <= (#[trigger] population@[i]).length,
        drawn_from(final(pool)@, population@),
        holds_all(final(pool)@, population@) || distinct_orders(final(pool)@),
        forall|j: int| 0 <= j < population.len() ==> elite_covers(final(pool)@, #[trigger] population@[j]),
{
    let mut k: usize;
    proof {
        reveal(holds_all);
        if pool.len() < MATING_POOL_SIZE {
            assert forall|j: int| 0 <= j < population.len() implies holds(pool@, #[trigger] population@[j]) by {
                assert(covered(pool@, population@[j]));
            }
        }
    }
    k = 0;
    while pool.len() < MATING_POOL_SIZE
        invariant
            k <= pool.len() <= MATING_POOL_SIZE,
            population.len() > MATING_POOL_SIZE,
            pool.len() > 0,
            sorted_below(pool@, pool.len() as int),
            all_wf(pool@, points),
            all_wf(population@, points),
            forall|i: int| 0 <= i < population.len()
                ==> pool@[0].length <= (#[trigger] population@[i]).length,
            drawn_from(pool@, population@),
            holds_all(pool@, population@) || (pool.len() == MATING_POOL_SIZE && distinct_orders(
                pool@,
            )),
            forall|j: int| 0 <= j < population.len() ==> covered(pool@, #[trigger] population@[j]),
        decreases MATING_POOL_SIZE - pool.len(),
    {
        let ghost before = pool@;
        insert_sorted(pool, &population[k], Ghost(points));
        proof {
            if holds_all(before, population@) {
                lemma_holds_all_kept(before, pool@, population@);
            }
            reveal(holds_all);
            assert forall|j: int| 0 <= j < population.len() implies covered(pool@, #[trigger] population@[j]) by {
                assert(holds(pool@, population@[j]));
            }
            lemma_drawn_from_kept(before, pool@, population@, k as int);
        }
        k += 1;
    }
    proof {
        assert forall|j: int| 0 <= j < population.len() implies elite_covers(pool@, #[trigger] population@[j]) by {
            let t = population@[j];
            assert(covered(pool@, t));
            if holds(pool@, t) {
                let i = choose|i: int| 0 <= i < pool.len() && (#[trigger] pool@[i]).order@ == t.order@;
                if i < MATING_POOL_SIZE - 1 {
                    assert(pool@.take(MATING_POOL_SIZE - 1)[i] == pool@[i]);
                } else {
                    assert(pool@[i].length == t.length);
                    assert(pool@[MATING_POOL_SIZE - 2].length <= pool@[i].length);
                }
            } else {
                assert(pool@[MATING_POOL_SIZE - 2].length <= t.length);
            }
        }
    }
}

/// Whether `draws[m]` is the first draw whose route of `population` the
/// pool lacks.
pub open spec fn first_missing(pool: Seq<Tour>, population: Seq<Tour>, draws: Seq<usize>, m: int) -> bool {
    &&& 0 <= m < draws.len()
    &&& !holds(pool, population[draws[m] as int])
    &&& forall|i: int| 0 <= i < m ==> holds(pool, #[trigger] population[draws[i] as int])
}

/// `child` is a crossover of two distinct routes of `pool`: a slice of
/// one spliced into the order of the other.
pub open spec fn child_of(child: Seq<usize>, pool: Seq<Tour>) -> bool {
    exists|a: int, b: int, start: int, end: int, cut: int|
        0 <= a < pool.len() && 0 <= b < pool.len() && a != b && 0 <= start < end <= pool[a].order.len()
            && 0 <= cut <= pool[b].order.len() && (forall|j: int|
            0 <= j < cut ==> pool[b].order@[j] != pool[a].order@[start]) && child == #[trigger] spliced(
            pool[a].order@,
            pool[b].order@,
            start,
            end,
            cut,
        )
}

/// The number of mutated copies of the best two routes that start a
/// generation of `population_size` routes.
pub open spec fn seed_count(population_size: int) -> int {
    if population_size / 5 < population_size - MATING_POOL_SIZE {
        population_size / 5
    } else {
        population_size - MATING_POOL_SIZE
    }
}

/// `new` is `old`, or a mutation of it.
pub open spec fn reshaped(new: Seq<usize>, old: Seq<usize>, route_length: int) -> bool {
    new == old || mutated_from(new, old, route_length)
}

/// `new` comes from `old` by at most two mutations.
pub open spec fn twice_reshaped(new: Seq<usize>, old: Seq<usize>, route_length: int) -> bool {
    exists|mid: Seq<usize>| #[trigger] reshaped(mid, old, route_length) && reshaped(new, mid, route_length)
}

/// `new` is a crossover of two routes of `pool`, or a mutation of one.
pub open spec fn reshaped_child(new: Seq<usize>, pool: Seq<Tour>, route_length: int) -> bool {
    exists|c: Seq<usize>| #[trigger] child_of(c, pool) && reshaped(new, c, route_length)
}

/// Gives the last slot of `pool` to the route of `population` at the first
/// of `draws` whose route the pool lacks; leaves the pool as it is where it
/// has every drawn route.
pub fn diversify(
    pool: &mut Vec<Tour>,
    population: &Vec<Tour>,
    draws: &Vec<usize>,
    points: &Vec<Location>,
)
    requires
        old(pool).len() == MATING_POOL_SIZE,
        population.len() > MATING_POOL_SIZE,
        forall|i: int| 0 <= i < draws.len() ==> (#[trigger] draws@[i]) < population.len(),
        sorted_below(old(pool)@, MATING_POOL_SIZE as int),
        all_wf(old(pool)@, points@),
        all_wf(population@, points@),
        forall|i: int| 0 <= i < population.len() ==> old(pool)@[0].length <= (#[trigger] population@[i]).length,
        drawn_from(old(pool)@, population@),
        holds_all(old(pool)@, population@) || distinct_orders(old(pool)@),
        forall|j: int| 0 <= j < population.len() ==> elite_covers(old(pool)@, #[trigger] population@[j]),
    ensures
        final(pool).len() == MATING_POOL_SIZE,
        forall|i: int| 0 <= i < MATING_POOL_SIZE - 1 ==> #[trigger] final(pool)@[i] == old(pool)@[i],
        (forall|i: int| 0 <= i < draws.len() ==> holds(old(pool)@, #[trigger] population@[draws@[i] as int]))
            ==> final(pool)@ == old(pool)@,
        forall|m: int| #[trigger] first_missing(old(pool)@, population@, draws@, m) ==> final(pool)@[MATING_POOL_SIZE - 1].order@
            == population@[draws@[m] as int].order@ && final(pool)@[MATING_POOL_SIZE - 1].length
            == population@[draws@[m] as int].length,
        sorted_below(final(pool)@, MATING_POOL_SIZE - 1),
        all_wf(final(pool)@, points@),
        forall|i: int| 0 <= i < population.len() ==> final(pool)@[0].length <= (#[trigger] population@[i]).length,
        drawn_from(final(pool)@, population@),
        distinct_orders(final(pool)@) || holds_all(final(pool)@, population@),
        forall|j: int| 0 <= j < population.len() ==> elite_covers(final(pool)@, #[trigger] population@[j]),
{
    let mut attempts: usize = 0;
    while attempts < draws.len()
        invariant
            pool@ == old(pool)@,
            pool.len() == MATING_POOL_SIZE,
            population.len() > MATING_POOL_SIZE,
            sorted_below(pool@, MATING_POOL_SIZE as int),
            all_wf(pool@, points@),
            all_wf(population@, points@),
            forall|i: int| 0 <= i < population.len() ==> pool@[0].length <= (#[trigger] population@[i]).length,
            drawn_from(pool@, population@),
            holds_all(pool@, population@) || distinct_orders(pool@),
            forall|j: int| 0 <= j < population.len() ==> elite_covers(pool@, #[trigger] population@[j]),
            attempts <= draws.len(),
            forall|i: int| 0 <= i < draws.len() ==> (#[trigger] draws@[i]) < population.len(),
            forall|i: int| 0 <= i < attempts ==> holds(pool@, #[trigger] population@[draws@[i] as int]),
        decreases draws.len() - attempts,
    {
        let j = draws[attempts];
        if !pool_holds(pool, &population[j]) {
            let ghost before = pool@;
            pool.set(MATING_POOL_SIZE - 1, population[j].duplicate());
            proof {
                assert forall|m: int| #[trigger] first_missing(before, population@, draws@, m) implies m
                    == attempts by {
                    if m < attempts {
                        assert(holds(before, population@[draws@[m] as int]));
                    } else if m > attempts {
                        assert(holds(before, population@[draws@[attempts as int] as int]));
                    }
                }
                assert(pool@.take(MATING_POOL_SIZE - 1) =~= before.take(MATING_POOL_SIZE - 1));
                assert(pool@[MATING_POOL_SIZE - 2] == before[MATING_POOL_SIZE - 2]);
                assert forall|m: int| 0 <= m < population.len() implies elite_covers(pool@, #[trigger] population@[m]) by {
                    assert(elite_covers(before, population@[m]));
                }
                reveal(holds_all);
                assert(!holds_all(before, population@));
                assert forall|a: int, b: int| 0 <= a < b < pool.len() implies (#[trigger] pool@[a]).order@
                    != (#[trigger] pool@[b]).order@ by {
                    assert(pool@[a] == before[a]);
                    if b != MATING_POOL_SIZE - 1 {
                        assert(pool@[b] == before[b]);
                    }
                }
                reveal(drawn_from);
                assert forall|i: int| 0 <= i < pool.len()
                    implies holds(population@, #[trigger] pool@[i]) by {
                    if i != MATING_POOL_SIZE - 1 {
                        assert(pool@[i] == before[i]);
                    } else {
                        assert(pool@[i].order@ == population@[j as int].order@);
                    }
                }
            }
            return;
        }
        attempts += 1;
    }
    proof {
        assert forall|m: int| #[trigger] first_missing(pool@, population@, draws@, m) implies false by {
            assert(holds(pool@, population@[draws@[m] as int]));
        }
    }
}

impl Simulation {
    /// Crossover of two parents: a slice of `parent_x`, of one to about half
    /// the points, is spliced as one piece into the order that `parent_y`
    /// gives the other points: where `parent_y` holds the first point of the
    /// slice, or with small odds at an earlier point of the slice.
    pub fn mate(
        parent_x: &Tour,
        parent_y: &Tour,
        points: &Vec<Location>,
        rng: &mut ThreadRng,
    ) -> (child: Tour)
        requires
            points.len() >= 3,
            tour_wf(*parent_x, points@),
            tour_wf(*parent_y, points@),
        ensures
            tour_wf(child, points@),
            child.order@.to_multiset() == parent_x.order@.to_multiset(),
            exists|start: int, end: int, cut: int|
                0 <= start < end <= points.len() && 0 <= cut <= points.len()
                    && (forall|k: int| 0 <= k < cut ==> parent_y.order@[k] != parent_x.order@[start])
                    && child.order@ == spliced(parent_x.order@, parent_y.order@, start, end, cut),
    {
        let n = points.len();
        let adjust: usize = if n <= 4 {
            2
        } else if n <= 10 {
            if chance(rng, CASCADE_ODDS, ODDS_BASE) {
                3
            } else {
                2
            }
        } else if chance(rng, CASCADE_ODDS, ODDS_BASE) {
            4
        } else if chance(rng, CASCADE_ODDS, ODDS_BASE) {
            3
        } else {
            2
        };
        let start = random_in(rng, 0, n - adjust);
        let span = random_in(rng, adjust, n / 2 + adjust);
        let end: usize = if span >= n - start {
            n
        } else {
            start + span
        };
        let cut = splice_point(&parent_x.order, &parent_y.order, start, end, rng);
        let order = splice(&parent_x.order, &parent_y.order, start, end, cut);
        let c = Tour::new(points, order);
        proof {
            lemma_permutations_same_multiset(c.order@, parent_x.order@, n);
        }
        c
    }

    /// Swaps `n` times two positions of `route`, drawn at random; the
    /// length is left for the caller to compute again.
    pub fn swap_genes(n: usize, route: &mut Tour, route_length: usize, rng: &mut ThreadRng)
        requires
            route_length > 0,
            old(route).order.len() == route_length,
        ensures
            exists|pairs: Seq<(usize, usize)>|
                pairs.len() == n && final(route).order@ == swapped(old(route).order@, pairs),
            forall|m: nat| is_permutation(old(route).order@, m) ==> is_permutation(
                final(route).order@,
                m,
            ),
            final(route).length == old(route).length,
    {
        let mut pairs: Vec<(usize, usize)> = Vec::new();
        while pairs.len() < n
            invariant
                route_length > 0,
                pairs.len() <= n,
                forall|k: int| 0 <= k < pairs.len() ==> (#[trigger] pairs@[k]).0 < route_length
                    && pairs@[k].1 < route_length,
            decreases n - pairs.len(),
        {
            let i1 = random_in(rng, 0, route_length);
            let i2 = random_in(rng, 0, route_length);
            pairs.push((i1, i2));
        }
        apply_swaps(&mut route.order, &pairs);
    }

    /// Mutates each route of `population` longer than `threshold`: a
    /// cascade of draws picks one, a few, more or many swaps, most often
    /// one; the length is computed again after.
    pub fn mutate(
        population: &mut Vec<Tour>,
        threshold: u128,
        points: &Vec<Location>,
        rng: &mut ThreadRng,
    )
        requires
            points.len() > 0,
            all_wf(old(population)@, points@),
        ensures
            final(population).len() == old(population).len(),
            all_wf(final(population)@, points@),
            forall|i: int| 0 <= i < final(population).len()
                && old(population)[i].length <= threshold
                ==> #[trigger] final(population)[i] == old(population)[i],
            forall|i: int| 0 <= i < final(population).len()
                && old(population)[i].length > threshold
                ==> mutated_from(#[trigger] final(population)@[i].order@, old(population)@[i].order@,
                    points.len() as int),
    {
        let route_length = points.len();
        let single_mutation_swaps: usize = 1;
        let small_mutation_swaps = swap_count(route_length, 6, 1);
        let medium_mutation_swaps = swap_count(route_length, 4, 2);
        let big_mutation_swaps = swap_count(route_length, 2, 3);
        let mut k: usize = 0;
        while k < population.len()
            invariant
                route_length == points.len() > 0,
                population.len() == old(population).len(),
                all_wf(population@, points@),
                forall|i: int| k <= i < population.len() ==> #[trigger] population[i]
                    == old(population)[i],
                forall|i: int| 0 <= i < k && old(population)[i].length <= threshold
                    ==> #[trigger] population[i] == old(population)[i],
                forall|i: int| 0 <= i < k && old(population)[i].length > threshold
                    ==> mutated_from(#[trigger] population@[i].order@, old(population)@[i].order@,
                    route_length as int),
                single_mutation_swaps == 1,
                small_mutation_swaps == swaps_for(route_length as int, 6, 1),
                medium_mutation_swaps == swaps_for(route_length as int, 4, 2),
                big_mutation_swaps == swaps_for(route_length as int, 2, 3),
            decreases population.len() - k,
        {
            if population[k].length > threshold {
                let mut route = population[k].duplicate();
                let swaps: usize = if chance(rng, CASCADE_ODDS, ODDS_BASE) {
                    single_mutation_swaps
                } else if chance(rng, CASCADE_ODDS, ODDS_BASE) {
                    small_mutation_swaps
                } else if chance(rng, CASCADE_ODDS, ODDS_BASE) {
                    medium_mutation_swaps
                } else {
                    big_mutation_swaps
                };
                let ghost old_order = route.order@;
                Simulation::swap_genes(swaps, &mut route, route_length, rng);
                route.length = tour_length(points, &route.order);
                proof {
                    let pairs = choose|pairs: Seq<(usize, usize)>|
                        pairs.len() == swaps && route.order@ == swapped(old_order, pairs);
                    assert(is_mutation_size(route_length as int, pairs.len() as int));
                    assert(mutated_from(route.order@, old(population)@[k as int].order@, route_length as int));
                }
                let ghost prev = population@;
                population.set(k, route);
                proof {
                    assert forall|i: int| 0 <= i < k + 1 && old(population)[i].length > threshold
                        implies mutated_from(#[trigger] population@[i].order@, old(population)@[i].order@,
                        route_length as int) by {
                        if i < k {
                            assert(population@[i] == prev[i]);
                        }
                    }
                }
            }
            k += 1;
        }
    }

    /// The mating pool of `population`: its shortest distinct routes in
    /// ascending length, filled up with further routes where it has too few
    /// distinct ones; then the last slot is given, where a few random draws
    /// find one, to a route of the population that the pool lacks.
    pub fn select_mating_pool(
        population: &Vec<Tour>,
        points: &Vec<Location>,
        rng: &mut ThreadRng,
    ) -> (pool: Vec<Tour>)
        requires
            population.len() > MATING_POOL_SIZE,
            all_wf(population@, points@),
        ensures
            pool.len() == MATING_POOL_SIZE,
            all_wf(pool@, points@),
            sorted_below(pool@, MATING_POOL_SIZE - 1),
            forall|i: int| 0 <= i < population.len()
                ==> pool@[0].length <= (#[trigger] population@[i]).length,
            drawn_from(pool@, population@),
            distinct_orders(pool@) || holds_all(pool@, population@),
            forall|j: int| 0 <= j < population.len() ==> elite_covers(pool@, #[trigger] population@[j]),
    {
        let mut pool = elite_of(population, Ghost(points@));
        fill_pool(&mut pool, population, Ghost(points@));
        let mut draws: Vec<usize> = Vec::new();
        while draws.len() < DIVERSITY_ATTEMPTS
            invariant
                population.len() > MATING_POOL_SIZE,
                draws.len() <= DIVERSITY_ATTEMPTS,
                forall|i: int| 0 <= i < draws.len() ==> (#[trigger] draws@[i]) < population.len(),
            decreases DIVERSITY_ATTEMPTS - draws.len(),
        {
            draws.push(random_in(rng, 0, population.len()));
        }
        diversify(&mut pool, population, &draws, points);
        pool
    }

    /// Appends children to `population` until it holds `children_count`
    /// routes. Parents are neighbours in an order of the mating pool that is
    /// shuffled again each time it has been walked through.
    pub fn crossover(
        population: &mut Vec<Tour>,
        mating_pool: &Vec<Tour>,
        children_count: usize,
        points: &Vec<Location>,
        rng: &mut ThreadRng,
    )
        requires
            points.len() >= 3,
            mating_pool.len() == MATING_POOL_SIZE,
            all_wf(mating_pool@, points@),
            all_wf(old(population)@, points@),
            old(population).len() <= children_count,
        ensures
            final(population).len() == children_count,
            all_wf(final(population)@, points@),
            forall|i: int| 0 <= i < old(population).len() ==> #[trigger] final(population)@[i]
                == old(population)@[i],
            forall|i: int| old(population).len() <= i < final(population).len() ==> child_of(
                #[trigger] final(population)@[i].order@,
                mating_pool@,
            ),
    {
        let mut pairing = identity_order(MATING_POOL_SIZE);
        let mut k: usize = 0;
        while population.len() < children_count
            invariant
                points.len() >= 3,
                mating_pool.len() == MATING_POOL_SIZE,
                all_wf(mating_pool@, points@),
                all_wf(population@, points@),
                forall|i: int| 0 <= i < old(population).len() ==> #[trigger] population@[i]
                    == old(population)@[i],
                old(population).len() <= population.len() <= children_count,
                is_permutation(pairing@, MATING_POOL_SIZE as nat),
                k < MATING_POOL_SIZE,
                forall|i: int| old(population).len() <= i < population.len() ==> child_of(
                    #[trigger] population@[i].order@,
                    mating_pool@,
                ),
            decreases children_count - population.len(),
        {
            if k + 1 >= pairing.len() {
                let ghost before = pairing@;
                shuffle_indices(&mut pairing, rng);
                proof {
                    lemma_same_multiset_permutation(before, pairing@, MATING_POOL_SIZE);
                }
                k = 0;
            }
            let child = Simulation::mate(
                &mating_pool[pairing[k]],
                &mating_pool[pairing[k + 1]],
                points,
                rng,
            );
            proof {
                let a = pairing@[k as int] as int;
                let b = pairing@[k + 1] as int;
                let (st, en, cu) = choose|st: int, en: int, cu: int|
                    0 <= st < en <= points.len() && 0 <= cu <= points.len() && (forall|j: int|
                        0 <= j < cu ==> mating_pool@[b].order@[j] != mating_pool@[a].order@[st])
                        && child.order@ == spliced(mating_pool@[a].order@, mating_pool@[b].order@, st, en, cu);
                assert(child_of(child.order@, mating_pool@));
            }
            let ghost prev = population@;
            population.push(child);
            proof {
                assert forall|i: int| old(population).len() <= i < population.len() implies child_of(
                    #[trigger] population@[i].order@,
                    mating_pool@,
                ) by {
                    if i < prev.len() {
                        assert(population@[i] == prev[i]);
                    }
                }
            }
            k += 1;
        }
    }

    /// The next generation from `mating_pool`: lightly mutated copies of
    /// its two best routes, children of its routes (mutated where longer
    /// than its last route), then the pool itself, unchanged.
    pub fn next_generation(&self, mating_pool: &Vec<Tour>, rng: &mut ThreadRng) -> (population:
        Vec<Tour>)
        requires
            self.locations.len() >= 3,
            self.population_size > MATING_POOL_SIZE,
            mating_pool.len() == MATING_POOL_SIZE,
            all_wf(mating_pool@, self.locations@),
        ensures
            population.len() == self.population_size,
            all_wf(population@, self.locations@),
            forall|i: int| 0 <= i < MATING_POOL_SIZE
                ==> (#[trigger] population@[self.population_size - MATING_POOL_SIZE + i]).order@
                == mating_pool@[i].order@
                    && population@[self.population_size - MATING_POOL_SIZE + i].length
                        == mating_pool@[i].length,
            forall|i: int| 0 <= i < seed_count(self.population_size as int) ==> twice_reshaped(
                #[trigger] population@[i].order@,
                mating_pool@[i % 2].order@,
                self.locations.len() as int,
            ),
            forall|i: int| seed_count(self.population_size as int) <= i < self.population_size - MATING_POOL_SIZE
                ==> reshaped_child(#[trigger] population@[i].order@, mating_pool@, self.locations.len() as int),
    {
        let children_count = self.population_size - MATING_POOL_SIZE;
        let seeds: usize = if self.population_size / 5 < children_count {
            self.population_size / 5
        } else {
            children_count
        };
        let mut population: Vec<Tour> = Vec::new();
        let mut i: usize = 0;
        while i < seeds
            invariant
                i <= seeds <= children_count,
                mating_pool.len() == MATING_POOL_SIZE,
                all_wf(mating_pool@, self.locations@),
                population.len() == i,
                all_wf(population@, self.locations@),
                seeds == seed_count(self.population_size as int),
                forall|k: int| 0 <= k < i ==> (#[trigger] population@[k]).order@ == mating_pool@[k % 2].order@,
            decreases seeds - i,
        {
            population.push(mating_pool[i % 2].duplicate());
            i += 1;
        }
        let ghost copies = population@;
        Simulation::mutate(&mut population, 0, &self.locations, rng);
        let ghost seeded = population@;
        Simulation::crossover(&mut population, mating_pool, children_count, &self.locations, rng);
        let ghost crossed = population@;
        let threshold = mating_pool[MATING_POOL_SIZE - 1].length;
        Simulation::mutate(&mut population, threshold, &self.locations, rng);
        proof {
            let n = self.locations.len() as int;
            assert forall|i: int| 0 <= i < seeds implies twice_reshaped(
                #[trigger] population@[i].order@,
                mating_pool@[i % 2].order@,
                n,
            ) by {
                assert(reshaped(seeded[i].order@, copies[i].order@, n));
                assert(crossed[i] == seeded[i]);
                assert(reshaped(population@[i].order@, crossed[i].order@, n));
            }
            assert forall|i: int| seeds <= i < children_count implies reshaped_child(
                #[trigger] population@[i].order@,
                mating_pool@,
                n,
            ) by {
                assert(child_of(crossed[i].order@, mating_pool@));
                assert(reshaped(population@[i].order@, crossed[i].order@, n));
            }
        }
        let mut j: usize = 0;
        while j < MATING_POOL_SIZE
            invariant
                j <= MATING_POOL_SIZE,
                children_count == self.population_size - MATING_POOL_SIZE,
                mating_pool.len() == MATING_POOL_SIZE,
                all_wf(mating_pool@, self.locations@),
                population.len() == children_count + j,
                all_wf(population@, self.locations@),
                forall|k: int| 0 <= k < j ==> (#[trigger] population@[children_count + k]).order@
                    == mating_pool@[k].order@ && population@[children_count + k].length
                        == mating_pool@[k].length,
                seeds == seed_count(self.population_size as int),
                forall|i: int| 0 <= i < seeds ==> twice_reshaped(
                    #[trigger] population@[i].order@,
                    mating_pool@[i % 2].order@,
                    self.locations.len() as int,
                ),
                forall|i: int| seeds <= i < children_count ==> reshaped_child(
                    #[trigger] population@[i].order@,
                    mating_pool@,
                    self.locations.len() as int,
                ),
            decreases MATING_POOL_SIZE - j,
        {
            let ghost prev = population@;
            population.push(mating_pool[j].duplicate());
            proof {
                let n = self.locations.len() as int;
                assert forall|i: int| 0 <= i < seeds implies twice_reshaped(
                    #[trigger] population@[i].order@,
                    mating_pool@[i % 2].order@,
                    n,
                ) by {
                    assert(population@[i] == prev[i]);
                }
                assert forall|i: int| seeds <= i < children_count implies reshaped_child(
                    #[trigger] population@[i].order@,
                    mating_pool@,
                    n,
                ) by {
                    assert(population@[i] == prev[i]);
                }
            }
            j += 1;
        }
        population
    }

    /// A population of `population_size` random orders of the points.
    pub fn initial_random_population(&self, rng: &mut ThreadRng) -> (population: Vec<Tour>)
        ensures
            population.len() == self.population_size,
            all_wf(population@, self.locations@),
    {
        let n = self.locations.len();
        let mut population: Vec<Tour> = Vec::new();
        while population.len() < self.population_size
            invariant
                n == self.locations.len(),
                population.len() <= self.population_size,
                all_wf(population@, self.locations@),
            decreases self.population_size - population.len(),
        {
            let mut order = identity_order(n);
            let ghost before = order@;
            shuffle_indices(&mut order, rng);
            proof {
                lemma_same_multiset_permutation(before, order@, n);
            }
            population.push(Tour::new(&self.locations, order));
        }
        population
    }
}

} // verus!
