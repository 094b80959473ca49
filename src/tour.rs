//! Candidate solutions: visiting orders over a fixed list of points.
use crate::geometry::{route_length, Location, Route, EDGE_BOUND};
use vstd::prelude::*;

verus! {

/// A candidate route, held as an order of indices into the list of points,
/// with its length.
#[derive(Debug)]
pub struct Tour {
    pub order: Vec<usize>,
    pub length: u128,
}

/// `s` holds each index below `n` exactly once.
pub open spec fn is_permutation(s: Seq<usize>, n: nat) -> bool {
    &&& s.len() == n
    &&& s.no_duplicates()
    &&& forall|i: int| 0 <= i < s.len() ==> (#[trigger] s[i]) < n
}

/// The points of `points` in the order `order`.
pub open spec fn arrange(points: Seq<Location>, order: Seq<usize>) -> Seq<Location> {
    Seq::new(order.len(), |i: int| points[order[i] as int])
}

/// A tour of all of `points` whose length is that of its order.
pub open spec fn tour_wf(t: Tour, points: Seq<Location>) -> bool {
    &&& is_permutation(t.order@, points.len())
    &&& t.length == route_length(arrange(points, t.order@))
}

/// Every tour of `tours` is a tour of all of `points` with its length.
pub open spec fn all_wf(tours: Seq<Tour>, points: Seq<Location>) -> bool {
    forall|i: int| 0 <= i < tours.len() ==> tour_wf(#[trigger] tours[i], points)
}

/// The elements of a sequence without repeats, all below `n`, are the
/// indices below `n` exactly when there are `n` of them.
proof fn lemma_set_is_range(s: Seq<usize>, n: usize)
    requires
        s.no_duplicates(),
        forall|i: int| 0 <= i < s.len() ==> (#[trigger] s[i]) < n,
    ensures
        s.len() == n <==> s.to_set() == Set::<usize>::range(0, n),
{
    broadcast use vstd::set_lib::range_set_properties;
    broadcast use vstd::seq_lib::group_seq_properties;

    let r = Set::<usize>::range(0, n);
    s.unique_seq_to_set();
    assert(s.to_set().subset_of(r));
    vstd::set_lib::lemma_len_subset(s.to_set(), r);
    if s.len() == n {
        vstd::set_lib::lemma_subset_equality(s.to_set(), r);
    }
}

/// A permutation of the indices below `n` holds every one of them.
pub proof fn lemma_permutation_covers(s: Seq<usize>, n: usize, v: usize)
    requires
        is_permutation(s, n as nat),
        v < n,
    ensures
        s.contains(v),
{
    lemma_set_is_range(s, n);
    assert(Set::<usize>::range(0, n).contains(v));
}

/// Indices without repeats, all below `n`, that hold every index below `n`
/// form a permutation.
pub proof fn lemma_covering_is_permutation(s: Seq<usize>, n: usize)
    requires
        s.no_duplicates(),
        forall|i: int| 0 <= i < s.len() ==> (#[trigger] s[i]) < n,
        forall|v: usize| v < n ==> s.contains(v),
    ensures
        is_permutation(s, n as nat),
{
    broadcast use vstd::seq_lib::group_seq_properties;

    assert(s.to_set() =~= Set::<usize>::range(0, n));
    lemma_set_is_range(s, n);
}

/// Two permutations of the same indices hold the same multiset.
pub proof fn lemma_permutations_same_multiset(a: Seq<usize>, b: Seq<usize>, n: usize)
    requires
        is_permutation(a, n as nat),
        is_permutation(b, n as nat),
    ensures
        a.to_multiset() =~= b.to_multiset(),
{
    broadcast use vstd::seq_lib::group_seq_properties;
    broadcast use vstd::multiset::group_multiset_axioms;

    a.lemma_multiset_has_no_duplicates();
    b.lemma_multiset_has_no_duplicates();
    assert forall|v: usize| a.to_multiset().count(v) == b.to_multiset().count(v) by {
        if v < n {
            lemma_permutation_covers(a, n, v);
            lemma_permutation_covers(b, n, v);
        } else {
            if a.contains(v) {
                let i = choose|i: int| 0 <= i < a.len() && a[i] == v;
            }
            if b.contains(v) {
                let i = choose|i: int| 0 <= i < b.len() && b[i] == v;
            }
        }
    }
}

/// A sequence with the multiset of a permutation is a permutation.
pub proof fn lemma_same_multiset_permutation(a: Seq<usize>, b: Seq<usize>, n: usize)
    requires
        is_permutation(a, n as nat),
        a.to_multiset() == b.to_multiset(),
    ensures
        is_permutation(b, n as nat),
{
    broadcast use vstd::seq_lib::group_seq_properties;
    broadcast use vstd::multiset::group_multiset_axioms;

    a.to_multiset_ensures();
    b.to_multiset_ensures();
    a.lemma_multiset_has_no_duplicates();
    b.lemma_multiset_has_no_duplicates_conv();
    assert(b.len() == a.len());
    assert forall|i: int| 0 <= i < b.len() implies (#[trigger] b[i]) < n by {
        assert(b.to_multiset().count(b[i]) > 0);
        assert(a.contains(b[i]));
    }
}

/// The length of the route through `points` in the order `order`.
pub fn tour_length(points: &Vec<Location>, order: &Vec<usize>) -> (r: u128)
    requires
        forall|i: int| 0 <= i < order.len() ==> (#[trigger] order[i]) < points.len(),
    ensures
        r == route_length(arrange(points@, order@)),
{
    let ghost s = arrange(points@, order@);
    if order.len() < 2 {
        return 0;
    }
    let mut acc: u128 = 0;
    let mut i: usize = 1;
    assert(route_length(s.take(1)) == 0);
    while i < order.len()
        invariant
            1 <= i <= order.len(),
            s == arrange(points@, order@),
            forall|k: int| 0 <= k < order.len() ==> (#[trigger] order[k]) < points.len(),
            acc == route_length(s.take(i as int)),
            acc <= i * EDGE_BOUND,
        decreases order.len() - i,
    {
        let d = points[order[i - 1]].distance(&points[order[i]]);
        let ghost t = s.take(i as int + 1);
        assert(t.drop_last() =~= s.take(i as int));
        assert(i * EDGE_BOUND + EDGE_BOUND == (i + 1) * EDGE_BOUND) by (nonlinear_arith);
        assert((i + 1) * EDGE_BOUND <= 0x1_0000_0000_0000_0000 * EDGE_BOUND) by (nonlinear_arith)
            requires i + 1 <= 0x1_0000_0000_0000_0000;
        acc = acc + d;
        i += 1;
    }
    assert(s.take(order.len() as int) =~= s);
    acc
}

/// A copy of the indices of `v`.
pub fn copy_order(v: &Vec<usize>) -> (r: Vec<usize>)
    ensures
        r@ == v@,
{
    let mut r: Vec<usize> = Vec::new();
    let mut i: usize = 0;
    while i < v.len()
        invariant
            i <= v.len(),
            r@ == v@.take(i as int),
        decreases v.len() - i,
    {
        r.push(v[i]);
        assert(v@.take(i as int + 1) =~= v@.take(i as int).push(v@[i as int]));
        i += 1;
    }
    assert(v@.take(v.len() as int) =~= v@);
    r
}

/// Whether `v[lo..hi]` holds `e`.
pub fn slice_contains(v: &Vec<usize>, lo: usize, hi: usize, e: usize) -> (r: bool)
    requires
        lo <= hi <= v.len(),
    ensures
        r == v@.subrange(lo as int, hi as int).contains(e),
{
    let mut i: usize = lo;
    while i < hi
        invariant
            lo <= i <= hi <= v.len(),
            forall|k: int| lo <= k < i ==> v@[k] != e,
        decreases hi - i,
    {
        if v[i] == e {
            assert(v@.subrange(lo as int, hi as int)[i - lo] == e);
            return true;
        }
        i += 1;
    }
    proof {
        if v@.subrange(lo as int, hi as int).contains(e) {
            let k = choose|k: int|
                0 <= k < hi - lo && v@.subrange(lo as int, hi as int)[k] == e;
            assert(v@[lo + k] == e);
        }
    }
    false
}

/// Whether `a` and `b` visit the points in the same order.
pub fn same_order(a: &Vec<usize>, b: &Vec<usize>) -> (r: bool)
    ensures
        r == (a@ == b@),
{
    if a.len() != b.len() {
        return false;
    }
    let mut i: usize = 0;
    while i < a.len()
        invariant
            i <= a.len() == b.len(),
            forall|k: int| 0 <= k < i ==> a@[k] == b@[k],
        decreases a.len() - i,
    {
        if a[i] != b[i] {
            return false;
        }
        i += 1;
    }
    assert(a@ =~= b@);
    true
}

impl Tour {
    /// The tour that visits `points` in the order `order`, with its length.
    pub fn new(points: &Vec<Location>, order: Vec<usize>) -> (r: Tour)
        requires
            forall|i: int| 0 <= i < order.len() ==> (#[trigger] order[i]) < points.len(),
        ensures
            r.order@ == order@,
            r.length == route_length(arrange(points@, order@)),
    {
        let length = tour_length(points, &order);
        Tour { order, length }
    }

    /// A copy of this tour.
    pub fn duplicate(&self) -> (r: Tour)
        ensures
            r.order@ == self.order@,
            r.length == self.length,
    {
        Tour { order: copy_order(&self.order), length: self.length }
    }

    /// The route through `points` that this tour describes.
    pub fn to_route(&self, points: &Vec<Location>) -> (r: Route)
        requires
            tour_wf(*self, points@),
        ensures
            r.locations@ == arrange(points@, self.order@),
            r.distance == self.length,
            r.distance == route_length(r.locations@),
    {
        let mut locations: Vec<Location> = Vec::new();
        let mut i: usize = 0;
        while i < self.order.len()
            invariant
                i <= self.order.len(),
                tour_wf(*self, points@),
                locations@ == arrange(points@, self.order@).take(i as int),
            decreases self.order.len() - i,
        {
            locations.push(points[self.order[i]].duplicate());
            assert(arrange(points@, self.order@).take(i as int + 1) =~= arrange(
                points@,
                self.order@,
            ).take(i as int).push(points@[self.order@[i as int] as int]));
            i += 1;
        }
        assert(arrange(points@, self.order@).take(self.order.len() as int) =~= arrange(
            points@,
            self.order@,
        ));
        Route { locations, distance: self.length }
    }
}

} // verus!
