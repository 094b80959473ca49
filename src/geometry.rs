//! Points, their distances and routes through them.
use vstd::prelude::*;

verus! {

/// Scale of every distance and route length: lengths are counted in
/// thousandths of a coordinate unit.
pub const LENGTH_SCALE: u128 = 1000;

/// An exclusive bound on the distance between two points (in thousandths).
pub const EDGE_BOUND: u128 = 0x800_0000_0000;

/// A named point of the plane with integer coordinates.
#[derive(Clone, Debug, PartialEq)]
pub struct Location {
    pub name: String,
    pub x: i32,
    pub y: i32,
}

/// A sequence of points with its length.
#[derive(Clone, Debug, PartialEq)]
pub struct Route {
    pub locations: Vec<Location>,
    pub distance: u128,
}

/// Whether `r` is the integer square root of `n`, rounded down.
pub open spec fn is_floor_sqrt(r: nat, n: nat) -> bool {
    r * r <= n && n < (r + 1) * (r + 1)
}

/// The integer square root of `n`, rounded down.
pub open spec fn floor_sqrt(n: nat) -> nat {
    choose|r: nat| is_floor_sqrt(r, n)
}

/// Squared distance of two points, in squared thousandths.
pub open spec fn scaled_square_distance(a: Location, b: Location) -> nat {
    let dx = a.x - b.x;
    let dy = a.y - b.y;
    (LENGTH_SCALE * LENGTH_SCALE * (dx * dx + dy * dy)) as nat
}

/// Euclidean distance of two points in thousandths, rounded down.
pub open spec fn edge_length(a: Location, b: Location) -> nat {
    floor_sqrt(scaled_square_distance(a, b))
}

/// Length of the open path through `s` in its order: the sum of the
/// distances of consecutive points, with no edge back to the start.
pub open spec fn route_length(s: Seq<Location>) -> nat
    decreases s.len(),
{
    if s.len() < 2 {
        0
    } else {
        route_length(s.drop_last()) + edge_length(s[s.len() - 2], s[s.len() - 1])
    }
}

/// A route whose length is that of its points in their order.
pub open spec fn route_wf(r: Route) -> bool {
    r.distance == route_length(r.locations@)
}

proof fn lemma_floor_sqrt_unique(r: nat, n: nat)
    requires
        is_floor_sqrt(r, n),
    ensures
        floor_sqrt(n) == r,
{
    let s = floor_sqrt(n);
    assert(is_floor_sqrt(s, n));
    if s < r {
        assert((s + 1) * (s + 1) <= r * r) by (nonlinear_arith)
            requires s + 1 <= r;
    } else if r < s {
        assert((r + 1) * (r + 1) <= s * s) by (nonlinear_arith)
            requires r + 1 <= s;
    }
}

/// Integer square root by bisection.
fn floor_sqrt_exec(n: u128) -> (r: u64)
    requires
        n < 0x40_0000_0000_0000_0000_0000,
    ensures
        r as nat == floor_sqrt(n as nat),
        (r as u128) < EDGE_BOUND,
{
    let mut lo: u128 = 0;
    let mut hi: u128 = 0x800_0000_0000;
    assert(n < hi * hi) by (nonlinear_arith)
        requires hi == 0x800_0000_0000, n < 0x40_0000_0000_0000_0000_0000;
    while lo + 1 < hi
        invariant
            lo < hi <= 0x800_0000_0000,
            lo * lo <= n,
            n < hi * hi,
        decreases hi - lo,
    {
        let mid = lo + (hi - lo) / 2;
        assert(mid * mid <= 0x800_0000_0000 * 0x800_0000_0000) by (nonlinear_arith)
            requires mid <= 0x800_0000_0000;
        if mid * mid <= n {
            lo = mid;
        } else {
            hi = mid;
        }
    }
    assert(is_floor_sqrt(lo as nat, n as nat));
    proof {
        lemma_floor_sqrt_unique(lo as nat, n as nat);
    }
    lo as u64
}

impl Location {
    /// Euclidean distance to `other`, in thousandths of a coordinate unit,
    /// rounded down.
    pub fn distance(&self, other: &Location) -> (r: u128)
        ensures
            r == edge_length(*self, *other),
            r < EDGE_BOUND,
    {
        let dx: i64 = self.x as i64 - other.x as i64;
        let dy: i64 = self.y as i64 - other.y as i64;
        let ax: u128 = if dx < 0 { (-dx) as u128 } else { dx as u128 };
        let ay: u128 = if dy < 0 { (-dy) as u128 } else { dy as u128 };
        assert(ax * ax <= 0x1_0000_0000 * 0x1_0000_0000) by (nonlinear_arith)
            requires ax <= 0x1_0000_0000;
        assert(ay * ay <= 0x1_0000_0000 * 0x1_0000_0000) by (nonlinear_arith)
            requires ay <= 0x1_0000_0000;
        let sq: u128 = ax * ax + ay * ay;
        assert(ax * ax == dx * dx && ay * ay == dy * dy) by (nonlinear_arith)
            requires ax == dx || ax == -dx, ay == dy || ay == -dy;
        assert(1000 * 1000 * sq < 0x40_0000_0000_0000_0000_0000) by (nonlinear_arith)
            requires sq <= 2 * 0x1_0000_0000 * 0x1_0000_0000;
        let scaled: u128 = LENGTH_SCALE * LENGTH_SCALE * sq;
        floor_sqrt_exec(scaled) as u128
    }

    /// A copy of this point.
    pub fn duplicate(&self) -> (r: Location)
        ensures
            r == *self,
    {
        Location { name: self.name.clone(), x: self.x, y: self.y }
    }
}

/// The points of `s` in the same order.
pub fn copy_locations(s: &Vec<Location>) -> (r: Vec<Location>)
    ensures
        r@ == s@,
{
    let mut r: Vec<Location> = Vec::new();
    let mut i: usize = 0;
    while i < s.len()
        invariant
            i <= s.len(),
            r@ == s@.take(i as int),
        decreases s.len() - i,
    {
        r.push(s[i].duplicate());
        assert(s@.take(i as int + 1) =~= s@.take(i as int).push(s@[i as int]));
        i += 1;
    }
    assert(s@.take(s.len() as int) =~= s@);
    r
}

/// The length of the open path through `s`.
pub fn locations_distance(s: &Vec<Location>) -> (r: u128)
    ensures
        r == route_length(s@),
{
    if s.len() < 2 {
        return 0;
    }
    let mut acc: u128 = 0;
    let mut i: usize = 1;
    assert(route_length(s@.take(1)) == 0);
    while i < s.len()
        invariant
            1 <= i <= s.len(),
            acc == route_length(s@.take(i as int)),
            acc <= i * EDGE_BOUND,
        decreases s.len() - i,
    {
        let d = s[i - 1].distance(&s[i]);
        let ghost t = s@.take(i as int + 1);
        assert(t.drop_last() =~= s@.take(i as int));
        assert(i * EDGE_BOUND + EDGE_BOUND == (i + 1) * EDGE_BOUND) by (nonlinear_arith);
        assert((i + 1) * EDGE_BOUND <= 0x1_0000_0000_0000_0000 * EDGE_BOUND) by (nonlinear_arith)
            requires i + 1 <= 0x1_0000_0000_0000_0000;
        acc = acc + d;
        i += 1;
    }
    assert(s@.take(s.len() as int) =~= s@);
    acc
}

impl Route {
    /// The route through `locations` in their order, with its length.
    pub fn new(locations: Vec<Location>) -> (r: Route)
        ensures
            r.locations@ == locations@,
            route_wf(r),
    {
        let distance = locations_distance(&locations);
        Route { locations, distance }
    }

    /// A copy of this route.
    pub fn duplicate(&self) -> (r: Route)
        ensures
            r.locations@ == self.locations@,
            r.distance == self.distance,
    {
        Route { locations: copy_locations(&self.locations), distance: self.distance }
    }
}

} // verus!
