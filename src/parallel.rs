//! Several workers on one configuration: the merging of their progress into
//! one stream, and the choice of the final route.
use crate::geometry::{copy_locations, route_wf, Location, Route};
use crate::genetic::MATING_POOL_SIZE;
use crate::simulation::{Simulation, SimulationEvent};
use vstd::prelude::*;

verus! {

/// Number of workers that a parallel search runs.
pub const NUM_THREADS: usize = 2;

/// Configuration of a search run by several workers at once.
#[derive(Clone, Debug)]
pub struct ParallelSimulation {
    pub locations: Vec<Location>,
    pub population_size: usize,
    pub max_iterations: Option<usize>,
    pub assume_convergence: Option<usize>,
}

/// Sum of the counts of `s`.
pub open spec fn sum_of(s: Seq<usize>) -> nat
    decreases s.len(),
{
    if s.len() == 0 {
        0
    } else {
        sum_of(s.drop_last()) + s.last() as nat
    }
}

/// `n`, or `usize::MAX` where `n` is larger.
pub open spec fn saturated(n: nat) -> usize {
    if n > usize::MAX {
        usize::MAX
    } else {
        n as usize
    }
}

/// A sum of counts is no smaller than any of them.
pub proof fn lemma_sum_bounds_each(s: Seq<usize>, k: int)
    requires
        0 <= k < s.len(),
    ensures
        s[k] <= sum_of(s),
    decreases s.len(),
{
    if k < s.len() - 1 {
        lemma_sum_bounds_each(s.drop_last(), k);
    }
}

/// A sum of counts grows where each count grows.
pub proof fn lemma_sum_grows(a: Seq<usize>, b: Seq<usize>)
    requires
        a.len() == b.len(),
        forall|k: int| 0 <= k < a.len() ==> a[k] <= #[trigger] b[k],
    ensures
        sum_of(a) <= sum_of(b),
    decreases a.len(),
{
    if a.len() > 0 {
        lemma_sum_grows(a.drop_last(), b.drop_last());
    }
}

/// What the merging of the workers' events has seen so far.
#[derive(Debug)]
pub struct Aggregation {
    pub worker_count: usize,
    /// Workers that have reported `Started`.
    pub started: usize,
    /// Workers that have reported `Finished`.
    pub finished: usize,
    /// The latest iteration that each worker reported.
    pub iterations: Vec<usize>,
    /// The shortest route reported so far by any worker.
    pub champion: Option<Route>,
}

impl ParallelSimulation {
    /// The configuration used by default for `locations`.
    pub fn new(locations: Vec<Location>) -> (r: ParallelSimulation)
        ensures
            r.locations@ == locations@,
            r.population_size == 200,
            r.max_iterations == Some(100_000usize),
            r.assume_convergence == Some(25_000usize),
    {
        ParallelSimulation {
            locations,
            population_size: 200,
            max_iterations: Some(100_000),
            assume_convergence: Some(25_000),
        }
    }

    /// Whether the population is larger than the mating pool, and a limit
    /// on iterations, where both limits are set, exceeds the limit on
    /// generations without improvement.
    pub open spec fn valid(&self) -> bool {
        &&& self.population_size > MATING_POOL_SIZE
        &&& match (self.max_iterations, self.assume_convergence) {
            (Some(m), Some(c)) => m > c,
            _ => true,
        }
    }

    /// Whether the configuration can be run: that of its workers can.
    pub fn is_valid(&self) -> (r: bool)
        ensures
            r == self.valid(),
    {
        self.population_size > MATING_POOL_SIZE && match (self.max_iterations, self.assume_convergence) {
            (Some(m), Some(c)) => m > c,
            _ => true,
        }
    }

    /// The configuration of each worker: the same as this one.
    pub fn worker_simulation(&self) -> (r: Simulation)
        ensures
            r.locations@ == self.locations@,
            r.population_size == self.population_size,
            r.max_iterations == self.max_iterations,
            r.assume_convergence == self.assume_convergence,
    {
        Simulation {
            locations: copy_locations(&self.locations),
            population_size: self.population_size,
            max_iterations: self.max_iterations,
            assume_convergence: self.assume_convergence,
        }
    }
}

impl Aggregation {
    /// Nothing seen yet from `worker_count` workers.
    pub fn new(worker_count: usize) -> (r: Aggregation)
        ensures
            r.worker_count == worker_count,
            r.started == 0,
            r.finished == 0,
            r.iterations@ == Seq::new(worker_count as nat, |i: int| 0usize),
            r.champion.is_none(),
            r.wf(),
    {
        let mut iterations: Vec<usize> = Vec::new();
        while iterations.len() < worker_count
            invariant
                iterations.len() <= worker_count,
                forall|i: int| 0 <= i < iterations.len() ==> iterations@[i] == 0,
            decreases worker_count - iterations.len(),
        {
            iterations.push(0);
        }
        assert(iterations@ =~= Seq::new(worker_count as nat, |i: int| 0usize));
        Aggregation { worker_count, started: 0, finished: 0, iterations, champion: None }
    }

    /// Counts within the number of workers, one iteration count per worker,
    /// and a champion whose length is that of its points.
    pub open spec fn wf(&self) -> bool {
        &&& self.started <= self.worker_count
        &&& self.finished <= self.worker_count
        &&& self.iterations.len() == self.worker_count
        &&& (self.champion matches Some(c) ==> route_wf(c))
    }

    /// The sum of the latest iterations of all workers (`usize::MAX` where
    /// it is larger).
    pub fn total_iterations(&self) -> (r: usize)
        ensures
            r == saturated(sum_of(self.iterations@)),
            forall|k: int| 0 <= k < self.iterations.len() ==> self.iterations@[k] <= r,
    {
        let mut acc: usize = 0;
        let mut i: usize = 0;
        while i < self.iterations.len()
            invariant
                i <= self.iterations.len(),
                acc == saturated(sum_of(self.iterations@.take(i as int))),
            decreases self.iterations.len() - i,
        {
            assert(self.iterations@.take(i as int + 1).drop_last() =~= self.iterations@.take(i as int));
            let x = self.iterations[i];
            if acc > usize::MAX - x {
                acc = usize::MAX;
            } else {
                acc = acc + x;
            }
            i += 1;
        }
        assert(self.iterations@.take(self.iterations.len() as int) =~= self.iterations@);
        proof {
            assert forall|k: int| 0 <= k < self.iterations.len()
                implies self.iterations@[k] <= acc by {
                lemma_sum_bounds_each(self.iterations@, k);
            }
        }
        acc
    }

    /// Whether every worker has reported `Started`.
    pub open spec fn all_started(&self) -> bool {
        self.started == self.worker_count
    }

    /// The event that reports the champion `c` at iteration `t`.
    pub open spec fn reports(ev: SimulationEvent, c: Route, t: usize) -> bool {
        ev matches SimulationEvent::NewChampion(r, i) && r.locations@ == c.locations@ && r.distance
            == c.distance && i == t
    }

    /// Takes in `event` of worker `worker` and returns the events to pass
    /// on. Until every worker has started, nothing is passed on: counts and
    /// champion are only recorded. The last `Started` passes on `Started`,
    /// then the champion held so far. After that, each iteration report
    /// passes on the sum of the workers' latest iterations, and each route
    /// strictly shorter than every route before it is passed on with that
    /// sum. A worker's latest iteration never goes down. `Finished` is only
    /// counted.
    pub fn observe(&mut self, worker: usize, event: SimulationEvent) -> (out: Vec<SimulationEvent>)
        requires
            old(self).wf(),
            worker < old(self).worker_count,
            event matches SimulationEvent::NewChampion(r, _) ==> route_wf(r),
        ensures
            final(self).wf(),
            final(self).worker_count == old(self).worker_count,
            forall|k: int|
                0 <= k < old(self).iterations.len() ==> old(self).iterations@[k]
                    <= #[trigger] final(self).iterations@[k],
            sum_of(old(self).iterations@) <= sum_of(final(self).iterations@),
            !final(self).all_started() ==> out@.len() == 0,
            (match event {
                SimulationEvent::Started => {
                    &&& final(self).started == if old(self).started < old(self).worker_count {
                        old(self).started + 1
                    } else {
                        old(self).started as int
                    }
                    &&& final(self).finished == old(self).finished
                    &&& final(self).iterations@ == old(self).iterations@
                    &&& final(self).champion == old(self).champion
                    &&& if old(self).started + 1 == old(self).worker_count {
                        &&& out@.len() == if old(self).champion is Some { 2int } else { 1 }
                        &&& out@[0] == SimulationEvent::Started
                        &&& (old(self).champion matches Some(c) ==> Self::reports(
                            out@[1],
                            c,
                            saturated(sum_of(final(self).iterations@)),
                        ))
                    } else {
                        out@.len() == 0
                    }
                },
                SimulationEvent::Finished => {
                    &&& final(self).finished == if old(self).finished < old(self).worker_count {
                        old(self).finished + 1
                    } else {
                        old(self).finished as int
                    }
                    &&& final(self).started == old(self).started
                    &&& final(self).iterations@ == old(self).iterations@
                    &&& final(self).champion == old(self).champion
                    &&& out@.len() == 0
                },
                SimulationEvent::Iteration(i) => {
                    &&& final(self).iterations@ == old(self).iterations@.update(
                        worker as int,
                        if i > old(self).iterations@[worker as int] { i } else { old(self).iterations@[worker as int] },
                    )
                    &&& final(self).started == old(self).started
                    &&& final(self).finished == old(self).finished
                    &&& final(self).champion == old(self).champion
                    &&& old(self).all_started() ==> out@ == seq![
                        SimulationEvent::Iteration(saturated(sum_of(final(self).iterations@))),
                    ]
                },
                SimulationEvent::NewChampion(route, i) => {
                    &&& final(self).iterations@ == old(self).iterations@.update(
                        worker as int,
                        if i > old(self).iterations@[worker as int] { i } else { old(self).iterations@[worker as int] },
                    )
                    &&& final(self).started == old(self).started
                    &&& final(self).finished == old(self).finished
                    &&& if (old(self).champion matches Some(c) ==> route.distance < c.distance) {
                        &&& final(self).champion == Some(route)
                        &&& (old(self).all_started() ==> out@.len() == 1 && Self::reports(
                            out@[0],
                            route,
                            saturated(sum_of(final(self).iterations@)),
                        ))
                    } else {
                        &&& final(self).champion == old(self).champion
                        &&& out@.len() == 0
                    }
                },
            }),
            old(self).champion matches Some(c) ==> (final(self).champion matches Some(d)
                && d.distance <= c.distance),
            forall|m: int, k: int|
                0 <= m < out.len() && 0 <= k < final(self).iterations.len() && (#[trigger] out@[m]) is Iteration
                    ==> (#[trigger] final(self).iterations@[k]) <= out@[m]->Iteration_0,
    {
        let mut out: Vec<SimulationEvent> = Vec::new();
        let ghost before = self.iterations@;
        match event {
            SimulationEvent::Started => {
                let all_before = self.worker_count > 0 && self.started == self.worker_count - 1;
                if self.started < self.worker_count {
                    self.started = self.started + 1;
                }
                if all_before {
                    out.push(SimulationEvent::Started);
                    match &self.champion {
                        Some(c) => {
                            let total = self.total_iterations();
                            out.push(SimulationEvent::NewChampion(c.duplicate(), total));
                        },
                        None => {},
                    }
                }
            },
            SimulationEvent::Finished => {
                if self.finished < self.worker_count {
                    self.finished = self.finished + 1;
                }
            },
            SimulationEvent::Iteration(iteration) => {
                if iteration > self.iterations[worker] {
                    self.iterations.set(worker, iteration);
                }
                proof {
                    lemma_sum_grows(before, self.iterations@);
                }
                if self.started == self.worker_count {
                    out.push(SimulationEvent::Iteration(self.total_iterations()));
                }
            },
            SimulationEvent::NewChampion(route, iteration) => {
                if iteration > self.iterations[worker] {
                    self.iterations.set(worker, iteration);
                }
                proof {
                    lemma_sum_grows(before, self.iterations@);
                }
                let shorter = match &self.champion {
                    Some(c) => route.distance < c.distance,
                    None => true,
                };
                if shorter {
                    if self.started == self.worker_count {
                        let total = self.total_iterations();
                        out.push(SimulationEvent::NewChampion(route.duplicate(), total));
                    }
                    self.champion = Some(route);
                }
            },
        }
        proof {
            if self.iterations@ == before {
                lemma_sum_grows(before, self.iterations@);
            }
        }
        out
    }

    /// The events that close the merged stream: `Finished`, preceded, where
    /// not every worker had started (a stop came first), by the `Started`
    /// and the champion held back so far.
    pub fn close(&self) -> (out: Vec<SimulationEvent>)
        requires
            self.wf(),
        ensures
            out@.len() >= 1,
            out@.last() == SimulationEvent::Finished,
            self.all_started() ==> out@.len() == 1,
            !self.all_started() ==> {
                &&& out@.len() == if self.champion is Some { 3int } else { 2 }
                &&& out@[0] == SimulationEvent::Started
                &&& (self.champion matches Some(c) ==> Self::reports(
                    out@[1],
                    c,
                    saturated(sum_of(self.iterations@)),
                ))
            },
    {
        let mut out: Vec<SimulationEvent> = Vec::new();
        if self.started != self.worker_count {
            out.push(SimulationEvent::Started);
            match &self.champion {
                Some(c) => {
                    let total = self.total_iterations();
                    out.push(SimulationEvent::NewChampion(c.duplicate(), total));
                },
                None => {},
            }
        }
        out.push(SimulationEvent::Finished);
        out
    }

    /// Whether the merging ends: every worker has finished, or a stop was
    /// requested.
    pub fn is_done(&self, stop_requested: bool) -> (r: bool)
        ensures
            r == (self.finished >= self.worker_count || stop_requested),
    {
        self.finished >= self.worker_count || stop_requested
    }
}

/// The first of the shortest of `routes`.
pub fn best_route(routes: &Vec<Route>) -> (r: Route)
    requires
        routes.len() > 0,
    ensures
        exists|k: int|
            0 <= k < routes.len() && r.locations@ == routes@[k].locations@ && r.distance
                == routes@[k].distance && forall|j: int| 0 <= j < k
                    ==> routes@[j].distance > r.distance,
        forall|j: int| 0 <= j < routes.len() ==> r.distance <= (#[trigger] routes@[j]).distance,
{
    let mut best: usize = 0;
    let mut i: usize = 1;
    while i < routes.len()
        invariant
            best < i <= routes.len(),
            forall|j: int| 0 <= j < i
                ==> routes@[best as int].distance <= (#[trigger] routes@[j]).distance,
            forall|j: int| 0 <= j < best
                ==> (#[trigger] routes@[j]).distance > routes@[best as int].distance,
        decreases routes.len() - i,
    {
        if routes[i].distance < routes[best].distance {
            best = i;
        }
        i += 1;
    }
    routes[best].duplicate()
}

} // verus!
