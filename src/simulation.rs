//! One worker: a genetic search for a short route.
use crate::genetic::{sorted_below, MATING_POOL_SIZE};
use crate::geometry::{copy_locations, route_wf, Location, Route};
use crate::tour::{all_wf, arrange, is_permutation, tour_wf, Tour};
use std::sync::atomic::{AtomicBool, Ordering};
use std::sync::Arc;
use vstd::prelude::*;

verus! {

/// Number of generations between two `Iteration` events.
pub const ITERATION_REPORT_INTERVAL: usize = 1000;

/// Configuration of one genetic search.
#[derive(Debug)]
pub struct Simulation {
    pub locations: Vec<Location>,
    pub population_size: usize,
    pub max_iterations: Option<usize>,
    pub assume_convergence: Option<usize>,
}

/// Progress of a search, as reported to its observer.
#[derive(Clone, Debug, PartialEq)]
pub enum SimulationEvent {
    Started,
    Iteration(usize),
    NewChampion(Route, usize),
    Finished,
}

/// The state of a search between two generations.
#[derive(Debug)]
pub struct Evolution {
    pub population: Vec<Tour>,
    pub mating_pool: Vec<Tour>,
    /// The shortest route found so far.
    pub champion: Tour,
    /// Generations completed.
    pub iteration: usize,
    /// Generations completed since the champion last improved.
    pub since_improvement: usize,
}

/// `s` is the points of `points`, each once, in some order.
pub open spec fn is_arrangement(s: Seq<Location>, points: Seq<Location>) -> bool {
    exists|order: Seq<usize>| is_permutation(order, points.len()) && s == arrange(points, order)
}

/// No tour of `points` is shorter than `t`.
pub open spec fn is_optimal(t: Tour, points: Seq<Location>) -> bool {
    forall|u: Tour| tour_wf(u, points) ==> t.length <= u.length
}

impl Simulation {
    /// Whether the configuration can be run: the population is larger than
    /// the mating pool, and a limit on iterations, where both limits are
    /// set, exceeds the limit on generations without improvement.
    pub open spec fn valid(&self) -> bool {
        &&& self.population_size > MATING_POOL_SIZE
        &&& match (self.max_iterations, self.assume_convergence) {
            (Some(m), Some(c)) => m > c,
            _ => true,
        }
    }

    /// Whether `e` is a consistent state of a search over this configuration.
    pub open spec fn evolution_wf(&self, e: Evolution) -> bool {
        &&& e.population.len() == self.population_size
        &&& all_wf(e.population@, self.locations@)
        &&& e.mating_pool.len() == MATING_POOL_SIZE
        &&& all_wf(e.mating_pool@, self.locations@)
        &&& tour_wf(e.champion, self.locations@)
        &&& e.since_improvement <= e.iteration
    }

    /// Whether the configuration can be run (see `valid`).
    pub fn is_valid(&self) -> (r: bool)
        ensures
            r == self.valid(),
    {
        self.population_size > MATING_POOL_SIZE && match (self.max_iterations, self.assume_convergence) {
            (Some(m), Some(c)) => m > c,
            _ => true,
        }
    }

    /// The configuration used by default for `locations`.
    pub fn new(locations: Vec<Location>) -> (r: Simulation)
        ensures
            r.locations@ == locations@,
            r.population_size == 200,
            r.max_iterations == Some(100_000usize),
            r.assume_convergence == Some(25_000usize),
            r.valid(),
    {
        Simulation {
            locations,
            population_size: 200,
            max_iterations: Some(100_000),
            assume_convergence: Some(25_000),
        }
    }

    /// The rule that ends a search after the state `e`.
    pub open spec fn stop_rule(&self, e: Evolution, stop_requested: bool) -> bool {
        stop_requested || (self.max_iterations matches Some(m) && e.iteration >= m)
            || (self.assume_convergence matches Some(c) && e.since_improvement >= c)
            || e.iteration == usize::MAX
    }

    /// What one generation does to the state of a search: it counts one
    /// iteration more, and either shortens the champion strictly and resets
    /// the count of generations without improvement, or keeps the length
    /// of the champion and adds one to that count.
    pub open spec fn generation_step(&self, a: Evolution, b: Evolution) -> bool {
        &&& self.evolution_wf(b)
        &&& b.iteration == a.iteration + 1
        &&& b.champion.length <= a.champion.length
        &&& b.champion.length < a.champion.length ==> b.since_improvement == 0
        &&& b.champion.length == a.champion.length ==> b.since_improvement
            == a.since_improvement + 1
    }

    /// Whether the search stops after the state `e`: when `stop_requested`,
    /// when the limit on iterations is reached, when the limit on
    /// generations without improvement is reached, or when the iteration
    /// counter can go no higher.
    pub fn should_stop(&self, e: &Evolution, stop_requested: bool) -> (r: bool)
        ensures
            r == self.stop_rule(*e, stop_requested),
    {
        let over_iterations = match self.max_iterations {
            Some(m) => e.iteration >= m,
            None => false,
        };
        let converged = match self.assume_convergence {
            Some(c) => e.since_improvement >= c,
            None => false,
        };
        stop_requested || over_iterations || converged || e.iteration == usize::MAX
    }

    /// The first state of a search: a random population, its mating pool,
    /// and the best route of the pool as champion.
    pub fn begin(&self, rng: &mut rand::rngs::ThreadRng) -> (e: Evolution)
        requires
            self.valid(),
            self.locations.len() >= 3,
        ensures
            self.evolution_wf(e),
            e.iteration == 0,
            e.since_improvement == 0,
            e.champion.order@ == e.mating_pool@[0].order@,
            e.champion.length == e.mating_pool@[0].length,
            forall|i: int| 0 <= i < e.population.len()
                ==> e.champion.length <= (#[trigger] e.population@[i]).length,
    {
        let population = self.initial_random_population(rng);
        let mating_pool = Simulation::select_mating_pool(&population, &self.locations, rng);
        let champion = mating_pool[0].duplicate();
        Evolution { population, mating_pool, champion, iteration: 0, since_improvement: 0 }
    }

    /// One generation: the next population from the mating pool, its own
    /// mating pool, and the champion replaced where the best route of the
    /// new pool is strictly shorter. Returns whether it was replaced.
    pub fn advance(&self, e: &mut Evolution, rng: &mut rand::rngs::ThreadRng) -> (improved: bool)
        requires
            self.valid(),
            self.locations.len() >= 3,
            self.evolution_wf(*old(e)),
            old(e).iteration < usize::MAX,
        ensures
            self.generation_step(*old(e), *final(e)),
            self.evolution_wf(*final(e)),
            final(e).iteration == old(e).iteration + 1,
            final(e).champion.length <= old(e).champion.length,
            improved == (final(e).champion.length < old(e).champion.length),
            improved ==> final(e).since_improvement == 0 && final(e).champion.order@
                == final(e).mating_pool@[0].order@ && final(e).champion.length
                    == final(e).mating_pool@[0].length,
            !improved ==> final(e).since_improvement == old(e).since_improvement + 1
                && final(e).champion.order@ == old(e).champion.order@,
            sorted_below(final(e).mating_pool@, MATING_POOL_SIZE - 1),
            forall|i: int| 0 <= i < final(e).population.len()
                ==> final(e).champion.length <= (#[trigger] final(e).population@[i]).length,
    {
        let population = self.next_generation(&e.mating_pool, rng);
        let mating_pool = Simulation::select_mating_pool(&population, &self.locations, rng);
        e.population = population;
        e.mating_pool = mating_pool;
        e.iteration = e.iteration + 1;
        if e.mating_pool[0].length < e.champion.length {
            e.champion = e.mating_pool[0].duplicate();
            e.since_improvement = 0;
            true
        } else {
            e.since_improvement = e.since_improvement + 1;
            false
        }
    }

    /// What a generation that ended in the state `e` reports: the new
    /// champion with its iteration where it `improved`, then the iteration
    /// where it is a multiple of `ITERATION_REPORT_INTERVAL`.
    pub fn generation_events(&self, e: &Evolution, improved: bool) -> (events: Vec<
        SimulationEvent,
    >)
        requires
            tour_wf(e.champion, self.locations@),
        ensures
            events.len() == (if improved { 1int } else { 0 }) + (if e.iteration
                % ITERATION_REPORT_INTERVAL == 0 { 1int } else { 0 }),
            improved ==> (events@[0] matches SimulationEvent::NewChampion(r, i) && i == e.iteration
                && r.locations@ == arrange(self.locations@, e.champion.order@) && r.distance
                == e.champion.length),
            e.iteration % ITERATION_REPORT_INTERVAL == 0 ==> events@[events.len() - 1]
                == SimulationEvent::Iteration(e.iteration),
    {
        let mut events: Vec<SimulationEvent> = Vec::new();
        if improved {
            events.push(
                SimulationEvent::NewChampion(e.champion.to_route(&self.locations), e.iteration),
            );
        }
        if e.iteration % ITERATION_REPORT_INTERVAL == 0 {
            events.push(SimulationEvent::Iteration(e.iteration));
        }
        events
    }

    /// Runs the search to its end and returns the best route found; see
    /// `run_logged` for the events passed to `simulation_event_callback`.
    pub fn run<F>(&self, stop: &Arc<AtomicBool>, simulation_event_callback: F) -> (r: Route)
        where
            F: Fn(SimulationEvent),
        requires
            self.valid(),
            forall|ev: SimulationEvent| simulation_event_callback.requires((ev,)),
        ensures
            route_wf(r),
            is_arrangement(r.locations@, self.locations@),
            self.locations.len() <= 2 ==> r.locations@ == self.locations@,
    {
        let (route, _log) = self.run_logged(stop, simulation_event_callback);
        route
    }

    /// Runs the search to its end; returns the best route found, and the
    /// events passed to `simulation_event_callback`, in the order passed.
    ///
    /// Those are `Started`; then, with two points or fewer, the one route
    /// through them as `NewChampion` at iteration 0 and `Finished`.
    /// Otherwise the first champion at iteration 0, each strictly shorter
    /// champion with its iteration, every `ITERATION_REPORT_INTERVAL`-th
    /// iteration, and `Finished`. The result is the last champion reported.
    /// The search ends when `stop` is set or a limit of the configuration is
    /// reached.
    pub fn run_logged<F>(&self, stop: &Arc<AtomicBool>, simulation_event_callback: F) -> (r: (
        Route,
        Ghost<Seq<SimulationEvent>>,
    ))
        where
            F: Fn(SimulationEvent),
        requires
            self.valid(),
            forall|ev: SimulationEvent| simulation_event_callback.requires((ev,)),
        ensures
            route_wf(r.0),
            is_arrangement(r.0.locations@, self.locations@),
            self.locations.len() <= 2 ==> r.0.locations@ == self.locations@,
            framed(r.1@),
            reports_in_order(r.1@.drop_last()),
            exists|k: int| #[trigger] last_champion_at(r.1@, k, r.0),
            self.max_iterations matches Some(m) ==> (m >= 1 ==> reported_within(r.1@, m as int)),
            self.locations.len() <= 2 ==> r.1@.len() == 3 && last_champion_at(r.1@, 1, r.0),
    {
        let ghost mut log: Seq<SimulationEvent> = Seq::empty();
        proof {
            log = log.push(SimulationEvent::Started);
        }
        simulation_event_callback(SimulationEvent::Started);
        if self.locations.len() <= 2 {
            let champion = Route::new(copy_locations(&self.locations));
            let first = SimulationEvent::NewChampion(champion.duplicate(), 0);
            proof {
                log = log.push(first);
            }
            simulation_event_callback(first);
            proof {
                log = log.push(SimulationEvent::Finished);
            }
            simulation_event_callback(SimulationEvent::Finished);
            proof {
                let n = self.locations.len();
                let order = Seq::new(n as nat, |i: int| i as usize);
                assert(arrange(self.locations@, order) =~= self.locations@);
                assert(is_permutation(order, n as nat));
                assert(log.drop_last() =~= log.take(2));
                assert(last_champion_at(log, 1, champion));
                assert(framed(log));
            }
            let result = (champion, Ghost(log));
            proof {
                assert(last_champion_at(result.1@, 1, result.0));
            }
            return result;
        }
        let mut rng = rand::thread_rng();
        let mut evolution = self.begin(&mut rng);
        let first = SimulationEvent::NewChampion(evolution.champion.to_route(&self.locations), 0);
        let ghost mut last: int = 1;
        proof {
            log = log.push(first);
        }
        simulation_event_callback(first);
        loop
            invariant_except_break
                evolution.iteration < usize::MAX,
                self.max_iterations matches Some(m) ==> (m >= 1 ==> evolution.iteration < m),
            invariant
                self.valid(),
                self.locations.len() >= 3,
                self.evolution_wf(evolution),
                forall|ev: SimulationEvent| simulation_event_callback.requires((ev,)),
                log.len() >= 2,
                log[0] == SimulationEvent::Started,
                log[1] matches SimulationEvent::NewChampion(_, 0),
                reports_in_order(log),
                reported_within(log, evolution.iteration as int),
                0 < last < log.len(),
                log[last] is NewChampion,
                log[last]->NewChampion_0.locations@ == arrange(self.locations@, evolution.champion.order@),
                log[last]->NewChampion_0.distance == evolution.champion.length,
                forall|m: int| last < m < log.len() ==> !((#[trigger] log[m]) is NewChampion),
                forall|m: int|
                    1 <= m < log.len() && (#[trigger] log[m]) is NewChampion
                        ==> log[m]->NewChampion_0.distance >= evolution.champion.length,
                self.max_iterations matches Some(m) ==> (m >= 1 ==> evolution.iteration <= m),
            decreases usize::MAX - evolution.iteration,
        {
            let ghost old_length = evolution.champion.length;
            let improved = self.advance(&mut evolution, &mut rng);
            let mut events = self.generation_events(&evolution, improved);
            let ghost planned = events@;
            let ghost base = log;
            proof {
                let it = evolution.iteration as int;
                let nl = base + planned;
                assert forall|k: int| 1 <= k < nl.len() implies (#[trigger] nl[k]) is NewChampion
                    || nl[k] is Iteration by {
                    if k >= base.len() {
                        assert(nl[k] == planned[k - base.len()]);
                    }
                }
                assert forall|i: int, j: int|
                    0 <= i < j < nl.len() && (#[trigger] nl[i]) is NewChampion && (#[trigger] nl[j]) is NewChampion
                        implies nl[j]->NewChampion_0.distance < nl[i]->NewChampion_0.distance by {
                    if j >= base.len() {
                        assert(nl[j] == planned[j - base.len()]);
                        if i >= base.len() {
                            assert(nl[i] == planned[i - base.len()]);
                        } else {
                            assert(nl[i] == base[i]);
                        }
                    } else {
                        assert(nl[i] == base[i] && nl[j] == base[j]);
                    }
                }
                assert(reports_in_order(nl));
                assert forall|k: int| 1 <= k < nl.len() implies reported_at_most(#[trigger] nl[k], it) by {
                    if k >= base.len() {
                        assert(nl[k] == planned[k - base.len()]);
                    } else {
                        assert(nl[k] == base[k]);
                    }
                }
            }
            while events.len() > 0
                invariant
                    forall|ev: SimulationEvent| simulation_event_callback.requires((ev,)),
                    events.len() <= planned.len(),
                    events@ == planned.skip(planned.len() - events.len()),
                    log == base + planned.take(planned.len() - events.len()),
                decreases events.len(),
            {
                let ghost done = planned.len() - events.len();
                let ev = events.remove(0);
                proof {
                    assert(planned.take(done + 1) =~= planned.take(done).push(ev));
                    assert(events@ =~= planned.skip(planned.len() - events.len()));
                    log = log.push(ev);
                    assert(log =~= base + planned.take(done + 1));
                }
                simulation_event_callback(ev);
            }
            proof {
                assert(planned.take(planned.len() as int) =~= planned);
                assert(log[0] == base[0] && log[1] == base[1]);
                if improved {
                    last = base.len() as int;
                    assert(log[last] == planned[0]);
                    assert forall|m: int| last < m < log.len() implies !((#[trigger] log[m]) is NewChampion) by {
                        assert(log[m] == planned[m - base.len()]);
                    }
                    assert forall|m: int|
                        1 <= m < log.len() && (#[trigger] log[m]) is NewChampion
                            implies log[m]->NewChampion_0.distance >= evolution.champion.length by {
                        if m >= base.len() {
                            assert(log[m] == planned[m - base.len()]);
                        } else {
                            assert(log[m] == base[m]);
                        }
                    }
                } else {
                    assert(log[last] == base[last]);
                    assert forall|m: int| last < m < log.len() implies !((#[trigger] log[m]) is NewChampion) by {
                        if m >= base.len() {
                            assert(log[m] == planned[m - base.len()]);
                        } else {
                            assert(log[m] == base[m]);
                        }
                    }
                    assert forall|m: int|
                        1 <= m < log.len() && (#[trigger] log[m]) is NewChampion
                            implies log[m]->NewChampion_0.distance >= evolution.champion.length by {
                        if m >= base.len() {
                            assert(log[m] == planned[m - base.len()]);
                        } else {
                            assert(log[m] == base[m]);
                        }
                    }
                }
            }
            if self.should_stop(&evolution, stop.load(Ordering::Relaxed)) {
                break;
            }
        }
        let ghost body = log;
        proof {
            log = log.push(SimulationEvent::Finished);
        }
        simulation_event_callback(SimulationEvent::Finished);
        let route = evolution.champion.to_route(&self.locations);
        proof {
            assert(log.drop_last() =~= body);
            assert(log[last] == body[last]);
            assert(last_champion_at(log, last, route));
            assert(log[0] == body[0] && log[1] == body[1]);
            assert(framed(log));
            assert forall|k: int| 1 <= k < log.len() - 1 implies reported_at_most(#[trigger] log[k], evolution.iteration as int) by {
                assert(log[k] == body[k]);
            }
        }
        let result = (route, Ghost(log));
        proof {
            assert(last_champion_at(result.1@, last, result.0));
        }
        result
    }
}

/// The events of a run open with `Started`, then a champion at iteration
/// 0, and close with `Finished`.
pub open spec fn framed(log: Seq<SimulationEvent>) -> bool {
    &&& log.len() >= 3
    &&& log[0] == SimulationEvent::Started
    &&& log[1] matches SimulationEvent::NewChampion(_, 0)
    &&& log.last() == SimulationEvent::Finished
}

/// After the first event, only champions and iterations, each champion
/// strictly shorter than every champion before it.
pub open spec fn reports_in_order(log: Seq<SimulationEvent>) -> bool {
    &&& forall|k: int| 1 <= k < log.len() ==> (#[trigger] log[k]) is NewChampion || log[k] is Iteration
    &&& forall|i: int, j: int|
        0 <= i < j < log.len() && (#[trigger] log[i]) is NewChampion && (#[trigger] log[j]) is NewChampion
            ==> log[j]->NewChampion_0.distance < log[i]->NewChampion_0.distance
}

/// `ev` reports an iteration no later than `iteration`; an `Iteration`
/// report is a positive multiple of `ITERATION_REPORT_INTERVAL`.
pub open spec fn reported_at_most(ev: SimulationEvent, iteration: int) -> bool {
    match ev {
        SimulationEvent::NewChampion(_, i) => i <= iteration,
        SimulationEvent::Iteration(i) => 0 < i <= iteration && i % ITERATION_REPORT_INTERVAL == 0,
        _ => true,
    }
}

/// Every event after the first reports an iteration no later than
/// `iteration`.
pub open spec fn reported_within(log: Seq<SimulationEvent>, iteration: int) -> bool {
    forall|k: int| 1 <= k < log.len() ==> reported_at_most(#[trigger] log[k], iteration)
}

/// The event at `k` is the last champion of `log`, and reports `r`.
pub open spec fn last_champion_at(log: Seq<SimulationEvent>, k: int, r: Route) -> bool {
    &&& 0 <= k < log.len()
    &&& log[k] matches SimulationEvent::NewChampion(c, _)
    &&& c.locations@ == r.locations@
    &&& c.distance == r.distance
    &&& forall|m: int| k < m < log.len() ==> !((#[trigger] log[m]) is NewChampion)
}

/// Once a search holds a champion that no route beats, every generation
/// counts one more generation without improvement: with the limit `c` on
/// that count, the search stops within `c` generations, stop requested or
/// not.
pub proof fn lemma_stops_after_optimum(sim: Simulation, states: Seq<Evolution>, c: usize)
    requires
        sim.assume_convergence == Some(c),
        states.len() > c,
        sim.evolution_wf(states[0]),
        is_optimal(states[0].champion, sim.locations@),
        forall|i: int| 0 <= i < states.len() - 1 ==> sim.generation_step(#[trigger] states[i],
            states[i + 1]),
    ensures
        exists|i: int| 0 <= i <= c && sim.stop_rule(#[trigger] states[i], false),
{
    let s0 = states[0].since_improvement;
    let last: int = if s0 >= c { 0 } else { c - s0 };
    lemma_optimum_kept(sim, states, last);
    assert(sim.stop_rule(states[last], false));
}

/// Over successive generations of a search, the champion never gets
/// longer: each new champion is shorter than every one before it.
pub proof fn lemma_champion_never_grows(sim: Simulation, states: Seq<Evolution>, i: int, j: int)
    requires
        0 <= i <= j < states.len(),
        forall|k: int| 0 <= k < states.len() - 1 ==> sim.generation_step(#[trigger] states[k],
            states[k + 1]),
    ensures
        states[j].champion.length <= states[i].champion.length,
    decreases j - i,
{
    if i < j {
        lemma_champion_never_grows(sim, states, i, j - 1);
        assert(sim.generation_step(states[j - 1], states[j]));
    }
}

/// After an optimal champion, each generation keeps its length and counts
/// one more generation without improvement.
proof fn lemma_optimum_kept(sim: Simulation, states: Seq<Evolution>, i: int)
    requires
        0 <= i < states.len(),
        sim.evolution_wf(states[0]),
        is_optimal(states[0].champion, sim.locations@),
        forall|k: int| 0 <= k < states.len() - 1 ==> sim.generation_step(#[trigger] states[k],
            states[k + 1]),
    ensures
        states[i].champion.length == states[0].champion.length,
        states[i].since_improvement == states[0].since_improvement + i,
    decreases i,
{
    if i > 0 {
        lemma_optimum_kept(sim, states, i - 1);
        assert(sim.generation_step(states[i - 1], states[i]));
        assert(tour_wf(states[i].champion, sim.locations@));
    }
}

} // verus!
