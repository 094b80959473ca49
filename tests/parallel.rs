use std::cell::RefCell;
use std::sync::atomic::AtomicBool;
use std::sync::Arc;
use tsp_sim::{best_route, Aggregation, Location, ParallelSimulation, Route, SimulationEvent};

fn loc(name: &str, x: i32, y: i32) -> Location {
    Location { name: name.to_owned(), x, y }
}

fn square() -> Vec<Location> {
    vec![loc("A", 0, 0), loc("B", 10, 10), loc("C", 0, 10), loc("D", 10, 0)]
}

#[test]
fn started_is_passed_on_once_all_workers_started() {
    let mut agg = Aggregation::new(2);
    assert_eq!(agg.observe(0, SimulationEvent::Started), vec![]);
    assert_eq!(agg.observe(1, SimulationEvent::Started), vec![SimulationEvent::Started]);
    assert_eq!(agg.started, 2);
}

#[test]
fn nothing_passes_before_every_worker_started() {
    let mut agg = Aggregation::new(2);
    let route = Route::new(square_in_order());
    assert_eq!(agg.observe(0, SimulationEvent::Started), vec![]);
    assert_eq!(agg.observe(0, SimulationEvent::NewChampion(route.clone(), 0)), vec![]);
    assert_eq!(agg.observe(0, SimulationEvent::Iteration(1000)), vec![]);
    assert_eq!(
        agg.observe(1, SimulationEvent::Started),
        vec![SimulationEvent::Started, SimulationEvent::NewChampion(route.clone(), 1000)]
    );
    assert_eq!(agg.observe(1, SimulationEvent::Iteration(1000)), vec![SimulationEvent::Iteration(2000)]);
}

#[test]
fn iterations_are_summed_over_workers() {
    let mut agg = Aggregation::new(2);
    agg.observe(0, SimulationEvent::Started);
    agg.observe(1, SimulationEvent::Started);
    assert_eq!(agg.observe(0, SimulationEvent::Iteration(1000)), vec![SimulationEvent::Iteration(1000)]);
    assert_eq!(agg.observe(1, SimulationEvent::Iteration(1000)), vec![SimulationEvent::Iteration(2000)]);
    assert_eq!(agg.observe(0, SimulationEvent::Iteration(2000)), vec![SimulationEvent::Iteration(3000)]);
    assert_eq!(agg.iterations, vec![2000, 1000]);
}

#[test]
fn a_lower_count_does_not_take_back_iterations() {
    let mut agg = Aggregation::new(2);
    agg.observe(0, SimulationEvent::Started);
    agg.observe(1, SimulationEvent::Started);
    agg.observe(0, SimulationEvent::Iteration(3000));
    assert_eq!(agg.observe(0, SimulationEvent::Iteration(1000)), vec![SimulationEvent::Iteration(3000)]);
    assert_eq!(agg.iterations, vec![3000, 0]);
}

#[test]
fn iteration_sum_saturates() {
    let mut agg = Aggregation::new(2);
    agg.observe(0, SimulationEvent::Started);
    agg.observe(1, SimulationEvent::Started);
    agg.observe(0, SimulationEvent::Iteration(usize::MAX - 1));
    assert_eq!(agg.observe(1, SimulationEvent::Iteration(5)), vec![SimulationEvent::Iteration(usize::MAX)]);
}

#[test]
fn only_strictly_shorter_champions_are_passed_on() {
    let mut agg = Aggregation::new(2);
    agg.observe(0, SimulationEvent::Started);
    agg.observe(1, SimulationEvent::Started);
    let long = Route::new(vec![loc("A", 0, 0), loc("B", 10, 10), loc("C", 0, 10), loc("D", 10, 0)]);
    let short = Route::new(square_in_order());
    assert_eq!(long.distance, 38_284);
    assert_eq!(short.distance, 30_000);
    assert_eq!(
        agg.observe(0, SimulationEvent::NewChampion(long.clone(), 3)),
        vec![SimulationEvent::NewChampion(long.clone(), 3)]
    );
    assert_eq!(
        agg.observe(1, SimulationEvent::NewChampion(short.clone(), 4)),
        vec![SimulationEvent::NewChampion(short.clone(), 7)]
    );
    assert_eq!(agg.observe(0, SimulationEvent::NewChampion(short.clone(), 9)), vec![]);
    assert_eq!(agg.observe(0, SimulationEvent::NewChampion(long, 10)), vec![]);
    assert_eq!(agg.champion, Some(short));
    assert_eq!(agg.iterations, vec![10, 4]);
}

fn square_in_order() -> Vec<Location> {
    vec![loc("A", 0, 0), loc("C", 0, 10), loc("B", 10, 10), loc("D", 10, 0)]
}

#[test]
fn done_when_all_finished_or_stopped() {
    let mut agg = Aggregation::new(2);
    assert!(!agg.is_done(false));
    assert!(agg.is_done(true));
    assert_eq!(agg.observe(0, SimulationEvent::Finished), vec![]);
    assert!(!agg.is_done(false));
    assert_eq!(agg.observe(1, SimulationEvent::Finished), vec![]);
    assert!(agg.is_done(false));
}

#[test]
fn closing_keeps_started_first() {
    let mut agg = Aggregation::new(2);
    assert_eq!(agg.close(), vec![SimulationEvent::Started, SimulationEvent::Finished]);
    let route = Route::new(square_in_order());
    agg.observe(0, SimulationEvent::Started);
    agg.observe(0, SimulationEvent::NewChampion(route.clone(), 2));
    assert_eq!(
        agg.close(),
        vec![SimulationEvent::Started, SimulationEvent::NewChampion(route, 2), SimulationEvent::Finished]
    );
    agg.observe(1, SimulationEvent::Started);
    assert_eq!(agg.close(), vec![SimulationEvent::Finished]);
}

#[test]
fn configuration_validity() {
    assert!(ParallelSimulation::new(square()).is_valid());
    assert!(!ParallelSimulation { population_size: 7, ..ParallelSimulation::new(square()) }.is_valid());
    assert!(!ParallelSimulation { max_iterations: Some(10), assume_convergence: Some(10), ..ParallelSimulation::new(square()) }.is_valid());
    assert!(ParallelSimulation { max_iterations: None, ..ParallelSimulation::new(square()) }.is_valid());
}

#[test]
fn best_route_is_the_first_shortest() {
    let a = Route::new(vec![loc("A", 0, 0), loc("B", 0, 20)]);
    let b = Route::new(vec![loc("X", 0, 0), loc("Y", 0, 10)]);
    let c = Route::new(vec![loc("P", 0, 0), loc("Q", 10, 0)]);
    assert_eq!(best_route(&vec![a.clone(), b.clone(), c.clone()]), b);
    assert_eq!(best_route(&vec![a.clone()]), a);
}

#[test]
fn two_workers_on_a_square_merge_to_its_shortest_path() {
    let parallel = ParallelSimulation {
        max_iterations: Some(300),
        assume_convergence: Some(100),
        ..ParallelSimulation::new(square())
    };
    let mut agg = Aggregation::new(2);
    let passed = RefCell::new(Vec::new());
    let mut routes = Vec::new();
    for worker in 0..2 {
        let events = RefCell::new(Vec::new());
        let sim = parallel.worker_simulation();
        routes.push(sim.run(&Arc::new(AtomicBool::new(false)), |e| events.borrow_mut().push(e)));
        for e in events.into_inner() {
            for out in agg.observe(worker, e) {
                if let SimulationEvent::Iteration(t) = out {
                    assert!(agg.iterations.iter().all(|&i| i <= t));
                    assert_eq!(t, agg.iterations.iter().sum::<usize>());
                }
                passed.borrow_mut().push(out);
            }
        }
    }
    let best = best_route(&routes);
    assert_eq!(best.distance, 30_000);
    assert_eq!(agg.champion.as_ref().unwrap().distance, 30_000);
    let passed = passed.into_inner();
    assert_eq!(passed.iter().filter(|e| **e == SimulationEvent::Started).count(), 1);
    assert_eq!(passed[0], SimulationEvent::Started);
    assert!(agg.is_done(false));
}

#[test]
fn worker_configuration_copies_the_parallel_one() {
    let p = ParallelSimulation { population_size: 33, ..ParallelSimulation::new(square()) };
    let s = p.worker_simulation();
    assert_eq!(s.locations, square());
    assert_eq!(s.population_size, 33);
    assert_eq!(s.max_iterations, Some(100_000));
    assert_eq!(s.assume_convergence, Some(25_000));
}
