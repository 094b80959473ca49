use std::cell::RefCell;
use std::sync::atomic::AtomicBool;
use std::sync::Arc;
use tsp_sim::{Location, Route, Simulation, SimulationEvent};

fn loc(name: &str, x: i32, y: i32) -> Location {
    Location { name: name.to_owned(), x, y }
}

fn run_collecting(sim: &Simulation, stop: bool) -> (Route, Vec<SimulationEvent>) {
    let events = RefCell::new(Vec::new());
    let route = sim.run(&Arc::new(AtomicBool::new(stop)), |e| events.borrow_mut().push(e));
    (route, events.into_inner())
}

fn names(r: &Route) -> Vec<String> {
    let mut n: Vec<String> = r.locations.iter().map(|l| l.name.clone()).collect();
    n.sort();
    n
}

fn ten_points() -> Vec<Location> {
    vec![
        loc("A", 0, 0),
        loc("B", 40, 10),
        loc("C", 10, 30),
        loc("D", 70, 20),
        loc("E", 30, 80),
        loc("F", 90, 90),
        loc("G", 60, 50),
        loc("H", 20, 60),
        loc("I", 80, 0),
        loc("J", 50, 70),
    ]
}

#[test]
fn test_simulate_2_locations() {
    let locations = vec![loc("A", 0, 0), loc("B", 0, 10)];

    let simulation = Simulation::new(locations.to_owned());
    let solution = simulation.run(&Arc::new(AtomicBool::default()), |_| {});
    assert_eq!(solution, Route::new(locations))
}

#[test]
fn two_points_report_started_champion_finished() {
    let locations = vec![loc("A", 0, 0), loc("B", 0, 10)];
    let (route, events) = run_collecting(&Simulation::new(locations.clone()), false);
    assert_eq!(route.distance, 10_000);
    assert_eq!(route.locations, locations);
    assert_eq!(
        events,
        vec![
            SimulationEvent::Started,
            SimulationEvent::NewChampion(route.clone(), 0),
            SimulationEvent::Finished
        ]
    );
}

#[test]
fn one_and_no_points_keep_their_order() {
    for locations in [vec![], vec![loc("A", 3, 3)]] {
        let (route, events) = run_collecting(&Simulation::new(locations.clone()), false);
        assert_eq!(route.locations, locations);
        assert_eq!(route.distance, 0);
        assert_eq!(events.len(), 3);
        assert_eq!(events[0], SimulationEvent::Started);
        assert_eq!(events[1], SimulationEvent::NewChampion(route.clone(), 0));
        assert_eq!(events[2], SimulationEvent::Finished);
    }
}

#[test]
fn champions_only_get_shorter() {
    let sim = Simulation {
        population_size: 40,
        max_iterations: Some(3000),
        assume_convergence: Some(500),
        ..Simulation::new(ten_points())
    };
    let (route, events) = run_collecting(&sim, false);
    let mut last: Option<(u128, usize)> = None;
    for e in &events {
        if let SimulationEvent::NewChampion(r, i) = e {
            assert_eq!(r.distance, Route::new(r.locations.clone()).distance);
            if let Some((d, it)) = last {
                assert!(r.distance < d);
                assert!(*i > it);
            }
            last = Some((r.distance, *i));
        }
    }
    assert_eq!(last.unwrap().0, route.distance);
    assert_eq!(events[0], SimulationEvent::Started);
    assert_eq!(events[events.len() - 1], SimulationEvent::Finished);
    assert_eq!(names(&route), names(&Route::new(ten_points())));
}

#[test]
fn iterations_are_reported_every_thousand() {
    let sim = Simulation {
        population_size: 20,
        max_iterations: Some(2000),
        assume_convergence: None,
        ..Simulation::new(ten_points())
    };
    let (_, events) = run_collecting(&sim, false);
    let reported: Vec<usize> = events
        .iter()
        .filter_map(|e| match e {
            SimulationEvent::Iteration(i) => Some(*i),
            _ => None,
        })
        .collect();
    assert_eq!(reported, vec![1000, 2000]);
}

#[test]
fn triangle_converges_within_the_limit() {
    let sim = Simulation {
        max_iterations: None,
        assume_convergence: Some(5),
        ..Simulation::new(vec![loc("A", 0, 0), loc("B", 30, 0), loc("C", 0, 40)])
    };
    let (route, events) = run_collecting(&sim, false);
    // the best open path takes the two legs: 30 + 40
    assert_eq!(route.distance, 70_000);
    assert_eq!(events[events.len() - 1], SimulationEvent::Finished);
    assert!(!events.iter().any(|e| matches!(e, SimulationEvent::Iteration(_))));
}

#[test]
fn stop_before_the_first_generation_still_finishes() {
    let sim = Simulation::new(ten_points());
    let (route, events) = run_collecting(&sim, true);
    assert_eq!(events[0], SimulationEvent::Started);
    assert_eq!(events[events.len() - 1], SimulationEvent::Finished);
    assert_eq!(route.locations.len(), 10);
    assert_eq!(names(&route), names(&Route::new(ten_points())));
    assert_eq!(route.distance, Route::new(route.locations.clone()).distance);
}

#[test]
fn square_reaches_its_shortest_path() {
    let sim = Simulation {
        max_iterations: Some(200),
        assume_convergence: Some(50),
        ..Simulation::new(vec![loc("A", 0, 0), loc("B", 10, 10), loc("C", 0, 10), loc("D", 10, 0)])
    };
    let (route, _) = run_collecting(&sim, false);
    assert_eq!(route.distance, 30_000);
}

#[test]
fn should_stop_follows_the_limits() {
    let mut sim = Simulation::new(ten_points());
    let mut rng = rand::thread_rng();
    let mut e = sim.begin(&mut rng);
    assert!(!sim.should_stop(&e, false));
    assert!(sim.should_stop(&e, true));
    e.since_improvement = 25_000;
    assert!(sim.should_stop(&e, false));
    e.since_improvement = 0;
    e.iteration = 100_000;
    assert!(sim.should_stop(&e, false));
    sim.max_iterations = None;
    assert!(!sim.should_stop(&e, false));
    e.iteration = usize::MAX;
    assert!(sim.should_stop(&e, false));
}

#[test]
fn advance_never_lengthens_the_champion() {
    let sim = Simulation::new(ten_points());
    let mut rng = rand::thread_rng();
    let mut e = sim.begin(&mut rng);
    for step in 1..=50 {
        let before = e.champion.length;
        let improved = sim.advance(&mut e, &mut rng);
        assert_eq!(e.iteration, step);
        assert!(e.champion.length <= before);
        assert_eq!(improved, e.champion.length < before);
        if improved {
            assert_eq!(e.since_improvement, 0);
        }
        assert_eq!(e.population.len(), sim.population_size);
    }
}

#[test]
fn generation_events_report_champions_and_round_iterations() {
    let sim = Simulation::new(ten_points());
    let mut rng = rand::thread_rng();
    let mut e = sim.begin(&mut rng);
    e.iteration = 7;
    assert!(sim.generation_events(&e, false).is_empty());
    let events = sim.generation_events(&e, true);
    assert_eq!(events.len(), 1);
    match &events[0] {
        SimulationEvent::NewChampion(r, 7) => {
            assert_eq!(r.distance, e.champion.length);
            let expected: Vec<Location> = e.champion.order.iter().map(|&i| sim.locations[i].clone()).collect();
            assert_eq!(r.locations, expected);
        }
        other => panic!("unexpected event {:?}", other),
    }
    e.iteration = 3000;
    assert_eq!(sim.generation_events(&e, false), vec![SimulationEvent::Iteration(3000)]);
    let both = sim.generation_events(&e, true);
    assert_eq!(both.len(), 2);
    assert!(matches!(both[0], SimulationEvent::NewChampion(_, 3000)));
    assert_eq!(both[1], SimulationEvent::Iteration(3000));
}

#[test]
fn logged_run_returns_the_route_of_run() {
    let locations = vec![loc("A", 0, 0), loc("B", 0, 10)];
    let (route, _) = Simulation::new(locations.clone()).run_logged(&Arc::new(AtomicBool::new(false)), |_| {});
    assert_eq!(route, Route::new(locations));
}

#[test]
fn validity_of_configurations() {
    assert!(Simulation::new(ten_points()).is_valid());
    assert!(!Simulation { population_size: 7, ..Simulation::new(ten_points()) }.is_valid());
    assert!(!Simulation { max_iterations: Some(5), assume_convergence: Some(5), ..Simulation::new(ten_points()) }.is_valid());
    assert!(Simulation { max_iterations: None, assume_convergence: Some(5), ..Simulation::new(ten_points()) }.is_valid());
}
