use tsp_sim::genetic::{apply_swaps, diversify, splice, MATING_POOL_SIZE};
use tsp_sim::{Location, Route, Simulation, Tour};

fn points(n: i32) -> Vec<Location> {
    (0..n)
        .map(|i| Location { name: format!("P{}", i), x: (i * 37) % 101, y: (i * 53) % 89 })
        .collect()
}

fn sorted(order: &[usize]) -> Vec<usize> {
    let mut s = order.to_vec();
    s.sort();
    s
}

fn recomputed(t: &Tour, pts: &[Location]) -> u128 {
    Route::new(t.order.iter().map(|&i| pts[i].clone()).collect()).distance
}

fn simulation(n: i32) -> Simulation {
    Simulation { population_size: 60, ..Simulation::new(points(n)) }
}

#[test]
fn crossover_child_is_a_permutation_of_the_parent() {
    let mut rng = rand::thread_rng();
    for n in [3, 4, 5, 7, 10, 11, 25] {
        let sim = simulation(n);
        let population = sim.initial_random_population(&mut rng);
        for k in 0..40 {
            let x = &population[k % population.len()];
            let y = &population[(k * 7 + 1) % population.len()];
            let child = Simulation::mate(x, y, &sim.locations, &mut rng);
            assert_eq!(sorted(&child.order), (0..n as usize).collect::<Vec<_>>());
            assert_eq!(child.length, recomputed(&child, &sim.locations));
        }
    }
}

#[test]
fn crossover_of_a_route_with_itself_keeps_it() {
    let mut rng = rand::thread_rng();
    let sim = simulation(6);
    let t = Tour::new(&sim.locations, vec![0, 1, 2, 3, 4, 5]);
    for _ in 0..20 {
        let child = Simulation::mate(&t, &t, &sim.locations, &mut rng);
        assert_eq!(sorted(&child.order), vec![0, 1, 2, 3, 4, 5]);
    }
}

#[test]
fn initial_population_holds_random_permutations() {
    let mut rng = rand::thread_rng();
    let sim = simulation(8);
    let population = sim.initial_random_population(&mut rng);
    assert_eq!(population.len(), 60);
    for t in &population {
        assert_eq!(sorted(&t.order), (0..8).collect::<Vec<_>>());
        assert_eq!(t.length, recomputed(t, &sim.locations));
    }
    // 60 shuffles of 8 points all in the original order would be a broken shuffle
    assert!(population.iter().any(|t| t.order != (0..8).collect::<Vec<_>>()));
}

#[test]
fn mating_pool_is_sorted_and_exact() {
    let mut rng = rand::thread_rng();
    for n in [3, 5, 12] {
        let sim = simulation(n);
        let population = sim.initial_random_population(&mut rng);
        let pool = Simulation::select_mating_pool(&population, &sim.locations, &mut rng);
        assert_eq!(pool.len(), MATING_POOL_SIZE);
        for w in pool[..MATING_POOL_SIZE - 1].windows(2) {
            assert!(w[0].length <= w[1].length);
        }
        let best = population.iter().map(|t| t.length).min().unwrap();
        assert_eq!(pool[0].length, best);
        for t in &pool {
            assert_eq!(t.length, recomputed(t, &sim.locations));
            assert!(population.iter().any(|p| p.order == t.order));
        }
    }
}

#[test]
fn mating_pool_elite_is_distinct_when_possible() {
    let mut rng = rand::thread_rng();
    let sim = simulation(9);
    let population = sim.initial_random_population(&mut rng);
    let pool = Simulation::select_mating_pool(&population, &sim.locations, &mut rng);
    for i in 0..MATING_POOL_SIZE - 1 {
        for j in i + 1..MATING_POOL_SIZE - 1 {
            assert_ne!(pool[i].order, pool[j].order);
        }
    }
}

#[test]
fn next_generation_has_the_population_size_and_keeps_the_pool() {
    let mut rng = rand::thread_rng();
    for size in [8, 9, 20, 60] {
        let sim = Simulation { population_size: size, ..Simulation::new(points(7)) };
        let population = sim.initial_random_population(&mut rng);
        let pool = Simulation::select_mating_pool(&population, &sim.locations, &mut rng);
        let next = sim.next_generation(&pool, &mut rng);
        assert_eq!(next.len(), size);
        for (k, t) in pool.iter().enumerate() {
            assert_eq!(next[size - MATING_POOL_SIZE + k].order, t.order);
        }
        for t in &next {
            assert_eq!(sorted(&t.order), (0..7).collect::<Vec<_>>());
            assert_eq!(t.length, recomputed(t, &sim.locations));
        }
    }
}

#[test]
fn mutation_leaves_short_routes_and_permutes_long_ones() {
    let mut rng = rand::thread_rng();
    let sim = simulation(10);
    let mut population = sim.initial_random_population(&mut rng);
    let before: Vec<Vec<usize>> = population.iter().map(|t| t.order.clone()).collect();
    let threshold = population[0].length;
    Simulation::mutate(&mut population, threshold, &sim.locations, &mut rng);
    for (t, old) in population.iter().zip(before.iter()) {
        assert_eq!(sorted(&t.order), (0..10).collect::<Vec<_>>());
        assert_eq!(t.length, recomputed(t, &sim.locations));
        let old_length = Tour::new(&sim.locations, old.clone()).length;
        if old_length <= threshold {
            assert_eq!(&t.order, old);
        }
    }
}

#[test]
fn swaps_keep_a_permutation() {
    let mut rng = rand::thread_rng();
    let sim = simulation(5);
    let mut t = Tour::new(&sim.locations, vec![4, 3, 2, 1, 0]);
    let length = t.length;
    Simulation::swap_genes(10, &mut t, 5, &mut rng);
    assert_eq!(sorted(&t.order), vec![0, 1, 2, 3, 4]);
    assert_eq!(t.length, length);
}

#[test]
fn mating_pool_is_distinct_or_holds_every_route() {
    let mut rng = rand::thread_rng();
    // three points have only six orders
    let sim = simulation(3);
    let population = sim.initial_random_population(&mut rng);
    let pool = Simulation::select_mating_pool(&population, &sim.locations, &mut rng);
    let distinct = (0..pool.len()).all(|i| (i + 1..pool.len()).all(|j| pool[i].order != pool[j].order));
    let holds_every = population.iter().all(|p| pool.iter().any(|t| t.order == p.order));
    assert!(distinct || holds_every);
}

#[test]
fn splice_puts_the_slice_at_the_cut() {
    let x = vec![0, 1, 2, 3, 4, 5];
    let y = vec![5, 3, 1, 0, 4, 2];
    // slice [1, 2, 3]; the others in y's order: 5, 0, 4
    assert_eq!(splice(&x, &y, 1, 4, 0), vec![1, 2, 3, 5, 0, 4]);
    assert_eq!(splice(&x, &y, 1, 4, 2), vec![5, 1, 2, 3, 0, 4]);
    assert_eq!(splice(&x, &y, 1, 4, 6), vec![5, 0, 4, 1, 2, 3]);
}

#[test]
fn crossover_of_reversed_triangle_is_fixed() {
    let mut rng = rand::thread_rng();
    let sim = simulation(3);
    let x = Tour::new(&sim.locations, vec![0, 1, 2]);
    let y = Tour::new(&sim.locations, vec![2, 1, 0]);
    for _ in 0..30 {
        assert_eq!(Simulation::mate(&x, &y, &sim.locations, &mut rng).order, vec![2, 0, 1]);
    }
}

#[test]
fn swaps_apply_in_turn() {
    let mut order = vec![0, 1, 2, 3];
    apply_swaps(&mut order, &vec![(0, 3), (1, 2), (3, 3)]);
    assert_eq!(order, vec![3, 2, 1, 0]);
    apply_swaps(&mut order, &vec![(0, 1), (1, 2)]);
    assert_eq!(order, vec![2, 1, 3, 0]);
}

#[test]
fn mating_pool_elite_holds_the_shortest_routes() {
    let mut rng = rand::thread_rng();
    let sim = simulation(9);
    let population = sim.initial_random_population(&mut rng);
    let pool = Simulation::select_mating_pool(&population, &sim.locations, &mut rng);
    let elite = &pool[..MATING_POOL_SIZE - 1];
    for p in &population {
        assert!(elite.iter().any(|t| t.order == p.order) || p.length >= elite[elite.len() - 1].length);
    }
}

#[test]
fn diversify_takes_the_first_missing_draw() {
    let mut rng = rand::thread_rng();
    let sim = simulation(8);
    let population = sim.initial_random_population(&mut rng);
    let pool = Simulation::select_mating_pool(&population, &sim.locations, &mut rng);
    let missing: Vec<usize> =
        (0..population.len()).filter(|&j| !pool.iter().any(|t| t.order == population[j].order)).collect();
    let held: Vec<usize> =
        (0..population.len()).filter(|&j| pool.iter().any(|t| t.order == population[j].order)).collect();
    let mut unchanged = pool.iter().map(|t| Tour::new(&sim.locations, t.order.clone())).collect::<Vec<_>>();
    diversify(&mut unchanged, &population, &vec![held[0]], &sim.locations);
    assert!(unchanged.iter().zip(pool.iter()).all(|(a, b)| a.order == b.order));
    let mut changed = pool.iter().map(|t| Tour::new(&sim.locations, t.order.clone())).collect::<Vec<_>>();
    diversify(&mut changed, &population, &vec![held[0], missing[0], missing[1]], &sim.locations);
    assert_eq!(changed[MATING_POOL_SIZE - 1].order, population[missing[0]].order);
    for i in 0..MATING_POOL_SIZE - 1 {
        assert_eq!(changed[i].order, pool[i].order);
    }
}
