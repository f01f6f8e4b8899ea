use contention::ring::{
    acquisition_order, left, pause_duration, right, run_to_completion, simulate, Phase, Table, PAUSE_BOUND,
    PHILOSOPHERS,
};

#[test]
fn neighbours_wrap_around() {
    assert_eq!(left(0, 10), 9);
    assert_eq!(right(0, 10), 1);
    assert_eq!(left(9, 10), 8);
    assert_eq!(right(9, 10), 0);
    assert_eq!(left(4, 10), 3);
    assert_eq!(right(4, 10), 5);
}

#[test]
fn lower_fork_comes_first() {
    assert_eq!(acquisition_order(0, 10), (1, 9));
    assert_eq!(acquisition_order(9, 10), (0, 8));
    assert_eq!(acquisition_order(4, 10), (3, 5));
    assert_eq!(acquisition_order(0, 2), (1, 1));
    assert_eq!(acquisition_order(1, 2), (0, 0));
}

#[test]
fn new_table_is_idle() {
    let t = Table::new(PHILOSOPHERS);
    assert_eq!(t.size(), 10);
    assert!(t.phase.iter().all(|&p| p == Phase::Thinking));
    assert!(t.holder.iter().all(|h| h.is_none()));
    assert!(t.all_fed(0));
    assert!(!t.all_fed(1));
}

#[test]
fn one_full_cycle_of_an_actor() {
    let mut t = Table::new(5);
    assert!(t.advance(2));
    assert_eq!(t.phase[2], Phase::Hungry);
    assert!(t.advance(2));
    assert_eq!(t.phase[2], Phase::HoldingFirst);
    assert_eq!(t.holder[1], Some(2));
    assert!(t.advance(2));
    assert_eq!(t.phase[2], Phase::Eating);
    assert_eq!(t.holder[3], Some(2));
    assert!(t.advance(2));
    assert_eq!(t.phase[2], Phase::Thinking);
    assert_eq!(t.holder[1], None);
    assert_eq!(t.holder[3], None);
    assert_eq!(t.meals[2], 1);
    assert_eq!(t.acquisitions[1], 1);
    assert_eq!(t.acquisitions[3], 1);
}

#[test]
fn held_fork_blocks_a_neighbour() {
    let mut t = Table::new(5);
    for _ in 0..3 {
        assert!(t.advance(2));
    }
    // actor 4 needs forks 3 and 0 and takes 0 first; actor 0 needs 4 and 1.
    assert!(t.advance(4));
    assert!(t.advance(4));
    assert_eq!(t.holder[0], Some(4));
    assert!(!t.advance(4));
    assert_eq!(t.phase[4], Phase::HoldingFirst);
    assert!(t.advance(0));
    assert!(!t.advance(0));
    assert_eq!(t.phase[0], Phase::Hungry);
    assert!(t.advance(2));
    assert!(t.advance(0));
    assert_eq!(t.holder[1], Some(0));
    assert!(t.advance(4));
    assert_eq!(t.phase[4], Phase::Eating);
}

#[test]
fn two_actors_share_one_fork_each() {
    let mut t = Table::new(2);
    assert!(t.advance(0));
    assert!(t.advance(0));
    assert_eq!(t.phase[0], Phase::Eating);
    assert_eq!(t.holder[1], Some(0));
    assert!(t.advance(1));
    assert!(t.advance(1));
    assert_eq!(t.phase[1], Phase::Eating);
    assert_eq!(t.holder[0], Some(1));
}

#[test]
fn ten_actors_thousand_meals_without_deadlock() {
    let run = simulate(PHILOSOPHERS, 1000, u64::MAX);
    assert!(run.finished);
    assert!(run.table.meals.iter().all(|&m| m == 1000));
    assert!(run.table.holder.iter().all(|h| h.is_none()));
    // every fork serves its two neighbours, once per meal of each
    assert!(run.table.acquisitions.iter().all(|&c| c == 2000));
    assert_eq!(run.steps, 10 * 1000 * 4);
}

#[test]
fn every_ring_size_finishes() {
    for n in 2..=12 {
        let run = simulate(n, 20, u64::MAX);
        assert!(run.finished);
        assert!(run.table.meals.iter().all(|&m| m == 20));
    }
}

#[test]
fn step_budget_stops_the_run() {
    let run = simulate(PHILOSOPHERS, 1000, 57);
    assert!(!run.finished);
    assert_eq!(run.steps, 57);
}

#[test]
fn zero_meals_is_already_done() {
    let run = simulate(3, 0, 10);
    assert!(run.finished);
    assert_eq!(run.steps, 0);
}

#[test]
fn pauses_stay_below_bound() {
    let mut rng = rand::thread_rng();
    let draws: Vec<u32> = (0..200).map(|_| pause_duration(&mut rng)).collect();
    assert!(draws.iter().all(|&d| d < PAUSE_BOUND));
    assert!(draws.iter().any(|&d| d != draws[0]));
}

#[test]
fn four_steps_per_meal_is_enough() {
    let run = simulate(PHILOSOPHERS, 1000, 40000);
    assert!(run.finished);
    assert_eq!(run.steps, 40000);
    let short = simulate(PHILOSOPHERS, 1000, 39999);
    assert!(!short.finished);
}

#[test]
fn two_actors_take_each_fork_once_per_meal() {
    let run = simulate(2, 50, u64::MAX);
    assert!(run.finished);
    assert!(run.table.acquisitions.iter().all(|&c| c == 50));
    assert_eq!(run.steps, 2 * 50 * 3);
}

#[test]
fn run_to_completion_feeds_everyone() {
    let run = run_to_completion(PHILOSOPHERS, 1000).expect("budget fits");
    assert!(run.finished);
    assert!(run.table.meals.iter().all(|&m| m == 1000));
    assert!(run.table.acquisitions.iter().all(|&c| c == 2000));
    let pair = run_to_completion(2, 7).expect("budget fits");
    assert!(pair.table.acquisitions.iter().all(|&c| c == 7));
}

#[test]
fn run_to_completion_refuses_an_unrepresentable_budget() {
    assert!(run_to_completion(3, u64::MAX / 4).is_none());
    assert!(run_to_completion(2, u64::MAX).is_none());
}
