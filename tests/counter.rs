use rand::Rng;

use contention::counter::{
    alternating_schedule, run_schedule, Actor, BenchConfig, Discipline, RaceState, REPEATS,
};

fn sequential_schedule(steps_each: usize) -> Vec<Actor> {
    let mut s = vec![Actor::First; steps_each];
    s.extend(vec![Actor::Second; steps_each]);
    s
}

#[test]
fn atomic_reaches_twice_repeats_in_repeated_runs() {
    let schedule = alternating_schedule(2 * REPEATS as usize);
    for _ in 0..100 {
        let end = run_schedule(Discipline::Atomic, REPEATS, &schedule);
        assert!(end.is_finished(REPEATS));
        assert_eq!(end.value, 20000);
    }
}

#[test]
fn lock_guarded_reaches_twice_repeats() {
    let end = run_schedule(Discipline::LockGuarded, REPEATS, &alternating_schedule(20000));
    assert!(end.is_finished(REPEATS));
    assert_eq!(end.value, 20000);
}

#[test]
fn indivisible_runs_agree_across_schedules() {
    let a = run_schedule(Discipline::Atomic, REPEATS, &alternating_schedule(20000));
    let b = run_schedule(Discipline::Atomic, REPEATS, &sequential_schedule(10000));
    let c = run_schedule(Discipline::LockGuarded, REPEATS, &sequential_schedule(10000));
    assert!(a.is_finished(REPEATS) && b.is_finished(REPEATS) && c.is_finished(REPEATS));
    assert_eq!(a.value, b.value);
    assert_eq!(b.value, c.value);
}

#[test]
fn unsynchronized_interleaving_loses_updates() {
    let end = run_schedule(Discipline::Unsynchronized, REPEATS, &alternating_schedule(40000));
    assert!(end.is_finished(REPEATS));
    assert_eq!(end.value, 10000);
    assert!(end.value <= 2 * REPEATS);
}

#[test]
fn unsynchronized_without_overlap_loses_nothing() {
    let end = run_schedule(Discipline::Unsynchronized, REPEATS, &sequential_schedule(20000));
    assert!(end.is_finished(REPEATS));
    assert_eq!(end.value, 20000);
}

#[test]
fn unsynchronized_values_vary_but_stay_bounded() {
    let mut schedule = alternating_schedule(6);
    schedule.extend(sequential_schedule(4));
    let end = run_schedule(Discipline::Unsynchronized, 2, &schedule);
    assert!(end.is_finished(2));
    assert!(end.value <= 4);
    let other = run_schedule(Discipline::Unsynchronized, 2, &sequential_schedule(4));
    assert_ne!(end.value, other.value);
}

#[test]
fn unsynchronized_step_loads_then_stores() {
    let mut s = RaceState::initial();
    s.step(Discipline::Unsynchronized, 3, Actor::First);
    assert_eq!(s.value, 0);
    assert_eq!(s.first.loaded, Some(0));
    s.step(Discipline::Unsynchronized, 3, Actor::Second);
    s.step(Discipline::Unsynchronized, 3, Actor::First);
    assert_eq!(s.value, 1);
    assert_eq!(s.first.done, 1);
    s.step(Discipline::Unsynchronized, 3, Actor::Second);
    assert_eq!(s.value, 1);
    assert_eq!(s.second.done, 1);
}

#[test]
fn finished_actor_stays_put() {
    let end = run_schedule(Discipline::Atomic, 2, &vec![Actor::First; 5]);
    assert_eq!(end.value, 2);
    assert_eq!(end.first.done, 2);
    assert_eq!(end.second.done, 0);
    assert!(!end.is_finished(2));
}

#[test]
fn empty_schedule_leaves_zero() {
    let end = run_schedule(Discipline::Atomic, REPEATS, &Vec::new());
    assert_eq!(end, RaceState::initial());
    assert_eq!(end.value, 0);
}

#[test]
fn config_totals_and_lost_updates() {
    let c = BenchConfig::standard();
    assert_eq!(c.repeats, 10000);
    assert_eq!(c.expected_total(), 20000);
    assert_eq!(c.lost_updates(20000), 0);
    assert_eq!(c.lost_updates(12345), 7655);
    assert_eq!(c.lost_updates(0), 20000);
}

fn random_schedule(len: usize) -> Vec<Actor> {
    let mut rng = rand::thread_rng();
    (0..len)
        .map(|_| if rng.gen_bool(0.5) { Actor::First } else { Actor::Second })
        .collect()
}

#[test]
fn random_interleavings_never_exceed_the_bound() {
    for _ in 0..50 {
        let schedule = random_schedule(600);
        let end = run_schedule(Discipline::Unsynchronized, 100, &schedule);
        assert!(end.value <= 200);
        assert!(end.value as u64 <= end.first.done as u64 + end.second.done as u64);
    }
}

#[test]
fn random_interleavings_of_atomic_increments_lose_nothing() {
    for _ in 0..50 {
        let mut schedule = random_schedule(300);
        schedule.extend(vec![Actor::First; 100]);
        schedule.extend(vec![Actor::Second; 100]);
        let end = run_schedule(Discipline::Atomic, 100, &schedule);
        assert!(end.is_finished(100));
        assert_eq!(end.value, 200);
    }
}
