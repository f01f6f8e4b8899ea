//! A shared 32-bit counter incremented by two actors, modelled step by step.
//!
//! A run is a schedule: the order in which the two actors get to take a step.
//! Under the lock-guarded and atomic disciplines one step is a whole
//! increment, which nothing can interrupt. Without synchronization an
//! increment is two steps: a load of the shared value into the actor's own
//! register, then a store of that register plus one, so another actor's
//! steps may fall in between and updates may be lost.
use vstd::prelude::*;

verus! {

/// Increments that each actor performs in one run.
pub const REPEATS: u32 = 10000;

/// How the two actors coordinate their increments.
#[derive(Clone, Copy, Debug, PartialEq, Eq, Structural)]
pub enum Discipline {
    /// A plain load and store on shared memory.
    Unsynchronized,
    /// Each increment holds an exclusive lock over the counter.
    LockGuarded,
    /// Each increment is one fetch-and-add.
    Atomic,
}

/// One of the two actors of a run.
#[derive(Clone, Copy, Debug, PartialEq, Eq, Structural)]
pub enum Actor {
    First,
    Second,
}

/// What one actor has done so far.
#[derive(Clone, Copy, Debug, PartialEq, Eq, Structural)]
pub struct Participant {
    /// Increments completed.
    pub done: u32,
    /// A value loaded and not yet stored (unsynchronized discipline only).
    pub loaded: Option<u32>,
}

/// The shared counter and both actors, at one point of a run.
#[derive(Clone, Copy, Debug, PartialEq, Eq, Structural)]
pub struct RaceState {
    pub value: u32,
    pub first: Participant,
    pub second: Participant,
}

pub open spec fn participant(s: RaceState, a: Actor) -> Participant {
    match a {
        Actor::First => s.first,
        Actor::Second => s.second,
    }
}

pub open spec fn with_participant(s: RaceState, a: Actor, p: Participant) -> RaceState {
    match a {
        Actor::First => RaceState { first: p, ..s },
        Actor::Second => RaceState { second: p, ..s },
    }
}

/// Increments completed by both actors together.
pub open spec fn completed(s: RaceState) -> int {
    s.first.done + s.second.done
}

/// The state in which every run starts: counter zero, nothing done.
pub open spec fn initial_spec() -> RaceState {
    RaceState {
        value: 0,
        first: Participant { done: 0, loaded: None },
        second: Participant { done: 0, loaded: None },
    }
}

/// Both actors have performed all `repeats` increments.
pub open spec fn finished(s: RaceState, repeats: u32) -> bool {
    &&& s.first.done == repeats && s.first.loaded is None
    &&& s.second.done == repeats && s.second.loaded is None
}

/// One step of actor `a`. An actor that has finished its increments stays put.
pub open spec fn step_spec(d: Discipline, repeats: u32, s: RaceState, a: Actor) -> RaceState {
    let p = participant(s, a);
    match d {
        Discipline::Unsynchronized => match p.loaded {
            Some(x) => with_participant(
                RaceState { value: (x + 1) as u32, ..s },
                a,
                Participant { done: (p.done + 1) as u32, loaded: None },
            ),
            None => if p.done < repeats {
                with_participant(s, a, Participant { loaded: Some(s.value), ..p })
            } else {
                s
            },
        },
        _ => if p.done < repeats {
            with_participant(
                RaceState { value: (s.value + 1) as u32, ..s },
                a,
                Participant { done: (p.done + 1) as u32, ..p },
            )
        } else {
            s
        },
    }
}

/// The state after the actors take steps in the order `schedule` gives.
pub open spec fn run_spec(d: Discipline, repeats: u32, s: RaceState, schedule: Seq<Actor>) -> RaceState
    decreases schedule.len(),
{
    if schedule.len() == 0 {
        s
    } else {
        step_spec(d, repeats, run_spec(d, repeats, s, schedule.drop_last()), schedule.last())
    }
}

/// A value held in an actor's register is at most the increments completed
/// so far, and the actor still has an increment to finish.
pub open spec fn pending_ok(p: Participant, total: int, repeats: u32) -> bool {
    match p.loaded {
        Some(x) => x <= total && p.done < repeats,
        None => true,
    }
}

/// What holds of every state that a run reaches.
pub open spec fn reachable_inv(d: Discipline, repeats: u32, s: RaceState) -> bool {
    &&& 2 * repeats <= u32::MAX
    &&& s.first.done <= repeats
    &&& s.second.done <= repeats
    &&& match d {
        Discipline::Unsynchronized => {
            &&& s.value <= completed(s)
            &&& pending_ok(s.first, completed(s), repeats)
            &&& pending_ok(s.second, completed(s), repeats)
        },
        _ => {
            &&& s.value == completed(s)
            &&& s.first.loaded is None
            &&& s.second.loaded is None
        },
    }
}

proof fn lemma_step_keeps_inv(d: Discipline, repeats: u32, s: RaceState, a: Actor)
    requires
        reachable_inv(d, repeats, s),
    ensures
        reachable_inv(d, repeats, step_spec(d, repeats, s, a)),
        completed(s) <= completed(step_spec(d, repeats, s, a)),
{
}

proof fn lemma_run_keeps_inv(d: Discipline, repeats: u32, schedule: Seq<Actor>)
    requires
        2 * repeats <= u32::MAX,
    ensures
        reachable_inv(d, repeats, run_spec(d, repeats, initial_spec(), schedule)),
    decreases schedule.len(),
{
    if schedule.len() > 0 {
        lemma_run_keeps_inv(d, repeats, schedule.drop_last());
        lemma_step_keeps_inv(
            d,
            repeats,
            run_spec(d, repeats, initial_spec(), schedule.drop_last()),
            schedule.last(),
        );
    }
}

/// Under the lock-guarded and atomic disciplines no increment is lost: every
/// schedule that lets both actors finish leaves the counter at exactly twice
/// the repeat count.
pub proof fn lemma_indivisible_total(d: Discipline, repeats: u32, schedule: Seq<Actor>)
    requires
        d != Discipline::Unsynchronized,
        2 * repeats <= u32::MAX,
        finished(run_spec(d, repeats, initial_spec(), schedule), repeats),
    ensures
        run_spec(d, repeats, initial_spec(), schedule).value == 2 * repeats,
{
    lemma_run_keeps_inv(d, repeats, schedule);
}

/// Without synchronization the counter never exceeds twice the repeat count,
/// whatever the schedule and however far the run has got.
pub proof fn lemma_unsynchronized_bound(repeats: u32, schedule: Seq<Actor>)
    requires
        2 * repeats <= u32::MAX,
    ensures
        run_spec(Discipline::Unsynchronized, repeats, initial_spec(), schedule).value <= 2 * repeats,
{
    lemma_run_keeps_inv(Discipline::Unsynchronized, repeats, schedule);
}

/// Repeating a lock-guarded or atomic run gives the same final value, however
/// differently the two runs interleave.
pub proof fn lemma_indivisible_repeatable(
    d: Discipline,
    repeats: u32,
    schedule1: Seq<Actor>,
    schedule2: Seq<Actor>,
)
    requires
        d != Discipline::Unsynchronized,
        2 * repeats <= u32::MAX,
        finished(run_spec(d, repeats, initial_spec(), schedule1), repeats),
        finished(run_spec(d, repeats, initial_spec(), schedule2), repeats),
    ensures
        run_spec(d, repeats, initial_spec(), schedule1).value == run_spec(
            d,
            repeats,
            initial_spec(),
            schedule2,
        ).value,
{
    lemma_indivisible_total(d, repeats, schedule1);
    lemma_indivisible_total(d, repeats, schedule2);
}

/// The order of steps in which the two actors take turns, `First` first, for
/// `len` steps.
pub open spec fn alternating_spec(len: int) -> Seq<Actor> {
    Seq::new(len as nat, |t: int| if t % 2 == 0 { Actor::First } else { Actor::Second })
}

/// Settings of one benchmark run.
#[derive(Clone, Copy, Debug, PartialEq, Eq, Structural)]
pub struct BenchConfig {
    /// Increments that each of the two actors performs.
    pub repeats: u32,
}

impl BenchConfig {
    /// The standard run: `REPEATS` increments per actor.
    pub fn standard() -> (r: BenchConfig)
        ensures
            r.repeats == REPEATS,
    {
        BenchConfig { repeats: REPEATS }
    }

    /// The final value that a run without lost updates reaches.
    pub fn expected_total(&self) -> (r: u32)
        requires
            2 * self.repeats <= u32::MAX,
        ensures
            r == 2 * self.repeats,
    {
        2 * self.repeats
    }

    /// Increments lost in a run that ended at `observed`: how far it falls
    /// short of the expected total, zero where it does not.
    pub fn lost_updates(&self, observed: u32) -> (r: u32)
        requires
            2 * self.repeats <= u32::MAX,
        ensures
            r == (if observed < 2 * self.repeats {
                2 * self.repeats - observed
            } else {
                0
            }),
    {
        let expected = self.expected_total();
        if observed < expected {
            expected - observed
        } else {
            0
        }
    }
}

impl RaceState {
    /// The state in which every run starts.
    pub fn initial() -> (r: RaceState)
        ensures
            r == initial_spec(),
    {
        RaceState {
            value: 0,
            first: Participant { done: 0, loaded: None },
            second: Participant { done: 0, loaded: None },
        }
    }

    /// Lets actor `a` take one step under discipline `d`.
    pub fn step(&mut self, d: Discipline, repeats: u32, a: Actor)
        requires
            reachable_inv(d, repeats, *old(self)),
        ensures
            *final(self) == step_spec(d, repeats, *old(self), a),
            reachable_inv(d, repeats, *final(self)),
    {
        proof {
            lemma_step_keeps_inv(d, repeats, *self, a);
        }
        let p = match a {
            Actor::First => self.first,
            Actor::Second => self.second,
        };
        let next = match d {
            Discipline::Unsynchronized => match p.loaded {
                Some(x) => {
                    self.value = x + 1;
                    Participant { done: p.done + 1, loaded: None }
                },
                None => if p.done < repeats {
                    Participant { loaded: Some(self.value), ..p }
                } else {
                    p
                },
            },
            _ => if p.done < repeats {
                self.value = self.value + 1;
                Participant { done: p.done + 1, ..p }
            } else {
                p
            },
        };
        match a {
            Actor::First => self.first = next,
            Actor::Second => self.second = next,
        }
    }

    /// Whether both actors have performed all `repeats` increments.
    pub fn is_finished(&self, repeats: u32) -> (r: bool)
        ensures
            r == finished(*self, repeats),
    {
        self.first.done == repeats && self.first.loaded.is_none() && self.second.done == repeats
            && self.second.loaded.is_none()
    }
}

/// Runs the counter from zero under discipline `d`, the actors taking steps
/// in the order that `schedule` gives.
pub fn run_schedule(d: Discipline, repeats: u32, schedule: &Vec<Actor>) -> (r: RaceState)
    requires
        2 * repeats <= u32::MAX,
    ensures
        r == run_spec(d, repeats, initial_spec(), schedule@),
        reachable_inv(d, repeats, r),
{
    let mut s = RaceState::initial();
    proof {
        lemma_run_keeps_inv(d, repeats, schedule@.take(0));
        assert(schedule@.take(0) =~= Seq::<Actor>::empty());
    }
    let mut t: usize = 0;
    while t < schedule.len()
        invariant
            t <= schedule@.len(),
            2 * repeats <= u32::MAX,
            s == run_spec(d, repeats, initial_spec(), schedule@.take(t as int)),
            reachable_inv(d, repeats, s),
        decreases schedule@.len() - t,
    {
        s.step(d, repeats, schedule[t]);
        proof {
            assert(schedule@.take(t as int + 1).drop_last() =~= schedule@.take(t as int));
        }
        t = t + 1;
    }
    assert(schedule@.take(t as int) =~= schedule@);
    s
}

/// A schedule of `len` steps in which the actors take turns.
pub fn alternating_schedule(len: usize) -> (r: Vec<Actor>)
    ensures
        r@ == alternating_spec(len as int),
{
    let mut r: Vec<Actor> = Vec::with_capacity(len);
    let mut t: usize = 0;
    while t < len
        invariant
            t <= len,
            r@ == alternating_spec(t as int),
        decreases len - t,
    {
        if t % 2 == 0 {
            r.push(Actor::First);
        } else {
            r.push(Actor::Second);
        }
        t = t + 1;
        assert(r@ =~= alternating_spec(t as int));
    }
    r
}

} // verus!
