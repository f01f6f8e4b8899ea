//! The resource ring: `n` actors and `n` forks arranged in a circle.
//!
//! Actor `i` needs forks `(i + n - 1) % n` and `(i + 1) % n`. It takes them in
//! ascending index order, one at a time, which rules out a circular wait: the
//! actor holding the highest-numbered taken fork is never blocked.
//! The `Table` records who holds which fork and where each actor is in its
//! cycle of thinking, waiting for forks, and eating.
use vstd::prelude::*;
use crate::random::gen_below;

verus! {

/// Actors (and forks) around the table.
pub const PHILOSOPHERS: usize = 10;
/// Exclusive upper bound of a thinking or eating pause.
pub const PAUSE_BOUND: u32 = 5000;

/// Where an actor is in its cycle.
#[derive(Clone, Copy, Debug, PartialEq, Eq, Structural)]
pub enum Phase {
    /// Holds no fork and wants none.
    Thinking,
    /// Holds no fork and waits for its lower fork.
    Hungry,
    /// Holds its lower fork and waits for its higher one.
    HoldingFirst,
    /// Holds all the forks it needs.
    Eating,
}

/// The fork to the left of actor `i`, that is `(i + n - 1) % n` for `i < n`.
pub open spec fn left_spec(i: int, n: int) -> int {
    if i == 0 {
        n - 1
    } else {
        i - 1
    }
}

/// The fork to the right of actor `i`, that is `(i + 1) % n` for `i < n`.
pub open spec fn right_spec(i: int, n: int) -> int {
    if i + 1 == n {
        0
    } else {
        i + 1
    }
}

/// The fork that actor `i` takes first: the lower of the two it needs.
pub open spec fn first_fork(i: int, n: int) -> int {
    if left_spec(i, n) <= right_spec(i, n) {
        left_spec(i, n)
    } else {
        right_spec(i, n)
    }
}

/// The fork that actor `i` takes second: the higher of the two it needs.
pub open spec fn second_fork(i: int, n: int) -> int {
    if left_spec(i, n) <= right_spec(i, n) {
        right_spec(i, n)
    } else {
        left_spec(i, n)
    }
}

/// Whether actor `i`, in phase `p`, holds fork `k`.
pub open spec fn holds(p: Phase, i: int, n: int, k: int) -> bool {
    ||| p == Phase::HoldingFirst && k == first_fork(i, n)
    ||| p == Phase::Eating && (k == first_fork(i, n) || k == second_fork(i, n))
}

/// The fork to its left of actor `i`.
pub fn left(i: usize, n: usize) -> (r: usize)
    requires
        i < n,
    ensures
        r == left_spec(i as int, n as int),
        r < n,
{
    if i == 0 {
        n - 1
    } else {
        i - 1
    }
}

/// The fork to its right of actor `i`.
pub fn right(i: usize, n: usize) -> (r: usize)
    requires
        i < n,
    ensures
        r == right_spec(i as int, n as int),
        r < n,
{
    if i + 1 == n {
        0
    } else {
        i + 1
    }
}

/// The two forks that actor `i` needs, lower index first. Where `n` is 2 both
/// neighbours are the same fork and the pair holds it twice.
pub fn acquisition_order(i: usize, n: usize) -> (r: (usize, usize))
    requires
        i < n,
    ensures
        r.0 == first_fork(i as int, n as int),
        r.1 == second_fork(i as int, n as int),
        r.0 <= r.1 < n,
{
    let l = left(i, n);
    let r = right(i, n);
    if l <= r {
        (l, r)
    } else {
        (r, l)
    }
}

/// A pause for thinking or eating, drawn below `PAUSE_BOUND`.
pub fn pause_duration(rng: &mut rand::rngs::ThreadRng) -> (r: u32)
    ensures
        r < PAUSE_BOUND,
{
    gen_below(rng, PAUSE_BOUND)
}

/// What a `Table` holds, as sequences indexed by fork and by actor.
pub struct TableModel {
    /// For each fork, the actor holding it.
    pub holder: Seq<Option<usize>>,
    /// For each actor, its phase.
    pub phase: Seq<Phase>,
    /// For each fork, how many times it has been taken.
    pub acquisitions: Seq<u64>,
    /// For each actor, how many meals it has finished.
    pub meals: Seq<u64>,
}

/// The forks and actors of the ring, with event counts.
pub struct Table {
    pub holder: Vec<Option<usize>>,
    pub phase: Vec<Phase>,
    pub acquisitions: Vec<u64>,
    pub meals: Vec<u64>,
}

impl View for Table {
    type V = TableModel;

    open spec fn view(&self) -> TableModel {
        TableModel {
            holder: self.holder@,
            phase: self.phase@,
            acquisitions: self.acquisitions@,
            meals: self.meals@,
        }
    }
}

/// Number of actors of a table.
pub open spec fn size(m: TableModel) -> int {
    m.phase.len() as int
}

/// The table is consistent: a fork is recorded as held by an actor exactly
/// when that actor's phase says it holds the fork.
pub open spec fn well_formed(m: TableModel) -> bool {
    let n = size(m);
    &&& 2 <= n <= usize::MAX
    &&& m.holder.len() == n
    &&& m.acquisitions.len() == n
    &&& m.meals.len() == n
    &&& forall|k: int| 0 <= k < n && (#[trigger] m.holder[k]) is Some ==> {
        let a = m.holder[k]->Some_0 as int;
        &&& a < n
        &&& holds(m.phase[a], a, n, k)
    }
    &&& forall|a: int, k: int|
        0 <= a < n && 0 <= k < n && #[trigger] holds(m.phase[a], a, n, k) ==> m.holder[k] == Some(
            a as usize,
        )
    &&& forall|a: int|
        0 <= a < n && #[trigger] m.phase[a] == Phase::HoldingFirst ==> first_fork(a, n)
            != second_fork(a, n)
}

/// Whether actor `a` can take its next step now: it is not waiting for a fork
/// that another actor holds.
pub open spec fn enabled(m: TableModel, a: int) -> bool {
    match m.phase[a] {
        Phase::Hungry => m.holder[first_fork(a, size(m))] is None,
        Phase::HoldingFirst => m.holder[second_fork(a, size(m))] is None,
        _ => true,
    }
}

/// The table after actor `a` takes its next step, where it can.
pub open spec fn advance_spec(m: TableModel, a: int) -> TableModel {
    let n = size(m);
    let f = first_fork(a, n);
    let s = second_fork(a, n);
    if !enabled(m, a) {
        m
    } else {
        match m.phase[a] {
            Phase::Thinking => TableModel { phase: m.phase.update(a, Phase::Hungry), ..m },
            Phase::Hungry => TableModel {
                holder: m.holder.update(f, Some(a as usize)),
                phase: m.phase.update(
                    a,
                    if f == s {
                        Phase::Eating
                    } else {
                        Phase::HoldingFirst
                    },
                ),
                acquisitions: m.acquisitions.update(f, (m.acquisitions[f] + 1) as u64),
                ..m
            },
            Phase::HoldingFirst => TableModel {
                holder: m.holder.update(s, Some(a as usize)),
                phase: m.phase.update(a, Phase::Eating),
                acquisitions: m.acquisitions.update(s, (m.acquisitions[s] + 1) as u64),
                ..m
            },
            Phase::Eating => TableModel {
                holder: m.holder.update(f, None).update(s, None),
                phase: m.phase.update(a, Phase::Thinking),
                meals: m.meals.update(a, (m.meals[a] + 1) as u64),
                ..m
            },
        }
    }
}

proof fn lemma_forks_in_range(a: int, n: int)
    requires
        0 <= a < n,
        2 <= n,
    ensures
        0 <= first_fork(a, n) <= second_fork(a, n) < n,
        first_fork(a, n) == second_fork(a, n) <==> n <= 2,
{
}

/// Two different actors never hold the same fork at once.
pub proof fn lemma_mutual_exclusion(m: TableModel, a: int, b: int, k: int)
    requires
        well_formed(m),
        0 <= a < size(m),
        0 <= b < size(m),
        0 <= k < size(m),
        a != b,
    ensures
        !(holds(m.phase[a], a, size(m), k) && holds(m.phase[b], b, size(m), k)),
{
}

/// The highest-numbered fork below `top` that is held, given that one is.
proof fn lemma_highest_held(m: TableModel, top: int) -> (k: int)
    requires
        well_formed(m),
        0 <= top <= size(m),
        exists|x: int| 0 <= x < top && (#[trigger] m.holder[x]) is Some,
    ensures
        0 <= k < top,
        m.holder[k] is Some,
        forall|x: int| k < x < top ==> (#[trigger] m.holder[x]) is None,
    decreases top,
{
    if m.holder[top - 1] is Some {
        top - 1
    } else {
        let k = lemma_highest_held(m, top - 1);
        assert forall|x: int| k < x < top implies (#[trigger] m.holder[x]) is None by {
            if x < top - 1 {
                assert(m.holder[x] is None);
            }
        }
        k
    }
}

/// No circular wait: while some actor is not thinking, some actor that is
/// not thinking can take its next step.
pub proof fn lemma_no_circular_wait(m: TableModel, a: int)
    requires
        well_formed(m),
        0 <= a < size(m),
        m.phase[a] != Phase::Thinking,
    ensures
        exists|b: int| 0 <= b < size(m) && m.phase[b] != Phase::Thinking && #[trigger] enabled(m, b),
{
    let n = size(m);
    lemma_forks_in_range(a, n);
    if exists|x: int| 0 <= x < n && (#[trigger] m.holder[x]) is Some {
        let k = lemma_highest_held(m, n);
        let b = m.holder[k]->Some_0 as int;
        lemma_forks_in_range(b, n);
        assert(holds(m.phase[b], b, n, k));
        if m.phase[b] == Phase::HoldingFirst {
            assert(m.holder[second_fork(b, n)] is None);
        }
        assert(enabled(m, b));
    } else {
        if m.phase[a] != Phase::Hungry {
            assert(holds(m.phase[a], a, n, first_fork(a, n)));
            assert(m.holder[first_fork(a, n)] is Some);
        }
        assert(enabled(m, a));
    }
}

proof fn lemma_advance_keeps_well_formed(m: TableModel, a: int)
    requires
        well_formed(m),
        0 <= a < size(m),
    ensures
        well_formed(advance_spec(m, a)),
        size(advance_spec(m, a)) == size(m),
{
    let n = size(m);
    let t = advance_spec(m, a);
    lemma_forks_in_range(a, n);
    assert forall|k: int| 0 <= k < n && (#[trigger] t.holder[k]) is Some implies {
        let b = t.holder[k]->Some_0 as int;
        &&& b < n
        &&& holds(t.phase[b], b, n, k)
    } by {
        if m.holder[k] is Some {
            let b = m.holder[k]->Some_0 as int;
            assert(holds(m.phase[b], b, n, k));
        }
    }
    assert forall|b: int, k: int|
        0 <= b < n && 0 <= k < n && #[trigger] holds(t.phase[b], b, n, k) implies t.holder[k]
        == Some(b as usize) by {
        if m.phase[a] == Phase::Eating || m.phase[a] == Phase::HoldingFirst {
            assert(holds(m.phase[a], a, n, first_fork(a, n)));
        }
        if m.phase[a] == Phase::Eating {
            assert(holds(m.phase[a], a, n, second_fork(a, n)));
        }
        if b != a || !enabled(m, a) {
            assert(holds(m.phase[b], b, n, k));
        }
    }
}

impl Table {
    /// A table of `n` actors, all thinking, with every fork free and no
    /// events counted.
    pub fn new(n: usize) -> (r: Table)
        requires
            n >= 2,
        ensures
            well_formed(r@),
            tallies_agree(r@),
            size(r@) == n,
            forall|i: int| 0 <= i < n ==> #[trigger] r@.phase[i] == Phase::Thinking,
            forall|i: int| 0 <= i < n ==> #[trigger] r@.holder[i] is None,
            forall|i: int| 0 <= i < n ==> #[trigger] r@.acquisitions[i] == 0,
            forall|i: int| 0 <= i < n ==> #[trigger] r@.meals[i] == 0,
    {
        let mut t = Table {
            holder: Vec::with_capacity(n),
            phase: Vec::with_capacity(n),
            acquisitions: Vec::with_capacity(n),
            meals: Vec::with_capacity(n),
        };
        let mut i: usize = 0;
        while i < n
            invariant
                i <= n,
                t.holder@.len() == i,
                t.phase@.len() == i,
                t.acquisitions@.len() == i,
                t.meals@.len() == i,
                forall|j: int| 0 <= j < i ==> #[trigger] t.phase@[j] == Phase::Thinking,
                forall|j: int| 0 <= j < i ==> #[trigger] t.holder@[j] is None,
                forall|j: int| 0 <= j < i ==> #[trigger] t.acquisitions@[j] == 0,
                forall|j: int| 0 <= j < i ==> #[trigger] t.meals@[j] == 0,
            decreases n - i,
        {
            t.holder.push(None);
            t.phase.push(Phase::Thinking);
            t.acquisitions.push(0);
            t.meals.push(0);
            i = i + 1;
        }
        t
    }

    /// Number of actors.
    pub fn size(&self) -> (r: usize)
        ensures
            r == size(self@),
    {
        self.phase.len()
    }

    /// Lets actor `a` take its next step, where no other actor holds the fork
    /// it waits for: a thinking actor becomes hungry, a hungry one takes its
    /// lower fork, one holding that takes its higher fork and eats, and an
    /// eating one puts both forks down, counts the meal and thinks again.
    /// Returns whether the actor moved.
    pub fn advance(&mut self, a: usize) -> (moved: bool)
        requires
            well_formed(old(self)@),
            a < size(old(self)@),
            forall|k: int| 0 <= k < size(old(self)@) ==> #[trigger] old(self)@.acquisitions[k] < u64::MAX,
            old(self)@.meals[a as int] < u64::MAX,
        ensures
            moved == enabled(old(self)@, a as int),
            final(self)@ == advance_spec(old(self)@, a as int),
            well_formed(final(self)@),
    {
        proof {
            lemma_advance_keeps_well_formed(self@, a as int);
            lemma_forks_in_range(a as int, size(self@));
        }
        let n = self.phase.len();
        let (f, s) = acquisition_order(a, n);
        let ghost before = self@;
        let moved = match self.phase[a] {
            Phase::Thinking => {
                self.phase[a] = Phase::Hungry;
                true
            },
            Phase::Hungry => if self.holder[f].is_none() {
                self.holder[f] = Some(a);
                self.acquisitions[f] = self.acquisitions[f] + 1;
                if f == s {
                    self.phase[a] = Phase::Eating;
                } else {
                    self.phase[a] = Phase::HoldingFirst;
                }
                true
            } else {
                false
            },
            Phase::HoldingFirst => if self.holder[s].is_none() {
                self.holder[s] = Some(a);
                self.acquisitions[s] = self.acquisitions[s] + 1;
                self.phase[a] = Phase::Eating;
                true
            } else {
                false
            },
            Phase::Eating => {
                self.holder[f] = None;
                self.holder[s] = None;
                self.meals[a] = self.meals[a] + 1;
                self.phase[a] = Phase::Thinking;
                true
            },
        };
        assert(self@.holder =~= advance_spec(before, a as int).holder);
        assert(self@.phase =~= advance_spec(before, a as int).phase);
        assert(self@.acquisitions =~= advance_spec(before, a as int).acquisitions);
        assert(self@.meals =~= advance_spec(before, a as int).meals);
        moved
    }

    /// Whether every actor has finished `meals_each` meals.
    pub fn all_fed(&self, meals_each: u64) -> (r: bool)
        ensures
            r == forall|i: int| 0 <= i < self@.meals.len() ==> #[trigger] self@.meals[i] == meals_each,
    {
        let mut i: usize = 0;
        while i < self.meals.len()
            invariant
                i <= self@.meals.len(),
                forall|j: int| 0 <= j < i ==> #[trigger] self@.meals[j] == meals_each,
            decreases self@.meals.len() - i,
        {
            if self.meals[i] != meals_each {
                return false;
            }
            i = i + 1;
        }
        true
    }
}

/// Acquisitions of fork `k` that actor `u` accounts for: one per finished
/// meal, and one more while it holds the fork.
pub open spec fn uses_of(m: TableModel, u: int, k: int) -> int {
    m.meals[u] + if holds(m.phase[u], u, size(m), k) {
        1int
    } else {
        0int
    }
}

/// Acquisitions of fork `k` that its users account for. Fork `k` is the left
/// fork of actor `right_spec(k, n)` and the right fork of actor
/// `left_spec(k, n)`; with two actors these are one and the same.
pub open spec fn fork_tally(m: TableModel, k: int) -> int {
    let n = size(m);
    if right_spec(k, n) == left_spec(k, n) {
        uses_of(m, right_spec(k, n), k)
    } else {
        uses_of(m, right_spec(k, n), k) + uses_of(m, left_spec(k, n), k)
    }
}

/// Every fork has been taken exactly as often as its users account for.
pub open spec fn tallies_agree(m: TableModel) -> bool {
    forall|k: int| 0 <= k < size(m) ==> #[trigger] m.acquisitions[k] == fork_tally(m, k)
}

proof fn lemma_advance_keeps_tallies(m: TableModel, a: int)
    requires
        well_formed(m),
        tallies_agree(m),
        0 <= a < size(m),
        forall|k: int| 0 <= k < size(m) ==> #[trigger] m.acquisitions[k] < u64::MAX,
        m.meals[a] < u64::MAX,
    ensures
        tallies_agree(advance_spec(m, a)),
{
    let n = size(m);
    let t = advance_spec(m, a);
    lemma_forks_in_range(a, n);
    assert forall|k: int| 0 <= k < n implies #[trigger] t.acquisitions[k] == fork_tally(t, k) by {
        assert(m.acquisitions[k] == fork_tally(m, k));
        lemma_forks_in_range(right_spec(k, n), n);
        lemma_forks_in_range(left_spec(k, n), n);
        if m.phase[a] == Phase::Eating || m.phase[a] == Phase::HoldingFirst {
            assert(holds(m.phase[a], a, n, first_fork(a, n)));
        }
    }
}

/// How far into its current cycle a phase is; a cycle takes four steps.
pub open spec fn phase_rank(p: Phase) -> int {
    match p {
        Phase::Thinking => 0,
        Phase::Hungry => 1,
        Phase::HoldingFirst => 2,
        Phase::Eating => 3,
    }
}

/// Steps' worth of progress that actor `a` has made: four per meal, plus
/// the part of the current cycle.
pub open spec fn progress(m: TableModel, a: int) -> int {
    4 * m.meals[a] + phase_rank(m.phase[a])
}

/// Progress of the actors below `upto`, added up.
pub open spec fn total_progress(m: TableModel, upto: int) -> int
    decreases upto,
{
    if upto <= 0 {
        0
    } else {
        total_progress(m, upto - 1) + progress(m, upto - 1)
    }
}

proof fn lemma_total_progress_nonneg(m: TableModel, upto: int)
    ensures
        0 <= total_progress(m, upto),
    decreases upto,
{
    if upto > 0 {
        lemma_total_progress_nonneg(m, upto - 1);
    }
}

proof fn lemma_total_progress_frame(m1: TableModel, m2: TableModel, a: int, upto: int)
    requires
        0 <= a,
        forall|i: int| 0 <= i < upto && i != a ==> progress(m1, i) == progress(m2, i),
    ensures
        total_progress(m2, upto) == total_progress(m1, upto) + if a < upto {
            progress(m2, a) - progress(m1, a)
        } else {
            0
        },
    decreases upto,
{
    if upto > 0 {
        lemma_total_progress_frame(m1, m2, a, upto - 1);
    }
}

proof fn lemma_total_progress_bound(m: TableModel, upto: int, cap: int)
    requires
        0 <= upto,
        forall|i: int| 0 <= i < upto ==> progress(m, i) <= cap,
    ensures
        total_progress(m, upto) <= upto * cap,
        (exists|i: int| 0 <= i < upto && progress(m, i) < cap) ==> total_progress(m, upto) < upto
            * cap,
    decreases upto,
{
    if upto > 0 {
        lemma_total_progress_bound(m, upto - 1, cap);
        assert((upto - 1) * cap + cap == upto * cap) by (nonlinear_arith);
        if exists|i: int| 0 <= i < upto && progress(m, i) < cap {
            let i = choose|i: int| 0 <= i < upto && progress(m, i) < cap;
            if i < upto - 1 {
                assert(exists|j: int| 0 <= j < upto - 1 && progress(m, j) < cap);
            }
        }
    }
}

/// The outcome of a simulated run of the ring.
pub struct Simulation {
    /// The table as the run left it.
    pub table: Table,
    /// Steps that actors took.
    pub steps: u64,
    /// Whether every actor finished its meals.
    pub finished: bool,
}

/// Runs `n` actors round robin, each taking its next step in turn until it
/// has eaten `meals_each` times, and stops when all have or after `max_steps`
/// steps. An actor waiting for a held fork stays where it is; the run never
/// stalls, since in every round some actor moves, and every step brings one
/// actor closer to its last meal, so `4 * n * meals_each` steps are always
/// enough for all of them.
pub fn simulate(n: usize, meals_each: u64, max_steps: u64) -> (r: Simulation)
    requires
        n >= 2,
    ensures
        well_formed(r.table@),
        size(r.table@) == n,
        r.steps <= max_steps,
        r.finished == forall|i: int| 0 <= i < n ==> #[trigger] r.table@.meals[i] == meals_each,
        r.finished || r.steps == max_steps,
        4 * n * meals_each <= max_steps ==> r.finished,
        tallies_agree(r.table@),
        r.finished && n >= 3 ==> forall|k: int|
            0 <= k < n ==> #[trigger] r.table@.acquisitions[k] == 2 * meals_each,
        r.finished && n == 2 ==> forall|k: int|
            0 <= k < n ==> #[trigger] r.table@.acquisitions[k] == meals_each,
        forall|i: int| 0 <= i < n ==> #[trigger] r.table@.meals[i] <= meals_each,
        forall|i: int|
            0 <= i < n && #[trigger] r.table@.meals[i] == meals_each ==> r.table@.phase[i]
                == Phase::Thinking,
{
    let mut table = Table::new(n);
    let mut steps: u64 = 0;
    let mut finished = table.all_fed(meals_each);
    proof {
        lemma_total_progress_nonneg(table@, n as int);
    }
    while !finished && steps < max_steps
        invariant
            well_formed(table@),
            size(table@) == n,
            steps <= max_steps,
            finished == forall|i: int| 0 <= i < n ==> #[trigger] table@.meals[i] == meals_each,
            forall|i: int| 0 <= i < n ==> #[trigger] table@.meals[i] <= meals_each,
            forall|i: int|
                0 <= i < n && #[trigger] table@.meals[i] == meals_each ==> table@.phase[i]
                    == Phase::Thinking,
            forall|k: int| 0 <= k < n ==> #[trigger] table@.acquisitions[k] <= steps,
            steps <= total_progress(table@, n as int),
            tallies_agree(table@),
        decreases max_steps - steps,
    {
        let ghost start = table@;
        let ghost steps0 = steps;
        let mut a: usize = 0;
        while a < n && steps < max_steps
            invariant
                a <= n,
                well_formed(table@),
                size(table@) == n,
                steps0 <= steps <= max_steps,
                steps0 < max_steps,
                forall|i: int| 0 <= i < n ==> #[trigger] table@.meals[i] <= meals_each,
                forall|i: int|
                    0 <= i < n && #[trigger] table@.meals[i] == meals_each ==> table@.phase[i]
                        == Phase::Thinking,
                forall|k: int| 0 <= k < n ==> #[trigger] table@.acquisitions[k] <= steps,
                steps <= total_progress(table@, n as int),
                tallies_agree(table@),
                steps == steps0 ==> table@ == start,
                steps == steps0 ==> forall|b: int|
                    0 <= b < a && start.meals[b] < meals_each ==> !#[trigger] enabled(start, b),
            decreases n - a,
        {
            if table.meals[a] < meals_each {
                let ghost before = table@;
                proof {
                    lemma_advance_keeps_tallies(table@, a as int);
                }
                let moved = table.advance(a);
                if moved {
                    steps = steps + 1;
                }
                proof {
                    lemma_forks_in_range(a as int, n as int);
                    lemma_total_progress_frame(before, table@, a as int, n as int);
                    if moved {
                        assert(progress(table@, a as int) > progress(before, a as int));
                    }
                }
                assert forall|k: int| 0 <= k < n implies #[trigger] table@.acquisitions[k]
                    <= steps by {
                    assert(before.acquisitions[k] <= steps);
                }
            }
            a = a + 1;
        }
        proof {
            if steps == steps0 {
                let u = choose|i: int| 0 <= i < n && start.meals[i] != meals_each;
                assert(start.meals[u] <= meals_each);
                assert(!enabled(start, u));
                lemma_no_circular_wait(start, u);
                let b = choose|b: int|
                    0 <= b < size(start) && start.phase[b] != Phase::Thinking && #[trigger] enabled(
                        start,
                        b,
                    );
                assert(start.meals[b] <= meals_each);
                assert(start.meals[b] < meals_each);
            }
        }
        finished = table.all_fed(meals_each);
    }
    proof {
        if !finished {
            let cap = 4 * meals_each;
            assert forall|i: int| 0 <= i < n implies progress(table@, i) <= cap by {
                assert(table@.meals[i] <= meals_each);
            }
            let u = choose|i: int| 0 <= i < n && table@.meals[i] != meals_each;
            assert(table@.meals[u] <= meals_each);
            assert(progress(table@, u) < cap);
            lemma_total_progress_bound(table@, n as int, cap);
            assert(n * cap == 4 * n * meals_each) by (nonlinear_arith)
                requires
                    cap == 4 * meals_each,
            ;
        } else {
            assert forall|k: int| 0 <= k < n implies #[trigger] table@.acquisitions[k]
                == if n == 2 { meals_each as int } else { 2 * meals_each } by {
                assert(table@.acquisitions[k] == fork_tally(table@, k));
                lemma_forks_in_range(right_spec(k, n as int), n as int);
                lemma_forks_in_range(left_spec(k, n as int), n as int);
                assert(table@.meals[right_spec(k, n as int)] == meals_each);
                assert(table@.meals[left_spec(k, n as int)] == meals_each);
            }
        }
    }
    Simulation { table, steps, finished }
}

/// Runs `n` actors round robin until each has eaten `meals_each` times, with
/// a step budget of `4 * n * meals_each`, which always suffices. Returns
/// `None` only where that budget does not fit in a `u64`.
pub fn run_to_completion(n: usize, meals_each: u64) -> (r: Option<Simulation>)
    requires
        n >= 2,
    ensures
        r is Some <==> 4 * n * meals_each <= u64::MAX,
        r matches Some(s) ==> {
            &&& s.finished
            &&& well_formed(s.table@)
            &&& size(s.table@) == n
            &&& s.steps <= 4 * n * meals_each
            &&& forall|i: int| 0 <= i < n ==> #[trigger] s.table@.meals[i] == meals_each
            &&& forall|i: int| 0 <= i < n ==> #[trigger] s.table@.phase[i] == Phase::Thinking
            &&& n >= 3 ==> forall|k: int|
                0 <= k < n ==> #[trigger] s.table@.acquisitions[k] == 2 * meals_each
            &&& n == 2 ==> forall|k: int|
                0 <= k < n ==> #[trigger] s.table@.acquisitions[k] == meals_each
        },
{
    let budget = match meals_each.checked_mul(4) {
        None => {
            assert(4 * n * meals_each >= 4 * meals_each) by (nonlinear_arith)
                requires
                    n >= 2,
                    meals_each >= 0,
            ;
            return None;
        },
        Some(per_actor) => per_actor.checked_mul(n as u64),
    };
    assert(meals_each * 4 * n == 4 * n * meals_each) by (nonlinear_arith);
    match budget {
        None => None,
        Some(max_steps) => {
            let s = simulate(n, meals_each, max_steps);
            assert forall|i: int| 0 <= i < n implies #[trigger] s.table@.phase[i]
                == Phase::Thinking by {
                assert(s.table@.meals[i] == meals_each);
            }
            Some(s)
        },
    }
}

} // verus!
