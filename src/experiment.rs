use vstd::prelude::*;
use crate::buff::Buff;
use crate::sampler::AdditionalSlots;
use crate::panel::{
    lemma_lock_fees_split, lock_fees, Simulation, SlotState, MAX_LOCK_COUNT, SLOT_COUNT,
};

verus! {

/// Number of trials each experiment runs.
pub const DEFAULT_ATTEMPTS: u32 = 100000;

/// A trial gives up once the custom modules spent would come within this
/// many of `u32::MAX`.
pub const MODULE_HEADROOM: u32 = 16;

/// Every buff of `want` is shown on the panel.
pub open spec fn has_all(sim: Simulation, want: Seq<Buff>) -> bool {
    forall|i: int| 0 <= i < want.len() ==> #[trigger] sim.contains_buff(want[i])
}

/// The panel's counters are too close to their limit for another round of
/// a trial.
pub open spec fn at_limit(sim: Simulation) -> bool {
    sim.custom_modules > u32::MAX - MODULE_HEADROOM || sim.attempts == u32::MAX
}

/// Whether every buff of `want` is shown on the panel.
pub fn has_all_buffs(sim: &Simulation, want: &[Buff]) -> (r: bool)
    ensures
        r == has_all(*sim, want@),
{
    let mut i: usize = 0;
    while i < want.len()
        invariant
            i <= want@.len(),
            forall|k: int| 0 <= k < i ==> #[trigger] sim.contains_buff(want@[k]),
        decreases want@.len() - i,
    {
        if !sim.has_buff(&want[i]) {
            return false;
        }
        i = i + 1;
    }
    true
}

fn under_limit(sim: &Simulation) -> (r: bool)
    ensures
        r == !at_limit(*sim),
{
    sim.custom_modules <= u32::MAX - MODULE_HEADROOM && sim.attempts < u32::MAX
}

/// Rerolls, without locking, until every buff of `want` is shown at once;
/// gives up, returning false, only when the counters come near their limit.
/// Each reroll costs the same, one module plus one per locked slot.
pub fn reroll_until_all_found(sim: &mut Simulation, want: &[Buff]) -> (found: bool)
    ensures
        found ==> has_all(*final(sim), want@),
        !found ==> at_limit(*final(sim)),
        !found && !at_limit(*old(sim)) ==> !has_all(*final(sim), want@),
        at_limit(*old(sim)) ==> !found && *final(sim) == *old(sim),
        !at_limit(*old(sim)) ==> final(sim).attempts > old(sim).attempts,
        final(sim).locks() == old(sim).locks(),
        final(sim).custom_modules == old(sim).custom_modules + (final(sim).attempts
            - old(sim).attempts) * (old(sim).locks() + 1),
{
    let ghost start = *sim;
    let ghost mut tried = false;
    loop
        invariant
            start == *old(sim),
            sim.locks() == start.locks(),
            sim.attempts >= start.attempts,
            sim.custom_modules == start.custom_modules + (sim.attempts - start.attempts) * (
            start.locks() + 1),
            !tried ==> *sim == start,
            tried ==> !has_all(*sim, want@) && sim.attempts > start.attempts && !at_limit(start),
        decreases u32::MAX - sim.attempts,
    {
        if !under_limit(sim) {
            return false;
        }
        let ghost before = *sim;
        proof {
            assert(sim.locks() <= 3);
        }
        sim.reroll();
        proof {
            tried = true;
            let n = before.attempts - start.attempts;
            let k = start.locks() + 1;
            assert((n + 1) * k == n * k + k) by (nonlinear_arith);
        }
        if has_all_buffs(sim, want) {
            return true;
        }
    }
}

/// `b` is shown on the panel only in a slot that is locked at its first
/// position, unless the panel has reached its lock cap.
pub open spec fn secured(sim: Simulation, b: Buff) -> bool {
    sim.position(b) matches Some(p) ==> (sim.buffs[p as int] is Locked || sim.locks()
        >= MAX_LOCK_COUNT)
}

/// Every buff of `want` that is shown is secured.
pub open spec fn all_secured(sim: Simulation, want: Seq<Buff>) -> bool {
    forall|i: int| 0 <= i < want.len() ==> #[trigger] secured(sim, want[i])
}

/// Modules that locks can still cost: three for each of the locks left
/// before the cap.
pub open spec fn lock_reserve(sim: Simulation) -> nat {
    if sim.locks() < MAX_LOCK_COUNT {
        3 * (MAX_LOCK_COUNT - sim.locks()) as nat
    } else {
        0
    }
}

/// Going from `a` to `b`, every slot shows the same buff, no locked slot
/// is unlocked and no lock is lost.
pub open spec fn only_locked_more(a: Simulation, b: Simulation) -> bool {
    &&& forall|j: int| 0 <= j < SLOT_COUNT ==> #[trigger] b.buffs[j].buff() == a.buffs[j].buff()
    &&& forall|j: int| 0 <= j < SLOT_COUNT && a.buffs[j] is Locked ==> #[trigger] b.buffs[j] is Locked
    &&& b.locks() >= a.locks()
}

proof fn lemma_secured_kept(a: Simulation, b: Simulation, x: Buff)
    requires
        only_locked_more(a, b),
        secured(a, x),
    ensures
        secured(b, x),
        a.position(x) == b.position(x),
{
    assert(b.buffs[0].buff() == a.buffs[0].buff());
    assert(b.buffs[1].buff() == a.buffs[1].buff());
    assert(b.buffs[2].buff() == a.buffs[2].buff());
}

/// Every slot locked in `a` is locked in `b` with the same buff.
pub open spec fn keeps_locks(a: Simulation, b: Simulation) -> bool {
    forall|j: int| 0 <= j < SLOT_COUNT && a.buffs[j] is Locked ==> #[trigger] b.buffs[j] == a.buffs[j]
}

/// Every slot locked in `b` but not in `a` holds a buff of `want`.
pub open spec fn new_locks_wanted(a: Simulation, b: Simulation, want: Seq<Buff>) -> bool {
    forall|j: int|
        0 <= j < SLOT_COUNT && !(a.buffs[j] is Locked) ==> (#[trigger] b.buffs[j] matches SlotState::Locked(x)
            ==> want.contains(x))
}

/// Every locked slot holds a buff of `want`.
pub open spec fn locks_wanted(s: Simulation, want: Seq<Buff>) -> bool {
    forall|j: int| 0 <= j < SLOT_COUNT ==> (#[trigger] s.buffs[j] matches SlotState::Locked(x) ==> want.contains(x))
}

/// Locks, for each buff of `want` in turn, the first slot that shows it.
fn lock_wanted(sim: &mut Simulation, want: &[Buff])
    requires
        old(sim).custom_modules + lock_reserve(*old(sim)) <= u32::MAX,
    ensures
        only_locked_more(*old(sim), *final(sim)),
        keeps_locks(*old(sim), *final(sim)),
        new_locks_wanted(*old(sim), *final(sim), want@),
        final(sim).custom_modules >= old(sim).custom_modules + lock_fees(old(sim).locks(), final(sim).locks()),
        old(sim).locks_lead() ==> final(sim).locks_lead(),
        all_secured(*final(sim), want@),
        final(sim).attempts == old(sim).attempts,
        final(sim).custom_modules >= old(sim).custom_modules,
        final(sim).custom_modules + lock_reserve(*final(sim)) <= old(sim).custom_modules
            + lock_reserve(*old(sim)),
        old(sim).wf() ==> final(sim).wf(),
{
    let ghost start = *sim;
    let mut i: usize = 0;
    while i < want.len()
        invariant
            start == *old(sim),
            i <= want@.len(),
            only_locked_more(start, *sim),
            keeps_locks(start, *sim),
            new_locks_wanted(start, *sim, want@),
            sim.custom_modules >= start.custom_modules + lock_fees(start.locks(), sim.locks()),
            start.locks_lead() ==> sim.locks_lead(),
            forall|k: int| 0 <= k < i ==> #[trigger] secured(*sim, want@[k]),
            sim.attempts == start.attempts,
            sim.custom_modules >= start.custom_modules,
            sim.custom_modules + lock_reserve(*sim) <= start.custom_modules + lock_reserve(start),
            start.custom_modules + lock_reserve(start) <= u32::MAX,
            start.wf() ==> sim.wf(),
        decreases want@.len() - i,
    {
        let ghost before = *sim;
        if sim.has_buff(&want[i]) {
            match sim.position_of(&want[i]) {
                Some(pos) => {
                    sim.lock(pos);
                },
                None => {},
            }
        }
        proof {
            assert(only_locked_more(before, *sim));
            assert(only_locked_more(start, *sim));
            assert(keeps_locks(before, *sim));
            assert(keeps_locks(start, *sim));
            assert(new_locks_wanted(before, *sim, want@)) by {
                assert(want@.contains(want@[i as int]));
            }
            assert(new_locks_wanted(start, *sim, want@));
            assert(before.locks_lead() ==> sim.locks_lead());
            lemma_lock_fees_split(start.locks(), before.locks(), sim.locks());
            assert forall|k: int| 0 <= k < i + 1 implies #[trigger] secured(*sim, want@[k]) by {
                if k < i {
                    lemma_secured_kept(before, *sim, want@[k]);
                }
            }
        }
        i = i + 1;
    }
}

/// Rerolls until every buff of `want` is shown at once, locking after each
/// reroll the first slot that shows each wanted buff, as long as the lock
/// cap allows; gives up, returning false, only when the counters come near
/// their limit.
pub fn reroll_until_all_found_with_locking(sim: &mut Simulation, want: &[Buff]) -> (found: bool)
    ensures
        found ==> has_all(*final(sim), want@) && all_secured(*final(sim), want@),
        !found ==> at_limit(*final(sim)),
        !found && !at_limit(*old(sim)) ==> !has_all(*final(sim), want@),
        at_limit(*old(sim)) ==> !found && *final(sim) == *old(sim),
        !at_limit(*old(sim)) ==> final(sim).attempts > old(sim).attempts,
        !at_limit(*old(sim)) ==> final(sim).custom_modules >= old(sim).custom_modules
            + old(sim).locks() + 1,
        final(sim).locks() >= old(sim).locks(),
        old(sim).wf() ==> final(sim).wf(),
        keeps_locks(*old(sim), *final(sim)),
        new_locks_wanted(*old(sim), *final(sim), want@),
        old(sim).locks_lead() ==> final(sim).locks_lead(),
        final(sim).custom_modules >= old(sim).custom_modules + (final(sim).attempts
            - old(sim).attempts) * (old(sim).locks() + 1) + lock_fees(old(sim).locks(), final(sim).locks()),
{
    let ghost start = *sim;
    let ghost mut tried = false;
    loop
        invariant
            start == *old(sim),
            sim.locks() >= start.locks(),
            sim.attempts >= start.attempts,
            sim.custom_modules >= start.custom_modules,
            start.wf() ==> sim.wf(),
            keeps_locks(start, *sim),
            new_locks_wanted(start, *sim, want@),
            start.locks_lead() ==> sim.locks_lead(),
            sim.custom_modules >= start.custom_modules + (sim.attempts - start.attempts) * (
            start.locks() + 1) + lock_fees(start.locks(), sim.locks()),
            !tried ==> *sim == start,
            tried ==> !has_all(*sim, want@) && !at_limit(start),
            tried ==> sim.attempts > start.attempts,
            tried ==> sim.custom_modules >= start.custom_modules + start.locks() + 1,
        decreases u32::MAX - sim.attempts,
    {
        if !under_limit(sim) {
            return false;
        }
        proof {
            assert(sim.locks() <= 3);
        }
        let ghost before = *sim;
        sim.reroll();
        let ghost rolled = *sim;
        proof {
            tried = true;
            let n = before.attempts - start.attempts;
            let k = start.locks() + 1;
            assert((n + 1) * k == n * k + k) by (nonlinear_arith);
            let extra = choose|extra: AdditionalSlots| #[trigger] before.rerolled_into(rolled, extra);
            assert(before.rerolled_into(rolled, extra));
            assert(keeps_locks(before, rolled));
            assert(keeps_locks(start, rolled));
            assert(new_locks_wanted(start, rolled, want@));
        }
        lock_wanted(sim, want);
        proof {
            assert(keeps_locks(start, *sim));
            assert(new_locks_wanted(start, *sim, want@));
            lemma_lock_fees_split(start.locks(), rolled.locks(), sim.locks());
        }
        if has_all_buffs(sim, want) {
            return true;
        }
    }
}

/// How a trial treats the wanted buffs it rolls.
#[derive(Clone, Copy, Debug, PartialEq, Eq, Structural)]
pub enum LockPolicy {
    /// Never lock; reroll until all wanted buffs show at once.
    NoLock,
    /// Lock each wanted buff as soon as it shows.
    LockOnAcquire,
}

/// The custom modules spent by each trial of an experiment, with the buffs
/// it was after.
pub struct SimulationResult {
    /// The buff locked before the trials started, if any.
    pub locked_buff: Option<Buff>,
    /// The buffs the trials reroll for.
    pub buffs: Vec<Buff>,
    /// The custom modules spent by each trial, in order.
    pub modules: Vec<u64>,
}

impl SimulationResult {
    /// A result with no buffs and no trials.
    pub fn new() -> (r: Self)
        ensures
            r.locked_buff is None,
            r.buffs@ == Seq::<Buff>::empty(),
            r.modules@ == Seq::<u64>::empty(),
    {
        SimulationResult { locked_buff: None, buffs: Vec::new(), modules: Vec::new() }
    }

    /// Records the custom modules spent by one more trial.
    pub fn record(&mut self, data: u32)
        ensures
            final(self).modules@ == old(self).modules@.push(data as u64),
            final(self).buffs@ == old(self).buffs@,
            final(self).locked_buff == old(self).locked_buff,
    {
        self.modules.push(data as u64);
    }
}

/// `s` is how a trial that reroll from a fresh panel for `want` under
/// `policy` can end: with every wanted buff shown (and, when locking,
/// secured), or with the counters at their limit. Without locking no slot is
/// locked and every reroll cost one module; with locking, only wanted buffs
/// are locked, each reroll cost at least one module and the locks cost their
/// fees.
pub open spec fn ends_trial(s: Simulation, want: Seq<Buff>, policy: LockPolicy) -> bool {
    &&& s.attempts >= 1
    &&& match policy {
        LockPolicy::NoLock => {
            &&& has_all(s, want) || at_limit(s)
            &&& s.locks() == 0
            &&& s.custom_modules == s.attempts
        },
        LockPolicy::LockOnAcquire => {
            &&& (has_all(s, want) && all_secured(s, want)) || at_limit(s)
            &&& s.wf()
            &&& s.locks_lead()
            &&& locks_wanted(s, want)
            &&& s.custom_modules >= s.attempts + lock_fees(0, s.locks())
        },
    }
}

/// `s` is how a trial can end that rolled a fresh panel once, put
/// `locked_buff` into slot `position` and locked it, and then rerolled for
/// `want` with locking: that slot still holds the buff locked, every other
/// locked slot holds a wanted buff, and the spending covers the first roll,
/// the first lock, two modules or more for each later reroll and the fees of
/// the later locks.
pub open spec fn ends_locked_trial(s: Simulation, locked_buff: Buff, position: int, want: Seq<Buff>) -> bool {
    &&& s.buffs[position] == SlotState::Locked(locked_buff)
    &&& (has_all(s, want) && all_secured(s, want)) || at_limit(s)
    &&& s.wf()
    &&& forall|j: int| 0 <= j < SLOT_COUNT && j != position ==> (#[trigger] s.buffs[j] matches SlotState::Locked(x)
        ==> want.contains(x))
    &&& s.attempts >= 2
    &&& s.custom_modules >= 3 + (s.attempts - 1) * 2 + lock_fees(1, s.locks())
}

/// `m` is what some trial for `want` under `policy` spent.
pub open spec fn recorded_trial(m: u64, want: Seq<Buff>, policy: LockPolicy) -> bool {
    exists|s: Simulation| #[trigger] ends_trial(s, want, policy) && m == s.custom_modules
}

/// `m` is what some trial with `locked_buff` locked in slot `position` spent.
pub open spec fn recorded_locked_trial(m: u64, locked_buff: Buff, position: int, want: Seq<Buff>) -> bool {
    exists|s: Simulation| #[trigger] ends_locked_trial(s, locked_buff, position, want) && m == s.custom_modules
}

/// Runs `trials` trials, each on a fresh panel, that reroll for `want`
/// under `policy`, and records what each spent.
pub fn run_trials(want: &[Buff], policy: LockPolicy, trials: u32) -> (r: SimulationResult)
    ensures
        r.locked_buff is None,
        r.buffs@ == want@,
        r.modules@.len() == trials,
        forall|i: int| 0 <= i < trials ==> recorded_trial(#[trigger] r.modules@[i], want@, policy),
        forall|i: int| 0 <= i < trials ==> #[trigger] r.modules@[i] >= 1,
{
    let mut result = SimulationResult::new();
    result.buffs = vstd::slice::slice_to_vec(want);
    let mut t: u32 = 0;
    while t < trials
        invariant
            t <= trials,
            result.locked_buff is None,
            result.buffs@ == want@,
            result.modules@.len() == t,
            forall|i: int| 0 <= i < t ==> recorded_trial(#[trigger] result.modules@[i], want@, policy),
            forall|i: int| 0 <= i < t ==> #[trigger] result.modules@[i] >= 1,
        decreases trials - t,
    {
        let mut sim = Simulation::new();
        let ghost fresh = sim;
        match policy {
            LockPolicy::NoLock => {
                let _ = reroll_until_all_found(&mut sim, want);
                proof {
                    let n = sim.attempts as int;
                    assert(n * (0 + 1) == n) by (nonlinear_arith);
                }
            },
            LockPolicy::LockOnAcquire => {
                let _ = reroll_until_all_found_with_locking(&mut sim, want);
                proof {
                    let n = sim.attempts as int;
                    assert(n * (0 + 1) == n) by (nonlinear_arith);
                    assert(locks_wanted(sim, want@)) by {
                        assert forall|j: int| 0 <= j < SLOT_COUNT implies !(fresh.buffs[j] is Locked) by {}
                    }
                }
            },
        }
        proof {
            assert(ends_trial(sim, want@, policy));
        }
        let ghost before = result.modules@;
        result.record(sim.custom_modules);
        proof {
            assert(result.modules@[t as int] == sim.custom_modules);
            assert(recorded_trial(result.modules@[t as int], want@, policy));
            assert forall|i: int| 0 <= i < t implies #[trigger] result.modules@[i] == before[i] by {}
        }
        t = t + 1;
    }
    result
}

/// Runs `trials` trials that each start from a panel rolled once, with
/// `locked_buff` put into slot `position` and locked there, and then reroll
/// for `want_rest`, locking each wanted buff as soon as it shows.
pub fn run_trials_with_locked_buff(
    locked_buff: Buff,
    position: usize,
    want_rest: &[Buff],
    trials: u32,
) -> (r: SimulationResult)
    requires
        position < SLOT_COUNT,
    ensures
        r.locked_buff == Some(locked_buff),
        r.buffs@ == want_rest@,
        r.modules@.len() == trials,
        forall|i: int|
            0 <= i < trials ==> recorded_locked_trial(
                #[trigger] r.modules@[i],
                locked_buff,
                position as int,
                want_rest@,
            ),
        forall|i: int| 0 <= i < trials ==> #[trigger] r.modules@[i] >= 5,
{
    let mut result = SimulationResult::new();
    result.buffs = vstd::slice::slice_to_vec(want_rest);
    result.locked_buff = Some(locked_buff);
    let mut t: u32 = 0;
    while t < trials
        invariant
            position < SLOT_COUNT,
            t <= trials,
            result.locked_buff == Some(locked_buff),
            result.buffs@ == want_rest@,
            result.modules@.len() == t,
            forall|i: int|
                0 <= i < t ==> recorded_locked_trial(
                    #[trigger] result.modules@[i],
                    locked_buff,
                    position as int,
                    want_rest@,
                ),
            forall|i: int| 0 <= i < t ==> #[trigger] result.modules@[i] >= 5,
        decreases trials - t,
    {
        let mut sim = Simulation::new();
        sim.reroll();
        sim.set_buff(position, &locked_buff);
        sim.lock(position);
        let ghost start = sim;
        let _ = reroll_until_all_found_with_locking(&mut sim, want_rest);
        proof {
            assert(start.locks() == 1);
            assert(start.buffs[position as int] == SlotState::Locked(locked_buff));
            let n = sim.attempts - 1;
            assert(n * (1 + 1) == n * 2) by (nonlinear_arith);
            assert(keeps_locks(start, sim));
            assert(sim.buffs[position as int] == SlotState::Locked(locked_buff));
            assert(ends_locked_trial(sim, locked_buff, position as int, want_rest@));
        }
        let ghost before = result.modules@;
        result.record(sim.custom_modules);
        proof {
            assert(result.modules@[t as int] == sim.custom_modules);
            assert(recorded_locked_trial(result.modules@[t as int], locked_buff, position as int, want_rest@));
            assert forall|i: int| 0 <= i < t implies #[trigger] result.modules@[i] == before[i] by {}
        }
        t = t + 1;
    }
    result
}

/// Rerolls for `want` without locking, over `DEFAULT_ATTEMPTS` trials.
pub fn simulation_num_custom_modules_for_specific_buffs(want: &[Buff]) -> (r: SimulationResult)
    ensures
        r.locked_buff is None,
        r.buffs@ == want@,
        r.modules@.len() == DEFAULT_ATTEMPTS,
        forall|i: int|
            0 <= i < DEFAULT_ATTEMPTS ==> recorded_trial(#[trigger] r.modules@[i], want@, LockPolicy::NoLock),
{
    run_trials(want, LockPolicy::NoLock, DEFAULT_ATTEMPTS)
}

/// Rerolls for `want`, locking each wanted buff as soon as it shows, over
/// `DEFAULT_ATTEMPTS` trials.
pub fn simulation_num_cus_mods_with_locking(want: &[Buff]) -> (r: SimulationResult)
    ensures
        r.locked_buff is None,
        r.buffs@ == want@,
        r.modules@.len() == DEFAULT_ATTEMPTS,
        forall|i: int|
            0 <= i < DEFAULT_ATTEMPTS ==> recorded_trial(
                #[trigger] r.modules@[i],
                want@,
                LockPolicy::LockOnAcquire,
            ),
{
    run_trials(want, LockPolicy::LockOnAcquire, DEFAULT_ATTEMPTS)
}

/// Custom modules spent, over `DEFAULT_ATTEMPTS` trials, to get `want_rest`
/// once `locked_buff` is locked in slot `position` after the first roll.
/// `want_rest` may leave out `locked_buff`.
pub fn simulation_with_locked_buff(locked_buff: Buff, position: usize, want_rest: &[Buff]) -> (r:
    SimulationResult)
    requires
        position < SLOT_COUNT,
    ensures
        r.locked_buff == Some(locked_buff),
        r.buffs@ == want_rest@,
        r.modules@.len() == DEFAULT_ATTEMPTS,
        forall|i: int|
            0 <= i < DEFAULT_ATTEMPTS ==> recorded_locked_trial(
                #[trigger] r.modules@[i],
                locked_buff,
                position as int,
                want_rest@,
            ),
{
    run_trials_with_locked_buff(locked_buff, position, want_rest, DEFAULT_ATTEMPTS)
}

/// As `simulation_with_locked_buff`, with the buff locked in the first slot.
pub fn simulation_first_desired_buff_locked(locked_buff: Buff, want_rest: &[Buff]) -> (r:
    SimulationResult)
    ensures
        r.locked_buff == Some(locked_buff),
        r.buffs@ == want_rest@,
        r.modules@.len() == DEFAULT_ATTEMPTS,
        forall|i: int|
            0 <= i < DEFAULT_ATTEMPTS ==> recorded_locked_trial(
                #[trigger] r.modules@[i],
                locked_buff,
                0,
                want_rest@,
            ),
{
    simulation_with_locked_buff(locked_buff, 0, want_rest)
}

/// As `simulation_with_locked_buff`, with the buff locked in the second slot.
pub fn simulation_second_desired_buff_locked(locked_buff: Buff, want_rest: &[Buff]) -> (r:
    SimulationResult)
    ensures
        r.locked_buff == Some(locked_buff),
        r.buffs@ == want_rest@,
        r.modules@.len() == DEFAULT_ATTEMPTS,
        forall|i: int|
            0 <= i < DEFAULT_ATTEMPTS ==> recorded_locked_trial(
                #[trigger] r.modules@[i],
                locked_buff,
                1,
                want_rest@,
            ),
{
    simulation_with_locked_buff(locked_buff, 1, want_rest)
}

/// `s` is a fresh panel after its first reroll.
pub open spec fn fresh_rolled_once(s: Simulation) -> bool {
    &&& s.attempts == 1
    &&& s.custom_modules == 1
    &&& exists|p: Simulation, extra: AdditionalSlots| p.is_fresh() && #[trigger] p.rerolled_into(s, extra)
}

/// Number of panels of `rolled` that show every buff of `want`.
pub open spec fn hits_among(rolled: Seq<Simulation>, want: Seq<Buff>) -> nat
    decreases rolled.len(),
{
    if rolled.len() == 0 {
        0
    } else {
        hits_among(rolled.drop_last(), want) + if has_all(rolled.last(), want) {
            1nat
        } else {
            0nat
        }
    }
}

/// `want` holds four pairwise different buffs.
pub open spec fn more_than_three_distinct(want: Seq<Buff>) -> bool {
    exists|i: int, j: int, k: int, l: int|
        0 <= i < want.len() && 0 <= j < want.len() && 0 <= k < want.len() && 0 <= l < want.len()
            && #[trigger] want[i] != #[trigger] want[j] && want[i] != #[trigger] want[k] && want[i]
            != #[trigger] want[l] && want[j] != want[k] && want[j] != want[l] && want[k] != want[l]
}

/// A panel shows at most three buffs, so it never shows four different
/// wanted ones.
pub proof fn lemma_panel_shows_at_most_three(s: Simulation, want: Seq<Buff>)
    requires
        more_than_three_distinct(want),
    ensures
        !has_all(s, want),
{
    let (i, j, k, l) = choose|i: int, j: int, k: int, l: int|
        0 <= i < want.len() && 0 <= j < want.len() && 0 <= k < want.len() && 0 <= l < want.len()
            && #[trigger] want[i] != #[trigger] want[j] && want[i] != #[trigger] want[k] && want[i]
            != #[trigger] want[l] && want[j] != want[k] && want[j] != want[l] && want[k] != want[l];
    if has_all(s, want) {
        assert(s.contains_buff(want[i]));
        assert(s.contains_buff(want[j]));
        assert(s.contains_buff(want[k]));
        assert(s.contains_buff(want[l]));
    }
}

/// The hit count is at most the number of panels; every panel hits when
/// nothing is wanted, and none when four different buffs are.
pub proof fn lemma_hits_among_bounds(rolled: Seq<Simulation>, want: Seq<Buff>)
    ensures
        hits_among(rolled, want) <= rolled.len(),
        want.len() == 0 ==> hits_among(rolled, want) == rolled.len(),
        more_than_three_distinct(want) ==> hits_among(rolled, want) == 0,
    decreases rolled.len(),
{
    if rolled.len() > 0 {
        lemma_hits_among_bounds(rolled.drop_last(), want);
        if more_than_three_distinct(want) {
            lemma_panel_shows_at_most_three(rolled.last(), want);
        }
    }
}

/// Number of panels of `rolled` that show every buff of `want`.
pub fn count_hits(rolled: &[Simulation], want: &[Buff]) -> (hits: u32)
    requires
        rolled@.len() <= u32::MAX,
    ensures
        hits == hits_among(rolled@, want@),
{
    let mut hits: u32 = 0;
    let mut i: usize = 0;
    proof {
        assert(rolled@.take(0) =~= Seq::<Simulation>::empty());
    }
    while i < rolled.len()
        invariant
            i <= rolled@.len(),
            rolled@.len() <= u32::MAX,
            hits == hits_among(rolled@.take(i as int), want@),
        decreases rolled@.len() - i,
    {
        proof {
            assert(rolled@.take(i + 1).drop_last() =~= rolled@.take(i as int));
            assert(rolled@.take(i + 1).last() == rolled@[i as int]);
            lemma_hits_among_bounds(rolled@.take(i as int), want@);
        }
        if has_all_buffs(&rolled[i], want) {
            hits = hits + 1;
        }
        i = i + 1;
    }
    proof {
        assert(rolled@.take(i as int) =~= rolled@);
    }
    hits
}

/// `trials` fresh panels, each rerolled once.
pub fn roll_fresh_panels(trials: u32) -> (r: Vec<Simulation>)
    ensures
        r@.len() == trials,
        forall|i: int| 0 <= i < trials ==> fresh_rolled_once(#[trigger] r@[i]),
{
    let mut r: Vec<Simulation> = Vec::new();
    let mut t: u32 = 0;
    while t < trials
        invariant
            t <= trials,
            r@.len() == t,
            forall|i: int| 0 <= i < t ==> fresh_rolled_once(#[trigger] r@[i]),
        decreases trials - t,
    {
        let mut sim = Simulation::new();
        let ghost fresh = sim;
        sim.reroll();
        proof {
            let extra = choose|extra: AdditionalSlots| #[trigger] fresh.rerolled_into(sim, extra);
            assert(fresh.is_fresh() && fresh.rerolled_into(sim, extra));
        }
        r.push(sim);
        t = t + 1;
    }
    r
}

/// Number of `trials` fresh panels, rolled once each, that show every
/// buff of `want`.
pub fn sim_want_buffs(want: &[Buff], trials: u32) -> (hits: u32)
    ensures
        exists|rolled: Seq<Simulation>|
            rolled.len() == trials && (forall|i: int|
                0 <= i < trials ==> fresh_rolled_once(#[trigger] rolled[i])) && hits == hits_among(
                rolled,
                want@,
            ),
        hits <= trials,
        want@.len() == 0 ==> hits == trials,
        more_than_three_distinct(want@) ==> hits == 0,
{
    let rolled = roll_fresh_panels(trials);
    let hits = count_hits(rolled.as_slice(), want);
    proof {
        lemma_hits_among_bounds(rolled@, want@);
    }
    hits
}

/// How many of `attempts` fresh panels, rolled once each, show one, two
/// and three buffs.
pub fn slots_shown_tally(attempts: u32) -> (tally: [u32; 3])
    ensures
        tally[0] + tally[1] + tally[2] == attempts,
{
    let mut tally: [u32; 3] = [0, 0, 0];
    let mut t: u32 = 0;
    while t < attempts
        invariant
            t <= attempts,
            tally[0] + tally[1] + tally[2] == t,
        decreases attempts - t,
    {
        let mut sim = Simulation::new();
        sim.reroll();
        let num_buffs = sim.shown_count();
        tally[num_buffs - 1] = tally[num_buffs - 1] + 1;
        t = t + 1;
    }
    tally
}

/// A locking trial for two different buffs spends at least six modules: one
/// reroll and the two lock fees of two and three. When it did not stop at
/// the counter limit, it ends with both buffs shown, two slots locked, one
/// holding each buff.
pub proof fn lemma_two_wanted_locked(s: Simulation, a: Buff, b: Buff)
    requires
        a != b,
        ends_trial(s, seq![a, b], LockPolicy::LockOnAcquire),
    ensures
        s.custom_modules >= 6,
        !at_limit(s) ==> has_all(s, seq![a, b]) && s.locks() == 2 && s.is_locked_buff(a)
            && s.is_locked_buff(b),
{
    let want = seq![a, b];
    if !at_limit(s) {
        assert(has_all(s, want) && all_secured(s, want));
        assert(s.contains_buff(want[0]));
        assert(s.contains_buff(want[1]));
        assert(secured(s, want[0]));
        assert(secured(s, want[1]));
        assert(s.locks() == 2);
        assert(locks_wanted(s, want));
        assert(s.buffs[0] matches SlotState::Locked(x) ==> want.contains(x));
        assert(s.buffs[1] matches SlotState::Locked(x) ==> want.contains(x));
        assert(s.buffs[2] matches SlotState::Locked(x) ==> want.contains(x));
        assert forall|x: Buff| want.contains(x) implies x == a || x == b by {
            let k = choose|k: int| 0 <= k < 2 && want[k] == x;
        }
        assert(lock_fees(0, 2) == 5) by {
            assert(lock_fees(0, 0) == 0);
            assert(lock_fees(0, 1) == 2);
        }
    }
}

/// Every cost recorded by a locking experiment for two different buffs is
/// at least six modules.
pub proof fn lemma_two_wanted_cost(m: u64, a: Buff, b: Buff)
    requires
        a != b,
        recorded_trial(m, seq![a, b], LockPolicy::LockOnAcquire),
    ensures
        m >= 6,
{
    let want = seq![a, b];
    let s = choose|s: Simulation| #[trigger] ends_trial(s, want, LockPolicy::LockOnAcquire) && m
        == s.custom_modules;
    lemma_two_wanted_locked(s, a, b);
}

} // verus!
