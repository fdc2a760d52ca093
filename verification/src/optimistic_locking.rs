//! A spin lock over an atomic flag, and the protocols that threads follow
//! to take it: checking the flag and then setting it, or swapping it with a
//! compare-and-exchange.

use core::cell::UnsafeCell;
use core::sync::atomic::AtomicBool;
use core::sync::atomic::Ordering;
use vstd::prelude::*;

verus! {

/// Value of the flag while nobody holds the lock.
pub const UNLOCKED: bool = false;

/// Value of the flag while a thread holds the lock.
pub const LOCKED: bool = true;

/// `core::cell::UnsafeCell`, the cell that the lock guards.
#[verifier::external_type_specification]
#[verifier::external_body]
#[verifier::reject_recursive_types(T)]
pub struct ExUnsafeCell<T: ?Sized>(UnsafeCell<T>);

/// `UnsafeCell::new` wraps a value; nothing about the cell is visible to
/// the proofs.
pub assume_specification<T>[ UnsafeCell::<T>::new ](value: T) -> UnsafeCell<T>;

/// A lock made of an atomic flag and the value it guards. Threads take it
/// by running one of the protocols of `SpinStrategy`, step by step as
/// `next_spin_action` tells them.
#[verifier::reject_recursive_types(T)]
pub struct Mutex<T> {
    locked: AtomicBool,
    v: UnsafeCell<T>,
}

impl<T> Mutex<T> {
    /// An unlocked lock guarding `t`. The flag and the cell are opaque to
    /// the proofs (the models in vstd that could follow their contents need
    /// tracked permissions), so no clause states that the lock starts
    /// unlocked and holding `t`.
    pub fn new(t: T) -> Self {
        Self { locked: AtomicBool::new(UNLOCKED), v: UnsafeCell::new(t) }
    }

    /// Performs one of the protocol's actions on the flag and reports what
    /// it gave. The compare-and-exchange is the weak one, which may fail even
    /// when the flag was unlocked.
    pub fn perform(&self, action: SpinAction) -> (outcome: SpinOutcome)
        requires
            acts_on_flag(action),
        ensures
            action == SpinAction::CompareExchange ==> outcome == SpinOutcome::Exchanged || outcome
                == SpinOutcome::ExchangeFailed,
            action == SpinAction::Load ==> outcome == SpinOutcome::SawLocked || outcome
                == SpinOutcome::SawUnlocked,
            action == SpinAction::StoreLocked ==> outcome == SpinOutcome::StoredLocked,
            action == SpinAction::StoreUnlocked ==> outcome == SpinOutcome::StoredUnlocked,
    {
        match action {
            SpinAction::CompareExchange => {
                let (expected, new) = exchange_arguments();
                exchange_outcome(
                    self.locked.compare_exchange_weak(expected, new, Ordering::Relaxed, Ordering::Relaxed),
                )
            },
            SpinAction::Load => load_outcome(self.locked.load(Ordering::Relaxed)),
            _ => {
                self.locked.store(flag_to_store(action), Ordering::Relaxed);
                store_outcome(action)
            },
        }
    }

    /// The cell of this lock that holds the guarded value.
    pub closed spec fn guarded_cell(&self) -> UnsafeCell<T> {
        self.v
    }

    /// The cell that holds the guarded value; only the thread that holds the
    /// lock may reach into it.
    pub fn cell(&self) -> (cell: &UnsafeCell<T>)
        ensures
            *cell == self.guarded_cell(),
    {
        &self.v
    }
}

/// The protocol a thread follows to take the lock.
#[derive(Clone, Copy, PartialEq, Eq, Structural)]
pub enum SpinStrategy {
    /// Wait until the flag reads unlocked, then set it: another thread can
    /// set it between the check and the set.
    CheckThenSet,
    /// Swap the flag from unlocked to locked in one compare-and-exchange,
    /// and while that fails wait until it reads unlocked.
    CompareExchange,
}

/// The next thing a thread does with the lock.
#[derive(Clone, Copy, PartialEq, Eq, Structural)]
pub enum SpinAction {
    /// Try to swap the flag from unlocked to locked.
    CompareExchange,
    /// Read the flag.
    Load,
    /// Give up the processor for a moment.
    Yield,
    /// Write `LOCKED` into the flag.
    StoreLocked,
    /// Run the critical section on the guarded value.
    RunCritical,
    /// Write `UNLOCKED` into the flag.
    StoreUnlocked,
    /// Done.
    Finish,
}

/// What the thread's last action gave.
#[derive(Clone, Copy, PartialEq, Eq, Structural)]
pub enum SpinOutcome {
    /// Nothing done yet.
    Started,
    /// The compare-and-exchange took the lock.
    Exchanged,
    /// The compare-and-exchange did not take the lock.
    ExchangeFailed,
    /// The flag read locked.
    SawLocked,
    /// The flag read unlocked.
    SawUnlocked,
    /// The yield returned.
    Yielded,
    /// `LOCKED` was written.
    StoredLocked,
    /// The critical section returned.
    CriticalDone,
    /// `UNLOCKED` was written.
    StoredUnlocked,
}

/// The actions that read or write the flag; the others (yielding, the
/// critical section, finishing) are up to the thread.
pub open spec fn acts_on_flag(action: SpinAction) -> bool {
    action == SpinAction::CompareExchange || action == SpinAction::Load || action == SpinAction::StoreLocked
        || action == SpinAction::StoreUnlocked
}

/// The protocols as a table from the last outcome to the next action.
pub open spec fn spin_next(strategy: SpinStrategy, outcome: SpinOutcome) -> SpinAction {
    match outcome {
        SpinOutcome::Started => match strategy {
            SpinStrategy::CheckThenSet => SpinAction::Load,
            SpinStrategy::CompareExchange => SpinAction::CompareExchange,
        },
        SpinOutcome::Exchanged => SpinAction::RunCritical,
        SpinOutcome::ExchangeFailed => SpinAction::Load,
        SpinOutcome::SawLocked => SpinAction::Load,
        SpinOutcome::SawUnlocked => match strategy {
            SpinStrategy::CheckThenSet => SpinAction::Yield,
            SpinStrategy::CompareExchange => SpinAction::CompareExchange,
        },
        SpinOutcome::Yielded => SpinAction::StoreLocked,
        SpinOutcome::StoredLocked => SpinAction::RunCritical,
        SpinOutcome::CriticalDone => SpinAction::StoreUnlocked,
        SpinOutcome::StoredUnlocked => SpinAction::Finish,
    }
}

/// The next action of a thread that follows `strategy` and whose last
/// action gave `outcome`.
pub fn next_spin_action(strategy: SpinStrategy, outcome: SpinOutcome) -> (action: SpinAction)
    ensures
        action == spin_next(strategy, outcome),
{
    match outcome {
        SpinOutcome::Started => match strategy {
            SpinStrategy::CheckThenSet => SpinAction::Load,
            SpinStrategy::CompareExchange => SpinAction::CompareExchange,
        },
        SpinOutcome::Exchanged => SpinAction::RunCritical,
        SpinOutcome::ExchangeFailed => SpinAction::Load,
        SpinOutcome::SawLocked => SpinAction::Load,
        SpinOutcome::SawUnlocked => match strategy {
            SpinStrategy::CheckThenSet => SpinAction::Yield,
            SpinStrategy::CompareExchange => SpinAction::CompareExchange,
        },
        SpinOutcome::Yielded => SpinAction::StoreLocked,
        SpinOutcome::StoredLocked => SpinAction::RunCritical,
        SpinOutcome::CriticalDone => SpinAction::StoreUnlocked,
        SpinOutcome::StoredUnlocked => SpinAction::Finish,
    }
}

/// The outcome of `action` when the flag holds `locked`, and the flag after
/// it; `None` for `Finish`, after which the thread takes no step. A weak
/// compare-and-exchange can fail although the flag is unlocked: it does so
/// when `spurious` is set.
pub open spec fn spin_effect(action: SpinAction, locked: bool, spurious: bool) -> Option<(SpinOutcome, bool)> {
    match action {
        SpinAction::CompareExchange => if locked || spurious {
            Some((SpinOutcome::ExchangeFailed, locked))
        } else {
            Some((SpinOutcome::Exchanged, LOCKED))
        },
        SpinAction::Load => if locked {
            Some((SpinOutcome::SawLocked, locked))
        } else {
            Some((SpinOutcome::SawUnlocked, locked))
        },
        SpinAction::Yield => Some((SpinOutcome::Yielded, locked)),
        SpinAction::StoreLocked => Some((SpinOutcome::StoredLocked, LOCKED)),
        SpinAction::RunCritical => Some((SpinOutcome::CriticalDone, locked)),
        SpinAction::StoreUnlocked => Some((SpinOutcome::StoredUnlocked, UNLOCKED)),
        SpinAction::Finish => None,
    }
}

/// What the compare-and-exchange of the protocol hands to the flag: the
/// value it expects and the value it writes. On the expected value the
/// exchange takes the lock, as the model's `spin_effect` has it.
pub fn exchange_arguments() -> (arguments: (bool, bool))
    ensures
        arguments == (UNLOCKED, LOCKED),
        spin_effect(SpinAction::CompareExchange, arguments.0, false) == Some(
            (SpinOutcome::Exchanged, arguments.1),
        ),
{
    (UNLOCKED, LOCKED)
}

/// The outcome of a compare-and-exchange from what it returned: `Ok` when
/// it swapped the flag, `Err` when it did not.
pub fn exchange_outcome(returned: Result<bool, bool>) -> (outcome: SpinOutcome)
    ensures
        returned is Ok ==> outcome == SpinOutcome::Exchanged,
        returned is Err ==> outcome == SpinOutcome::ExchangeFailed,
{
    match returned {
        Ok(_) => SpinOutcome::Exchanged,
        Err(_) => SpinOutcome::ExchangeFailed,
    }
}

/// The outcome of reading the flag, as the model's `spin_effect` gives it.
pub fn load_outcome(flag: bool) -> (outcome: SpinOutcome)
    ensures
        outcome == spin_effect(SpinAction::Load, flag, false).unwrap().0,
        outcome == (if flag == LOCKED {
            SpinOutcome::SawLocked
        } else {
            SpinOutcome::SawUnlocked
        }),
{
    if flag == LOCKED {
        SpinOutcome::SawLocked
    } else {
        SpinOutcome::SawUnlocked
    }
}

/// The value that a store action writes into the flag: `LOCKED` for
/// `StoreLocked`, `UNLOCKED` for `StoreUnlocked`, as the model's
/// `spin_effect` has it whatever the flag held.
pub fn flag_to_store(action: SpinAction) -> (value: bool)
    requires
        action == SpinAction::StoreLocked || action == SpinAction::StoreUnlocked,
    ensures
        value == (action == SpinAction::StoreLocked),
        forall|locked: bool, spurious: bool| #[trigger] spin_effect(action, locked, spurious) matches Some((_, after)) && after == value,
{
    match action {
        SpinAction::StoreLocked => LOCKED,
        _ => UNLOCKED,
    }
}

/// The outcome of a store action, as the model's `spin_effect` gives it.
pub fn store_outcome(action: SpinAction) -> (outcome: SpinOutcome)
    requires
        action == SpinAction::StoreLocked || action == SpinAction::StoreUnlocked,
    ensures
        action == SpinAction::StoreLocked ==> outcome == SpinOutcome::StoredLocked,
        action == SpinAction::StoreUnlocked ==> outcome == SpinOutcome::StoredUnlocked,
        forall|locked: bool, spurious: bool| #[trigger] spin_effect(action, locked, spurious) matches Some((o, _)) && o == outcome,
{
    match action {
        SpinAction::StoreLocked => SpinOutcome::StoredLocked,
        _ => SpinOutcome::StoredUnlocked,
    }
}

/// Threads sharing one lock: the flag, and the next action of each thread.
pub struct SpinSystem {
    pub locked: bool,
    pub next: Seq<SpinAction>,
}

/// `threads` threads that have not started yet, around an unlocked lock.
pub open spec fn spin_initial(strategy: SpinStrategy, threads: nat) -> SpinSystem {
    SpinSystem {
        locked: UNLOCKED,
        next: Seq::new(threads, |i: int| spin_next(strategy, SpinOutcome::Started)),
    }
}

/// Thread `i` takes its next action, atomically (`spurious` as in
/// `spin_effect`); `None` when there is no such thread or it has finished.
pub open spec fn spin_thread_step(strategy: SpinStrategy, s: SpinSystem, i: int, spurious: bool) -> Option<SpinSystem> {
    if 0 <= i < s.next.len() {
        match spin_effect(s.next[i], s.locked, spurious) {
            Some((outcome, locked)) => Some(
                SpinSystem { locked, next: s.next.update(i, spin_next(strategy, outcome)) },
            ),
            None => None,
        }
    } else {
        None
    }
}

/// The threads take steps in the order of `schedule`, each entry naming the
/// thread that moves and whether a compare-and-exchange it makes fails
/// spuriously; `None` when the schedule names a thread that cannot move.
pub open spec fn spin_run(strategy: SpinStrategy, s: SpinSystem, schedule: Seq<(int, bool)>) -> Option<SpinSystem>
    decreases schedule.len(),
{
    if schedule.len() == 0 {
        Some(s)
    } else {
        match spin_run(strategy, s, schedule.drop_last()) {
            Some(mid) => spin_thread_step(strategy, mid, schedule.last().0, schedule.last().1),
            None => None,
        }
    }
}

/// The thread whose next action is this one holds the lock.
pub open spec fn holds_lock(action: SpinAction) -> bool {
    action == SpinAction::RunCritical || action == SpinAction::StoreUnlocked
}

/// Threads `i` and `j`, distinct, are both inside the critical section.
pub open spec fn both_inside(s: SpinSystem, i: int, j: int) -> bool {
    &&& 0 <= i < s.next.len()
    &&& 0 <= j < s.next.len()
    &&& i != j
    &&& holds_lock(s.next[i])
    &&& holds_lock(s.next[j])
}

/// What holds in every state that the compare-and-exchange protocol
/// reaches: only its own actions occur, at most one thread holds the lock,
/// and the flag is set exactly while one does.
pub open spec fn exchange_invariant(s: SpinSystem) -> bool {
    &&& forall|i: int|
        0 <= i < s.next.len() ==> {
            let a = #[trigger] s.next[i];
            a == SpinAction::CompareExchange || a == SpinAction::Load || a == SpinAction::RunCritical
                || a == SpinAction::StoreUnlocked || a == SpinAction::Finish
        }
    &&& forall|i: int, j: int| !#[trigger] both_inside(s, i, j)
    &&& (s.locked == LOCKED <==> exists|i: int| 0 <= i < s.next.len() && #[trigger] holds_lock(s.next[i]))
}

/// One step of the compare-and-exchange protocol keeps its invariant.
pub proof fn lemma_exchange_step(s: SpinSystem, i: int, spurious: bool)
    requires
        exchange_invariant(s),
        spin_thread_step(SpinStrategy::CompareExchange, s, i, spurious) is Some,
    ensures
        exchange_invariant(spin_thread_step(SpinStrategy::CompareExchange, s, i, spurious).unwrap()),
{
    let t = spin_thread_step(SpinStrategy::CompareExchange, s, i, spurious).unwrap();
    assert(holds_lock(s.next[i]) ==> s.locked == LOCKED);
    assert forall|a: int, b: int| !#[trigger] both_inside(t, a, b) by {
        if both_inside(t, a, b) {
            if a != i && b != i {
                assert(both_inside(s, a, b));
            } else if a == i {
                assert(holds_lock(s.next[b]));
                if holds_lock(s.next[i]) {
                    assert(both_inside(s, i, b));
                }
            } else {
                assert(holds_lock(s.next[a]));
                if holds_lock(s.next[i]) {
                    assert(both_inside(s, a, i));
                }
            }
        }
    }
    if t.locked == LOCKED {
        if s.next[i] == SpinAction::CompareExchange && !s.locked && !spurious {
            assert(holds_lock(t.next[i]));
        } else {
            let k = choose|k: int| 0 <= k < s.next.len() && #[trigger] holds_lock(s.next[k]);
            assert(holds_lock(t.next[k]));
        }
    }
    if exists|k: int| 0 <= k < t.next.len() && #[trigger] holds_lock(t.next[k]) {
        let k = choose|k: int| 0 <= k < t.next.len() && #[trigger] holds_lock(t.next[k]);
        if k != i {
            assert(holds_lock(s.next[k]));
            if holds_lock(s.next[i]) {
                assert(both_inside(s, i, k));
            }
        }
    }
}

/// Mutual exclusion of the compare-and-exchange protocol: whatever the
/// number of threads and however their steps interleave, no two threads
/// are ever inside the critical section together. The model is
/// sequentially consistent: each step acts on the one flag at once. The
/// lock itself uses `Relaxed` orderings, so what this proves is exclusion on
/// the flag; whether writes made inside one critical section are visible
/// in the next is not covered.
pub proof fn lemma_exchange_excludes(threads: nat, schedule: Seq<(int, bool)>)
    requires
        spin_run(SpinStrategy::CompareExchange, spin_initial(SpinStrategy::CompareExchange, threads), schedule) is Some,
    ensures
        ({
            let s = spin_run(
                SpinStrategy::CompareExchange,
                spin_initial(SpinStrategy::CompareExchange, threads),
                schedule,
            ).unwrap();
            &&& exchange_invariant(s)
            &&& forall|i: int, j: int| !#[trigger] both_inside(s, i, j)
        }),
    decreases schedule.len(),
{
    let init = spin_initial(SpinStrategy::CompareExchange, threads);
    if schedule.len() == 0 {
        assert(!exists|i: int| 0 <= i < init.next.len() && #[trigger] holds_lock(init.next[i]));
    } else {
        lemma_exchange_excludes(threads, schedule.drop_last());
        let mid = spin_run(SpinStrategy::CompareExchange, init, schedule.drop_last()).unwrap();
        lemma_exchange_step(mid, schedule.last().0, schedule.last().1);
    }
}

/// The check-then-set protocol does not exclude: two threads can both read
/// the flag unlocked before either sets it, and then both enter the
/// critical section.
pub proof fn lemma_check_then_set_races()
    ensures
        ({
            let s = spin_run(
                SpinStrategy::CheckThenSet,
                spin_initial(SpinStrategy::CheckThenSet, 2),
                seq![(0int, false), (1int, false), (0int, false), (1int, false), (0int, false), (1int, false)],
            );
            &&& s is Some
            &&& both_inside(s.unwrap(), 0, 1)
        }),
{
    let st = SpinStrategy::CheckThenSet;
    let schedule = seq![(0int, false), (1int, false), (0int, false), (1int, false), (0int, false), (1int, false)];
    let s0 = spin_initial(st, 2);
    reveal_with_fuel(spin_run, 7);
    let s1 = spin_thread_step(st, s0, 0, false).unwrap();
    let s2 = spin_thread_step(st, s1, 1, false).unwrap();
    let s3 = spin_thread_step(st, s2, 0, false).unwrap();
    let s4 = spin_thread_step(st, s3, 1, false).unwrap();
    let s5 = spin_thread_step(st, s4, 0, false).unwrap();
    let s6 = spin_thread_step(st, s5, 1, false).unwrap();
    assert(s1.next[0] == SpinAction::Yield);
    assert(s2.next[1] == SpinAction::Yield);
    assert(s3.next[0] == SpinAction::StoreLocked);
    assert(s4.next[1] == SpinAction::StoreLocked);
    assert(s5.next[0] == SpinAction::RunCritical);
    assert(s6.next[1] == SpinAction::RunCritical);
    assert(s6.next[0] == SpinAction::RunCritical);
    let d1 = schedule.drop_last();
    let d2 = d1.drop_last();
    let d3 = d2.drop_last();
    let d4 = d3.drop_last();
    let d5 = d4.drop_last();
    assert(d5.drop_last() =~= Seq::<(int, bool)>::empty());
    assert(d5 =~= seq![(0int, false)]);
    assert(d4 =~= seq![(0int, false), (1int, false)]);
    assert(d3 =~= seq![(0int, false), (1int, false), (0int, false)]);
    assert(d2 =~= seq![(0int, false), (1int, false), (0int, false), (1int, false)]);
    assert(d1 =~= seq![(0int, false), (1int, false), (0int, false), (1int, false), (0int, false)]);
}

/// The thread's next action comes after its critical section: it has yet
/// to unlock, or it is done.
pub open spec fn past_critical(action: SpinAction) -> bool {
    action == SpinAction::StoreUnlocked || action == SpinAction::Finish
}

/// How many times thread `i` ran its critical section during `schedule`,
/// from the state `s`.
pub open spec fn critical_runs(strategy: SpinStrategy, s: SpinSystem, schedule: Seq<(int, bool)>, i: int) -> nat
    decreases schedule.len(),
{
    if schedule.len() == 0 {
        0
    } else {
        let before = critical_runs(strategy, s, schedule.drop_last(), i);
        match spin_run(strategy, s, schedule.drop_last()) {
            Some(mid) => if schedule.last().0 == i && 0 <= i < mid.next.len() && mid.next[i]
                == SpinAction::RunCritical {
                before + 1
            } else {
                before
            },
            None => before,
        }
    }
}

/// Each thread, under either protocol and however the threads interleave,
/// runs its critical section at most once; once it has, it only unlocks
/// and finishes, and never goes back to waiting for the lock.
pub proof fn lemma_critical_at_most_once(
    strategy: SpinStrategy,
    threads: nat,
    schedule: Seq<(int, bool)>,
    i: int,
)
    requires
        0 <= i < threads,
        spin_run(strategy, spin_initial(strategy, threads), schedule) is Some,
    ensures
        ({
            let s = spin_run(strategy, spin_initial(strategy, threads), schedule).unwrap();
            let runs = critical_runs(strategy, spin_initial(strategy, threads), schedule, i);
            &&& runs <= 1
            &&& (runs == 1 <==> past_critical(s.next[i]))
            &&& s.next.len() == threads
        }),
    decreases schedule.len(),
{
    let init = spin_initial(strategy, threads);
    if schedule.len() > 0 {
        let front = schedule.drop_last();
        lemma_critical_at_most_once(strategy, threads, front, i);
        let mid = spin_run(strategy, init, front).unwrap();
        let (j, spurious) = schedule.last();
        let t = spin_thread_step(strategy, mid, j, spurious).unwrap();
        assert(t == spin_run(strategy, init, schedule).unwrap());
        if j != i {
            assert(t.next[i] == mid.next[i]);
        }
    }
}

/// A thread alone, under either protocol, takes the lock, runs its
/// critical section exactly once, unlocks and finishes.
pub proof fn lemma_lone_thread_finishes(strategy: SpinStrategy)
    ensures
        ({
            let steps = match strategy {
                SpinStrategy::CompareExchange => 3nat,
                SpinStrategy::CheckThenSet => 5nat,
            };
            let schedule = Seq::new(steps, |k: int| (0int, false));
            let init = spin_initial(strategy, 1);
            let s = spin_run(strategy, init, schedule);
            &&& s is Some
            &&& s.unwrap().next[0] == SpinAction::Finish
            &&& s.unwrap().locked == UNLOCKED
            &&& critical_runs(strategy, init, schedule, 0) == 1
        }),
{
    let init = spin_initial(strategy, 1);
    let steps = match strategy {
        SpinStrategy::CompareExchange => 3nat,
        SpinStrategy::CheckThenSet => 5nat,
    };
    let schedule = Seq::new(steps, |k: int| (0int, false));
    reveal_with_fuel(spin_run, 6);
    reveal_with_fuel(critical_runs, 6);
    let d1 = schedule.drop_last();
    let d2 = d1.drop_last();
    let d3 = d2.drop_last();
    let s1 = spin_thread_step(strategy, init, 0, false).unwrap();
    let s2 = spin_thread_step(strategy, s1, 0, false).unwrap();
    let s3 = spin_thread_step(strategy, s2, 0, false).unwrap();
    if strategy == SpinStrategy::CompareExchange {
        assert(d3 =~= Seq::<(int, bool)>::empty());
        assert(d2 =~= seq![(0int, false)]);
        assert(d1 =~= seq![(0int, false), (0int, false)]);
        assert(s1.next[0] == SpinAction::RunCritical);
        assert(s2.next[0] == SpinAction::StoreUnlocked);
        assert(s3.next[0] == SpinAction::Finish);
    } else {
        let d4 = d3.drop_last();
        let d5 = d4.drop_last();
        let s4 = spin_thread_step(strategy, s3, 0, false).unwrap();
        let s5 = spin_thread_step(strategy, s4, 0, false).unwrap();
        assert(d5 =~= Seq::<(int, bool)>::empty());
        assert(d4 =~= seq![(0int, false)]);
        assert(d3 =~= seq![(0int, false), (0int, false)]);
        assert(d2 =~= seq![(0int, false), (0int, false), (0int, false)]);
        assert(d1 =~= seq![(0int, false), (0int, false), (0int, false), (0int, false)]);
        assert(s1.next[0] == SpinAction::Yield);
        assert(s2.next[0] == SpinAction::StoreLocked);
        assert(s3.next[0] == SpinAction::RunCritical);
        assert(s4.next[0] == SpinAction::StoreUnlocked);
        assert(s5.next[0] == SpinAction::Finish);
    }
}

} // verus!
