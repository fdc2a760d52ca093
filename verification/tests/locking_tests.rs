use concurrency_patterns::optimistic_locking::{
    exchange_arguments, exchange_outcome, flag_to_store, load_outcome, store_outcome,
    next_spin_action, Mutex, SpinAction, SpinOutcome, SpinStrategy,
};
use concurrency_patterns::total_ordering_for_deadlocks::{
    lock_order, pick_resource, resource_index, MAX_RESOURCES, MAX_WORKERS,
};

#[test]
fn new_mutex_is_unlocked() {
    let m = Mutex::new(41);
    assert!(m.perform(SpinAction::Load) == SpinOutcome::SawUnlocked);
}

fn take(m: &Mutex<u8>) {
    while m.perform(SpinAction::CompareExchange) != SpinOutcome::Exchanged {}
}

#[test]
fn lock_flag_round_trip() {
    let m = Mutex::new(0u8);
    take(&m);
    assert!(m.perform(SpinAction::Load) == SpinOutcome::SawLocked);
    assert!(m.perform(SpinAction::CompareExchange) == SpinOutcome::ExchangeFailed);
    assert!(m.perform(SpinAction::StoreUnlocked) == SpinOutcome::StoredUnlocked);
    assert!(m.perform(SpinAction::Load) == SpinOutcome::SawUnlocked);
    assert!(m.perform(SpinAction::StoreLocked) == SpinOutcome::StoredLocked);
    assert!(m.perform(SpinAction::Load) == SpinOutcome::SawLocked);
}

#[test]
fn exchange_protocol_table() {
    let s = SpinStrategy::CompareExchange;
    assert!(next_spin_action(s, SpinOutcome::Started) == SpinAction::CompareExchange);
    assert!(next_spin_action(s, SpinOutcome::ExchangeFailed) == SpinAction::Load);
    assert!(next_spin_action(s, SpinOutcome::SawLocked) == SpinAction::Load);
    assert!(next_spin_action(s, SpinOutcome::SawUnlocked) == SpinAction::CompareExchange);
    assert!(next_spin_action(s, SpinOutcome::Exchanged) == SpinAction::RunCritical);
    assert!(next_spin_action(s, SpinOutcome::CriticalDone) == SpinAction::StoreUnlocked);
    assert!(next_spin_action(s, SpinOutcome::StoredUnlocked) == SpinAction::Finish);
}

#[test]
fn check_then_set_protocol_table() {
    let s = SpinStrategy::CheckThenSet;
    assert!(next_spin_action(s, SpinOutcome::Started) == SpinAction::Load);
    assert!(next_spin_action(s, SpinOutcome::SawLocked) == SpinAction::Load);
    assert!(next_spin_action(s, SpinOutcome::SawUnlocked) == SpinAction::Yield);
    assert!(next_spin_action(s, SpinOutcome::Yielded) == SpinAction::StoreLocked);
    assert!(next_spin_action(s, SpinOutcome::StoredLocked) == SpinAction::RunCritical);
    assert!(next_spin_action(s, SpinOutcome::CriticalDone) == SpinAction::StoreUnlocked);
}

#[test]
fn check_then_set_lets_two_threads_in() {
    // replay the interleaving 0,1,0,1,0,1 on a flag shared by two threads
    let s = SpinStrategy::CheckThenSet;
    let mut locked = false;
    let mut outcome = [SpinOutcome::Started, SpinOutcome::Started];
    for &t in [0usize, 1, 0, 1, 0, 1].iter() {
        let action = next_spin_action(s, outcome[t]);
        outcome[t] = match action {
            SpinAction::Load => {
                if locked {
                    SpinOutcome::SawLocked
                } else {
                    SpinOutcome::SawUnlocked
                }
            }
            SpinAction::Yield => SpinOutcome::Yielded,
            SpinAction::StoreLocked => {
                locked = true;
                SpinOutcome::StoredLocked
            }
            _ => panic!("unexpected action"),
        };
    }
    assert!(next_spin_action(s, outcome[0]) == SpinAction::RunCritical);
    assert!(next_spin_action(s, outcome[1]) == SpinAction::RunCritical);
}

#[test]
fn exchange_protocol_keeps_second_thread_out() {
    let s = SpinStrategy::CompareExchange;
    let m = Mutex::new(0u8);
    // thread 0 takes the lock
    take(&m);
    let first = next_spin_action(s, SpinOutcome::Exchanged);
    assert!(first == SpinAction::RunCritical);
    // thread 1 fails and spins on loads
    assert!(m.perform(SpinAction::CompareExchange) == SpinOutcome::ExchangeFailed);
    let second = next_spin_action(s, SpinOutcome::ExchangeFailed);
    assert!(second == SpinAction::Load);
    assert!(m.perform(SpinAction::Load) == SpinOutcome::SawLocked);
    assert!(next_spin_action(s, SpinOutcome::SawLocked) == SpinAction::Load);
    m.perform(SpinAction::StoreUnlocked);
    assert!(m.perform(SpinAction::Load) == SpinOutcome::SawUnlocked);
    assert!(next_spin_action(s, SpinOutcome::SawUnlocked) == SpinAction::CompareExchange);
}

#[test]
fn lock_order_puts_lower_first() {
    assert_eq!(lock_order(2, 0), Some((0, 2)));
    assert_eq!(lock_order(0, 2), Some((0, 2)));
    assert_eq!(lock_order(1, 1), None);
}

#[test]
fn ordered_waits_never_close_a_cycle() {
    // any chain of workers built from lock_order waits upward
    let pairs = [(2usize, 1usize), (1, 0), (0, 2)];
    let orders: Vec<(usize, usize)> = pairs.iter().map(|&(a, b)| lock_order(a, b).unwrap()).collect();
    for &(lo, hi) in orders.iter() {
        assert!(lo < hi);
    }
    // a worker holding 0 and waiting on 1, another holding 1 waiting on 2:
    // nobody can hold 2 and wait on 0
    assert!(orders.iter().all(|&(lo, hi)| !(lo == 2 && hi == 0)));
}

#[test]
fn resource_indices() {
    assert_eq!(MAX_RESOURCES, 3);
    assert_eq!(MAX_WORKERS, 6);
    assert_eq!(resource_index(7), 1);
    assert_eq!(resource_index(usize::MAX), usize::MAX % 3);
    for _ in 0..100 {
        assert!(pick_resource() < MAX_RESOURCES);
    }
}

#[test]
fn flag_helpers() {
    assert_eq!(exchange_arguments(), (false, true));
    assert!(exchange_outcome(Ok(false)) == SpinOutcome::Exchanged);
    assert!(exchange_outcome(Err(true)) == SpinOutcome::ExchangeFailed);
    assert!(load_outcome(true) == SpinOutcome::SawLocked);
    assert!(load_outcome(false) == SpinOutcome::SawUnlocked);
    assert!(flag_to_store(SpinAction::StoreLocked));
    assert!(!flag_to_store(SpinAction::StoreUnlocked));
    assert!(store_outcome(SpinAction::StoreLocked) == SpinOutcome::StoredLocked);
    assert!(store_outcome(SpinAction::StoreUnlocked) == SpinOutcome::StoredUnlocked);
}
