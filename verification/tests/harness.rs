use substrate_runtime_fuzzer::harness::{
    advance_block, charge_then_check, check_account, check_invariants, check_then_charge,
    dispatch_weight_ok, origin_index, recursively_find_call, AccountState, CallTree,
    InvariantViolation, LockRule,
};
use substrate_runtime_fuzzer::harness::{
    admit_extrinsic, enter_extrinsic, start_replay, BlockAdvance, Metering, ReplayRules,
};
use substrate_runtime_fuzzer::harness::{
    check_account_with_freezes, check_invariants_with_freezes, ReasonedAccountState, ReasonedAmount,
};
use substrate_runtime_fuzzer::harness::{
    check_broker, check_regions, BrokerState, IssuanceRule, Region, SaleState,
};

const LIMIT: u64 = 2 * 1_000_000_000_000;

#[test]
fn origin_wraps_around_accounts() {
    assert_eq!(origin_index(7, 5), 2);
    assert_eq!(origin_index(255, 5), 0);
    assert_eq!(origin_index(3, 1), 0);
}

#[test]
fn lapse_advances_blocks() {
    assert_eq!(advance_block(1, 0, 393), 1);
    assert_eq!(advance_block(1, 2, 393), 787);
    assert_eq!(advance_block(1, 255, 393), 1 + 255 * 393);
    assert_eq!(advance_block(4, 3, 1), 7);
}

#[test]
fn weight_charged_before_check_stays_charged() {
    assert_eq!(charge_then_check(0, 10, LIMIT), (10, true));
    assert_eq!(charge_then_check(LIMIT - 5, 10, LIMIT), (LIMIT + 5, false));
    assert_eq!(charge_then_check(u64::MAX - 1, 10, LIMIT), (u64::MAX, false));
}

#[test]
fn weight_checked_before_charge_is_not_charged_when_skipped() {
    assert_eq!(check_then_charge(0, 10, LIMIT), (10, true));
    assert_eq!(check_then_charge(LIMIT - 5, 10, LIMIT), (LIMIT - 5, false));
    assert_eq!(check_then_charge(LIMIT - 11, 10, LIMIT), (LIMIT - 1, true));
}

#[test]
fn dispatch_weight_within_twice_declared() {
    assert!(dispatch_weight_ok(10, 5, 20, 10));
    assert!(!dispatch_weight_ok(10, 5, 21, 10));
    assert!(!dispatch_weight_ok(10, 5, 20, 11));
    assert!(dispatch_weight_ok(u64::MAX, 0, u64::MAX, 0));
}

#[test]
fn finds_calls_at_any_depth() {
    let leaf = |m: bool| CallTree::Leaf(m);
    assert!(!recursively_find_call(&leaf(false)));
    assert!(recursively_find_call(&leaf(true)));
    let batch = CallTree::Batch(vec![leaf(false), CallTree::Wrapped(Box::new(leaf(true)))]);
    assert!(recursively_find_call(&batch));
    let nested = CallTree::Either(
        Box::new(CallTree::Batch(vec![])),
        Box::new(CallTree::Batch(vec![leaf(false), CallTree::Batch(vec![leaf(true)])])),
    );
    assert!(recursively_find_call(&nested));
    let none = CallTree::Batch(vec![leaf(false), CallTree::Wrapped(Box::new(leaf(false)))]);
    assert!(!recursively_find_call(&none));
}

fn account(free: u128, reserved: u128, frozen: u128, locks: Vec<u128>, holds: Vec<u128>) -> AccountState {
    AccountState { consumers: 0, providers: 1, free, reserved, frozen, locks, holds }
}

#[test]
fn account_checks_report_first_violation() {
    let rule = LockRule::MaxLockEqualsFrozen;
    assert!(check_account(&account(10, 5, 3, vec![1, 3], vec![2, 3]), &rule).is_ok());
    let mut bad = account(10, 5, 3, vec![1, 3], vec![2, 3]);
    bad.consumers = 1;
    bad.providers = 0;
    assert!(matches!(check_account(&bad, &rule), Err(InvariantViolation::ConsumersWithoutProviders)));
    assert!(matches!(
        check_account(&account(10, 5, 4, vec![1, 3], vec![]), &rule),
        Err(InvariantViolation::LockMismatch { max_lock: 3, frozen: 4 })
    ));
    assert!(check_account(&account(10, 5, 4, vec![1, 3], vec![]), &LockRule::MaxLockAtMostFrozen).is_ok());
    assert!(matches!(
        check_account(&account(10, 5, 0, vec![], vec![4, 2]), &rule),
        Err(InvariantViolation::HoldsExceedReserved { sum_holds: 6, reserved: 5 })
    ));
}

#[test]
fn issuance_checks() {
    let rule = LockRule::MaxLockAtMostFrozen;
    let accounts = vec![account(10, 5, 0, vec![], vec![]), account(7, 0, 0, vec![], vec![])];
    assert!(check_invariants(&accounts, &rule, &IssuanceRule::EqualsCounted, 22, 22, &None).is_ok());
    assert!(check_invariants(&accounts, &rule, &IssuanceRule::EqualsCounted, 22, 30, &None).is_ok());
    assert!(matches!(
        check_invariants(&accounts, &rule, &IssuanceRule::EqualsCounted, 21, 30, &None),
        Err(InvariantViolation::IssuanceMismatch { total: 21, counted: 22 })
    ));
    assert!(matches!(
        check_invariants(&accounts, &rule, &IssuanceRule::EqualsCounted, 22, 20, &None),
        Err(InvariantViolation::IssuanceGrew { total: 22, initial: 20 })
    ));
    let mut with_bad = accounts;
    with_bad.push(account(0, 1, 0, vec![], vec![2]));
    assert!(matches!(
        check_invariants(&with_bad, &rule, &IssuanceRule::EqualsCounted, 0, 0, &None),
        Err(InvariantViolation::HoldsExceedReserved { sum_holds: 2, reserved: 1 })
    ));
}

#[test]
fn issuance_at_most_counted() {
    let rule = LockRule::MaxLockEqualsFrozen;
    let accounts = vec![account(10, 0, 0, vec![], vec![])];
    // Balance that left the chain: issuance below what is counted.
    assert!(check_invariants(&accounts, &rule, &IssuanceRule::AtMostCounted, 5, 10, &None).is_ok());
    assert!(matches!(
        check_invariants(&accounts, &rule, &IssuanceRule::EqualsCounted, 5, 10, &None),
        Err(InvariantViolation::IssuanceMismatch { total: 5, counted: 10 })
    ));
    assert!(matches!(
        check_invariants(&accounts, &rule, &IssuanceRule::AtMostCounted, 11, 20, &None),
        Err(InvariantViolation::IssuanceMismatch { total: 11, counted: 10 })
    ));
}

fn region(begin: u32, end: u32, core: u16, mask: u128) -> Region {
    Region { begin, end, core, mask }
}

fn broker(regions: Vec<Region>) -> BrokerState {
    BrokerState {
        core_count: Some(10),
        sale: Some(SaleState { first_core: 4, cores_offered: 6, cores_sold: 2 }),
        regions,
    }
}

#[test]
fn broker_checks() {
    assert!(check_broker(&broker(vec![])).is_ok());
    let mut b = broker(vec![]);
    b.core_count = None;
    assert!(matches!(check_broker(&b), Err(InvariantViolation::MissingStatus)));
    let mut b = broker(vec![]);
    b.sale = None;
    assert!(matches!(check_broker(&b), Err(InvariantViolation::MissingSaleInfo)));
    let mut b = broker(vec![]);
    b.core_count = Some(3);
    assert!(matches!(
        check_broker(&b),
        Err(InvariantViolation::FirstCoreTooLarge { first_core: 4, core_count: 3 })
    ));
    let mut b = broker(vec![]);
    b.sale = Some(SaleState { first_core: 0, cores_offered: 1, cores_sold: 2 });
    assert!(matches!(
        check_broker(&b),
        Err(InvariantViolation::CoresSoldExceedOffered { cores_sold: 2, cores_offered: 1 })
    ));
}

#[test]
fn region_masks_must_be_disjoint() {
    // Disjoint masks, other cores, or timeslices that do not meet are fine.
    assert!(check_regions(&vec![region(0, 10, 1, 0b0011), region(5, 15, 1, 0b1100)]));
    assert!(check_regions(&vec![region(0, 10, 1, 0b0011), region(5, 15, 2, 0b0011)]));
    assert!(check_regions(&vec![region(0, 10, 1, 0b0011), region(10, 15, 1, 0b0011)]));
    assert!(check_regions(&vec![region(5, 5, 1, 0b0011), region(0, 10, 1, 0b0011)]));
    // A shared bit on the same core in a shared timeslice is not.
    assert!(!check_regions(&vec![region(0, 10, 1, 0b0011), region(9, 15, 1, 0b0010)]));
    assert!(matches!(
        check_broker(&broker(vec![region(3, 4, 0, 1), region(0, 1, 0, 1), region(3, 8, 0, 1)])),
        Err(InvariantViolation::OverlappingRegions)
    ));
    let accounts = vec![account(10, 0, 0, vec![], vec![])];
    let b = Some(broker(vec![region(0, 10, 1, 0b0011), region(9, 15, 1, 0b0010)]));
    assert!(matches!(
        check_invariants(&accounts, &LockRule::MaxLockEqualsFrozen, &IssuanceRule::EqualsCounted, 10, 10, &b),
        Err(InvariantViolation::OverlappingRegions)
    ));
}

#[test]
fn replay_enters_blocks_on_lapses() {
    let by_lapse = ReplayRules { advance: BlockAdvance::ByLapse(393), metering: Metering::ChargeThenCheck, weight_limit: LIMIT };
    let mut state = start_replay();
    assert_eq!((state.block, state.weight), (1, 0));
    state.weight = 7;
    let (same, started) = enter_extrinsic(&state, &by_lapse, 0);
    assert_eq!((same.block, same.weight, started), (1, 7, None));
    let (next, started) = enter_extrinsic(&state, &by_lapse, 2);
    assert_eq!((next.block, next.weight, started), (787, 0, Some(787)));
    let by_one = ReplayRules { advance: BlockAdvance::ByOne, metering: Metering::CheckThenCharge, weight_limit: LIMIT };
    let (next, started) = enter_extrinsic(&state, &by_one, 200);
    assert_eq!((next.block, started), (2, Some(2)));
}

#[test]
fn replay_admits_by_funds_and_weight() {
    let state = substrate_runtime_fuzzer::harness::ReplayState { block: 3, weight: 90 };
    let charge = ReplayRules { advance: BlockAdvance::ByOne, metering: Metering::ChargeThenCheck, weight_limit: 100 };
    let check = ReplayRules { advance: BlockAdvance::ByOne, metering: Metering::CheckThenCharge, weight_limit: 100 };
    let (s, run) = admit_extrinsic(&state, &charge, true, 5);
    assert_eq!((s.block, s.weight, run), (3, 95, true));
    // Over the limit: charged all the same, but skipped.
    let (s, run) = admit_extrinsic(&state, &charge, true, 20);
    assert_eq!((s.weight, run), (110, false));
    let (s, run) = admit_extrinsic(&state, &check, true, 20);
    assert_eq!((s.weight, run), (90, false));
    let (s, run) = admit_extrinsic(&state, &check, true, 9);
    assert_eq!((s.weight, run), (99, true));
    // An origin without funds is skipped and not charged.
    let (s, run) = admit_extrinsic(&state, &check, false, 1);
    assert_eq!((s.weight, run), (90, false));
    let (s, run) = admit_extrinsic(&state, &check, true, u64::MAX);
    assert_eq!((s.weight, run), (90, false));
}

fn reasoned(free: u128, reserved: u128, frozen: u128) -> ReasonedAccountState {
    ReasonedAccountState {
        consumers: 1,
        providers: 1,
        free,
        reserved,
        frozen,
        locks: vec![],
        freezes: vec![],
        holds: vec![],
    }
}

fn entry(reason: u64, amount: u128) -> ReasonedAmount {
    ReasonedAmount { reason, amount }
}

#[test]
fn freeze_account_checks() {
    let ed = 10;
    let mut ok = reasoned(20, 5, 7);
    ok.locks = vec![3, 7];
    ok.freezes = vec![entry(1, 6), entry(2, 4)];
    ok.holds = vec![entry(1, 2), entry(3, 3)];
    assert!(check_account_with_freezes(&ok, ed).is_ok());
    // An empty account is fine whatever the deposit.
    assert!(check_account_with_freezes(&reasoned(0, 0, 0), ed).is_ok());
    let mut bad = reasoned(20, 5, 7);
    bad.providers = 0;
    assert!(matches!(check_account_with_freezes(&bad, ed), Err(InvariantViolation::ConsumersWithoutProviders)));
    assert!(matches!(
        check_account_with_freezes(&reasoned(4, 5, 0), ed),
        Err(InvariantViolation::BelowExistentialDeposit { total: 9, existential_deposit: 10 })
    ));
    assert!(matches!(
        check_account_with_freezes(&reasoned(6, 5, 12), ed),
        Err(InvariantViolation::FrozenExceedsTotal { frozen: 12, total: 11 })
    ));
    let mut bad = ok_clone(&ok);
    bad.freezes = vec![entry(1, 8)];
    assert!(matches!(
        check_account_with_freezes(&bad, ed),
        Err(InvariantViolation::FrozenNotLargestLockOrFreeze { frozen: 7, max_lock: 7, max_freeze: 8 })
    ));
    let mut bad = ok_clone(&ok);
    bad.freezes = vec![entry(1, 7), entry(2, 0)];
    assert!(matches!(check_account_with_freezes(&bad, ed), Err(InvariantViolation::ZeroFreeze)));
    let mut bad = ok_clone(&ok);
    bad.freezes = vec![entry(1, 7), entry(2, 1), entry(1, 1)];
    assert!(matches!(check_account_with_freezes(&bad, ed), Err(InvariantViolation::DuplicateFreezeReason)));
    let mut bad = ok_clone(&ok);
    bad.holds = vec![entry(1, 4), entry(2, 2)];
    assert!(matches!(
        check_account_with_freezes(&bad, ed),
        Err(InvariantViolation::HoldsExceedReserved { sum_holds: 6, reserved: 5 })
    ));
    let mut bad = ok_clone(&ok);
    bad.holds = vec![entry(4, 1), entry(4, 1)];
    assert!(matches!(check_account_with_freezes(&bad, ed), Err(InvariantViolation::DuplicateHoldReason)));
    let mut bad = ok_clone(&ok);
    bad.holds = vec![entry(4, 0), entry(4, 1)];
    assert!(matches!(check_account_with_freezes(&bad, ed), Err(InvariantViolation::ZeroHold)));
}

fn ok_clone(acc: &ReasonedAccountState) -> ReasonedAccountState {
    ReasonedAccountState {
        consumers: acc.consumers,
        providers: acc.providers,
        free: acc.free,
        reserved: acc.reserved,
        frozen: acc.frozen,
        locks: acc.locks.clone(),
        freezes: acc.freezes.iter().map(|e| entry(e.reason, e.amount)).collect(),
        holds: acc.holds.iter().map(|e| entry(e.reason, e.amount)).collect(),
    }
}

#[test]
fn freeze_run_checks() {
    let accounts = vec![reasoned(20, 5, 0), reasoned(10, 0, 0)];
    assert!(check_invariants_with_freezes(&accounts, 10, &IssuanceRule::EqualsCounted, 35, 35).is_ok());
    assert!(matches!(
        check_invariants_with_freezes(&accounts, 10, &IssuanceRule::EqualsCounted, 34, 35),
        Err(InvariantViolation::IssuanceMismatch { total: 34, counted: 35 })
    ));
    assert!(matches!(
        check_invariants_with_freezes(&accounts, 10, &IssuanceRule::EqualsCounted, 35, 30),
        Err(InvariantViolation::IssuanceGrew { total: 35, initial: 30 })
    ));
    let with_dust = vec![reasoned(20, 5, 0), reasoned(3, 0, 0)];
    assert!(matches!(
        check_invariants_with_freezes(&with_dust, 10, &IssuanceRule::EqualsCounted, 28, 28),
        Err(InvariantViolation::BelowExistentialDeposit { total: 3, existential_deposit: 10 })
    ));
}
