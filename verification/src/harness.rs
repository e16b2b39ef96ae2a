//! Decisions the runtime fuzzing harnesses take while replaying extrinsics
//! block by block, and the balance invariants they check once all blocks ran.
//!
//! The runtime itself (its calls, origins and storage) stays with the
//! harness: these functions take what it reads as plain values.
use vstd::prelude::*;

verus! {

// ---------------------------------------------------------------------------
// Replaying extrinsics
// ---------------------------------------------------------------------------

/// The account an origin byte selects among `accounts` endowed accounts.
pub fn origin_index(origin: u8, accounts: usize) -> (res: usize)
    requires
        accounts > 0,
    ensures
        res == origin as int % accounts as int,
        res < accounts,
{
    origin as usize % accounts
}

/// The block reached after a lapse of `lapse` steps of `blocks_per_lapse`
/// blocks each.
pub fn advance_block(block: u32, lapse: u8, blocks_per_lapse: u32) -> (res: u32)
    requires
        block + lapse * blocks_per_lapse <= u32::MAX,
    ensures
        res == block + lapse * blocks_per_lapse,
{
    proof {
        assert(0 <= lapse * blocks_per_lapse) by (nonlinear_arith);
    }
    block + (lapse as u32) * blocks_per_lapse
}

/// `a + b`, or `u64::MAX` where that overflows.
pub open spec fn saturating_add_u64(a: u64, b: u64) -> u64 {
    if a + b > u64::MAX {
        u64::MAX
    } else {
        (a + b) as u64
    }
}

/// `a * 2`, or `u64::MAX` where that overflows.
pub open spec fn saturating_double_u64(a: u64) -> u64 {
    if 2 * a > u64::MAX {
        u64::MAX
    } else {
        (2 * a) as u64
    }
}

/// Charges a call's weight to the block, then says whether the block is
/// still under `limit`. The charge stays even when the call is skipped.
pub fn charge_then_check(used: u64, call: u64, limit: u64) -> (res: (u64, bool))
    ensures
        res.0 == saturating_add_u64(used, call),
        res.1 == (res.0 < limit),
{
    let charged = used.saturating_add(call);
    (charged, charged < limit)
}

/// Says whether a call fits in the block under `limit`, charging its weight
/// only when it does.
pub fn check_then_charge(used: u64, call: u64, limit: u64) -> (res: (u64, bool))
    ensures
        saturating_add_u64(used, call) < limit ==> res == (saturating_add_u64(used, call), true),
        saturating_add_u64(used, call) >= limit ==> res == (used, false),
{
    let cumulative = used.saturating_add(call);
    if cumulative >= limit {
        (used, false)
    } else {
        (cumulative, true)
    }
}

fn saturating_double(a: u64) -> (res: u64)
    ensures
        res == saturating_double_u64(a),
{
    if a > u64::MAX / 2 {
        u64::MAX
    } else {
        a * 2
    }
}

/// A dispatch used at most twice the weight it declared beforehand, in both
/// reference time and proof size.
pub fn dispatch_weight_ok(pre_ref_time: u64, pre_proof_size: u64, post_ref_time: u64, post_proof_size: u64) -> (res: bool)
    ensures
        res == (saturating_double_u64(pre_ref_time) >= post_ref_time && saturating_double_u64(pre_proof_size)
            >= post_proof_size),
{
    saturating_double(pre_ref_time) >= post_ref_time && saturating_double(pre_proof_size) >= post_proof_size
}

// ---------------------------------------------------------------------------
// The replay loop, one extrinsic at a time
// ---------------------------------------------------------------------------

/// How far a new block lies from the current one: the next block, or
/// `lapse` times the given number of blocks.
pub enum BlockAdvance {
    ByOne,
    ByLapse(u32),
}

/// Whether an extrinsic's weight is charged before the block limit is
/// checked (and stays charged when it is skipped), or only once it fits.
pub enum Metering {
    ChargeThenCheck,
    CheckThenCharge,
}

/// How a harness replays extrinsics.
pub struct ReplayRules {
    pub advance: BlockAdvance,
    pub metering: Metering,
    /// The reference time a block may not reach.
    pub weight_limit: u64,
}

/// Where the replay stands: the current block and the reference time the
/// extrinsics of this block were charged.
pub struct ReplayState {
    pub block: u32,
    pub weight: u64,
}

/// The block that a lapse of `lapse` leads to.
pub open spec fn next_block(block: u32, advance: BlockAdvance, lapse: u8) -> int {
    match advance {
        BlockAdvance::ByOne => block + 1,
        BlockAdvance::ByLapse(per) => block + lapse * per,
    }
}

/// The state at the start of the replay: block 1, nothing charged.
pub fn start_replay() -> (res: ReplayState)
    ensures
        res.block == 1,
        res.weight == 0,
{
    ReplayState { block: 1, weight: 0 }
}

/// Takes in the lapse of the next extrinsic. A non-zero lapse ends the
/// current block: the harness finalizes it and initializes the block given
/// back, whose weight starts at zero. A zero lapse stays in the block.
pub fn enter_extrinsic(state: &ReplayState, rules: &ReplayRules, lapse: u8) -> (res: (ReplayState, Option<u32>))
    requires
        lapse > 0 ==> next_block(state.block, rules.advance, lapse) <= u32::MAX,
    ensures
        lapse == 0 ==> res.0 == *state && res.1 is None,
        lapse > 0 ==> {
            &&& res.0.block == next_block(state.block, rules.advance, lapse)
            &&& res.0.weight == 0
            &&& res.1 == Some(res.0.block)
        },
{
    if lapse == 0 {
        return (ReplayState { block: state.block, weight: state.weight }, None);
    }
    let block = match rules.advance {
        BlockAdvance::ByOne => state.block + 1,
        BlockAdvance::ByLapse(per) => advance_block(state.block, lapse, per),
    };
    (ReplayState { block, weight: 0 }, Some(block))
}

/// What admitting an extrinsic does: whether it is dispatched, and the
/// weight charged afterwards. An origin without funds is skipped uncharged;
/// otherwise the weight is metered as `rules` says against the limit.
pub open spec fn admitted_weight(rules: ReplayRules, weight: u64, has_funds: bool, call_weight: u64) -> (u64, bool) {
    let total = saturating_add_u64(weight, call_weight);
    if !has_funds {
        (weight, false)
    } else {
        match rules.metering {
            Metering::ChargeThenCheck => (total, total < rules.weight_limit),
            Metering::CheckThenCharge => if total < rules.weight_limit {
                (total, true)
            } else {
                (weight, false)
            },
        }
    }
}

/// Decides whether the extrinsic runs, given whether its origin has funds
/// (harnesses that do not check pass `true`) and its declared weight, and
/// charges the block for it.
pub fn admit_extrinsic(state: &ReplayState, rules: &ReplayRules, has_funds: bool, call_weight: u64) -> (res: (
    ReplayState,
    bool,
))
    ensures
        res.0.block == state.block,
        (res.0.weight, res.1) == admitted_weight(*rules, state.weight, has_funds, call_weight),
        res.1 ==> res.0.weight < rules.weight_limit,
{
    if !has_funds {
        return (ReplayState { block: state.block, weight: state.weight }, false);
    }
    let (weight, dispatch) = match rules.metering {
        Metering::ChargeThenCheck => charge_then_check(state.weight, call_weight, rules.weight_limit),
        Metering::CheckThenCharge => check_then_charge(state.weight, call_weight, rules.weight_limit),
    };
    (ReplayState { block: state.block, weight }, dispatch)
}

// ---------------------------------------------------------------------------
// Looking for calls inside batches and wrappers
// ---------------------------------------------------------------------------

/// The shape of a runtime call as far as the search for a forbidden call
/// cares: batches of calls, calls wrapping one call, calls with a main and a
/// fallback call, and all other calls, marked with whether they match.
pub enum CallTree {
    Batch(Vec<CallTree>),
    Wrapped(Box<CallTree>),
    Either(Box<CallTree>, Box<CallTree>),
    Leaf(bool),
}

/// Whether some call at any depth of `call` matches.
pub open spec fn tree_matches(call: CallTree) -> bool
    decreases call, 0nat,
{
    match call {
        CallTree::Batch(calls) => any_tree_matches(calls@, calls@.len()),
        CallTree::Wrapped(inner) => tree_matches(*inner),
        CallTree::Either(main, fallback) => tree_matches(*main) || tree_matches(*fallback),
        CallTree::Leaf(matches) => matches,
    }
}

/// Whether one of the first `n` calls of a batch matches at any depth.
pub open spec fn any_tree_matches(calls: Seq<CallTree>, n: nat) -> bool
    decreases calls, n,
{
    if n == 0 || n > calls.len() {
        false
    } else {
        any_tree_matches(calls, (n - 1) as nat) || tree_matches(calls[n - 1])
    }
}

proof fn lemma_any_tree_matches(calls: Seq<CallTree>, i: int, n: nat)
    requires
        0 <= i < n <= calls.len(),
        tree_matches(calls[i]),
    ensures
        any_tree_matches(calls, n),
    decreases n,
{
    if i < n - 1 {
        lemma_any_tree_matches(calls, i, (n - 1) as nat);
    }
}

/// The call reached from `call` by following `path`: in a batch the step
/// picks a call by its position, in a wrapping call the step 0 enters the
/// wrapped call, and in a call with a fallback the step 0 enters the main
/// call and 1 the fallback.
pub open spec fn call_at(call: CallTree, path: Seq<int>) -> Option<CallTree>
    decreases path.len(),
{
    if path.len() == 0 {
        Some(call)
    } else {
        match call {
            CallTree::Batch(calls) => if 0 <= path[0] < calls@.len() {
                call_at(calls@[path[0]], path.drop_first())
            } else {
                None
            },
            CallTree::Wrapped(inner) => if path[0] == 0 {
                call_at(*inner, path.drop_first())
            } else {
                None
            },
            CallTree::Either(main, fallback) => if path[0] == 0 {
                call_at(*main, path.drop_first())
            } else if path[0] == 1 {
                call_at(*fallback, path.drop_first())
            } else {
                None
            },
            CallTree::Leaf(_) => None,
        }
    }
}

proof fn lemma_any_tree_matches_witness(calls: Seq<CallTree>, n: nat)
    requires
        any_tree_matches(calls, n),
    ensures
        exists|i: int| 0 <= i < n && i < calls.len() && tree_matches(#[trigger] calls[i]),
    decreases n,
{
    if n > 0 && n <= calls.len() && !tree_matches(calls[n - 1]) {
        lemma_any_tree_matches_witness(calls, (n - 1) as nat);
    }
}

/// A call matches exactly when some call nested in it at any depth, along
/// batches, wrapped calls and both branches of a call with a fallback, is a
/// matching leaf.
pub proof fn lemma_tree_matches_paths(call: CallTree)
    ensures
        tree_matches(call) <==> exists|path: Seq<int>| #[trigger] call_at(call, path) == Some(CallTree::Leaf(true)),
    decreases call,
{
    let leaf = CallTree::Leaf(true);
    match call {
        CallTree::Leaf(b) => {
            if b {
                assert(call_at(call, Seq::<int>::empty()) == Some(leaf));
            } else {
                assert forall|path: Seq<int>| #[trigger] call_at(call, path) != Some(leaf) by {}
            }
        },
        CallTree::Wrapped(inner) => {
            lemma_tree_matches_paths(*inner);
            if tree_matches(*inner) {
                let p = choose|p: Seq<int>| #[trigger] call_at(*inner, p) == Some(leaf);
                assert((seq![0int] + p).drop_first() =~= p);
                assert(call_at(call, seq![0int] + p) == Some(leaf));
            } else {
                assert forall|path: Seq<int>| #[trigger] call_at(call, path) != Some(leaf) by {
                    if path.len() > 0 && path[0] == 0 {
                        assert(call_at(*inner, path.drop_first()) != Some(leaf));
                    }
                }
            }
        },
        CallTree::Either(main, fallback) => {
            lemma_tree_matches_paths(*main);
            lemma_tree_matches_paths(*fallback);
            if tree_matches(*main) {
                let p = choose|p: Seq<int>| #[trigger] call_at(*main, p) == Some(leaf);
                assert((seq![0int] + p).drop_first() =~= p);
                assert(call_at(call, seq![0int] + p) == Some(leaf));
            } else if tree_matches(*fallback) {
                let p = choose|p: Seq<int>| #[trigger] call_at(*fallback, p) == Some(leaf);
                assert((seq![1int] + p).drop_first() =~= p);
                assert(call_at(call, seq![1int] + p) == Some(leaf));
            } else {
                assert forall|path: Seq<int>| #[trigger] call_at(call, path) != Some(leaf) by {
                    if path.len() > 0 && path[0] == 0 {
                        assert(call_at(*main, path.drop_first()) != Some(leaf));
                    } else if path.len() > 0 && path[0] == 1 {
                        assert(call_at(*fallback, path.drop_first()) != Some(leaf));
                    }
                }
            }
        },
        CallTree::Batch(calls) => {
            let cs = calls@;
            assert forall|i: int| 0 <= i < cs.len() implies (tree_matches(#[trigger] cs[i]) <==> exists|
                path: Seq<int>,
            | #[trigger] call_at(cs[i], path) == Some(leaf)) by {
                vstd::std_specs::vec::axiom_vec_index_decreases(calls, i);
                assert(decreases_to!(call => calls));
                lemma_tree_matches_paths(cs[i]);
            }
            if tree_matches(call) {
                lemma_any_tree_matches_witness(cs, cs.len());
                let i = choose|i: int| 0 <= i < cs.len() && 0 <= i < cs.len() && tree_matches(#[trigger] cs[i]);
                let p = choose|p: Seq<int>| #[trigger] call_at(cs[i], p) == Some(leaf);
                assert((seq![i] + p).drop_first() =~= p);
                assert(call_at(call, seq![i] + p) == Some(leaf));
            } else {
                assert forall|path: Seq<int>| #[trigger] call_at(call, path) != Some(leaf) by {
                    if path.len() > 0 && 0 <= path[0] < cs.len() {
                        let i = path[0];
                        if call_at(cs[i], path.drop_first()) == Some(leaf) {
                            assert(tree_matches(cs[i]));
                            lemma_any_tree_matches(cs, i, cs.len());
                        }
                    }
                }
            }
        },
    }
}

/// Looks through batches and wrapping calls for a matching call.
pub fn recursively_find_call(call: &CallTree) -> (res: bool)
    ensures
        res == tree_matches(*call),
    decreases call,
{
    match call {
        CallTree::Batch(calls) => {
            let mut i: usize = 0;
            while i < calls.len()
                invariant
                    *call == CallTree::Batch(*calls),
                    i <= calls@.len(),
                    !any_tree_matches(calls@, i as nat),
                decreases calls@.len() - i,
            {
                proof {
                    vstd::std_specs::vec::axiom_vec_index_decreases(*calls, i as int);
                    assert(decreases_to!(*call => (*call)->Batch_0));
                }
                if recursively_find_call(&calls[i]) {
                    proof {
                        lemma_any_tree_matches(calls@, i as int, calls@.len());
                    }
                    return true;
                }
                i = i + 1;
            }
            false
        },
        CallTree::Wrapped(inner) => recursively_find_call(inner),
        CallTree::Either(main, fallback) => recursively_find_call(main) || recursively_find_call(fallback),
        CallTree::Leaf(matches) => *matches,
    }
}

// ---------------------------------------------------------------------------
// Balance invariants
// ---------------------------------------------------------------------------

/// What the invariants read of one account.
pub struct AccountState {
    pub consumers: u32,
    pub providers: u32,
    pub free: u128,
    pub reserved: u128,
    pub frozen: u128,
    /// The amounts of the account's balance locks.
    pub locks: Vec<u128>,
    /// The amounts of the account's holds.
    pub holds: Vec<u128>,
}

/// How the largest lock must relate to the frozen balance.
pub enum LockRule {
    MaxLockEqualsFrozen,
    MaxLockAtMostFrozen,
}

/// The first invariant found broken.
pub enum InvariantViolation {
    /// An account has consumers but no providers.
    ConsumersWithoutProviders,
    /// The largest lock does not relate to the frozen balance as required.
    LockMismatch { max_lock: u128, frozen: u128 },
    /// The holds add up to more than the reserved balance.
    HoldsExceedReserved { sum_holds: u128, reserved: u128 },
    /// The total issuance does not relate to the sum of all free and
    /// reserved balances as required.
    IssuanceMismatch { total: u128, counted: u128 },
    /// The total issuance grew beyond the initial issuance.
    IssuanceGrew { total: u128, initial: u128 },
    /// The broker pallet has no status.
    MissingStatus,
    /// The broker pallet has no sale info.
    MissingSaleInfo,
    /// The sale's first core lies beyond the core count.
    FirstCoreTooLarge { first_core: u16, core_count: u16 },
    /// The sale sold more cores than it offered.
    CoresSoldExceedOffered { cores_sold: u16, cores_offered: u16 },
    /// Two regions share a core part on the same core in the same timeslice.
    OverlappingRegions,
    /// An account holds a non-zero total balance below the existential
    /// deposit.
    BelowExistentialDeposit { total: u128, existential_deposit: u128 },
    /// The frozen balance exceeds the account's total balance.
    FrozenExceedsTotal { frozen: u128, total: u128 },
    /// The frozen balance is not the larger of the largest lock and the
    /// largest freeze.
    FrozenNotLargestLockOrFreeze { frozen: u128, max_lock: u128, max_freeze: u128 },
    /// A freeze has a zero amount.
    ZeroFreeze,
    /// Two freezes share a reason.
    DuplicateFreezeReason,
    /// A hold has a zero amount.
    ZeroHold,
    /// Two holds share a reason.
    DuplicateHoldReason,
}

/// How the total issuance must relate to the counted free and reserved
/// balances: equal to them, or at most them (where balance may have left
/// the chain).
pub enum IssuanceRule {
    EqualsCounted,
    AtMostCounted,
}

/// What the invariants read of a broker region: the timeslices
/// `begin..end` during which it holds the parts `mask` of core `core`.
pub struct Region {
    pub begin: u32,
    pub end: u32,
    pub core: u16,
    /// The core mask's bits.
    pub mask: u128,
}

/// What the invariants read of an ongoing sale.
pub struct SaleState {
    pub first_core: u16,
    pub cores_offered: u16,
    pub cores_sold: u16,
}

/// What the invariants read of the broker pallet: the status's core count
/// and the sale info (each absent where the pallet has none), and all
/// regions.
pub struct BrokerState {
    pub core_count: Option<u16>,
    pub sale: Option<SaleState>,
    pub regions: Vec<Region>,
}

/// The largest amount, or 0 for none.
pub open spec fn max_amount(s: Seq<u128>) -> u128
    decreases s.len(),
{
    if s.len() == 0 {
        0
    } else {
        let rest = max_amount(s.drop_last());
        if s.last() > rest {
            s.last()
        } else {
            rest
        }
    }
}

/// The largest amount is at least every amount, and is one of them (or 0
/// where there are none).
pub proof fn lemma_max_amount_is_largest(s: Seq<u128>)
    ensures
        forall|i: int| 0 <= i < s.len() ==> s[i] <= max_amount(s),
        s.len() == 0 ==> max_amount(s) == 0,
        s.len() > 0 ==> exists|i: int| 0 <= i < s.len() && s[i] == max_amount(s),
    decreases s.len(),
{
    if s.len() > 0 {
        let rest = s.drop_last();
        lemma_max_amount_is_largest(rest);
        assert forall|i: int| 0 <= i < s.len() implies s[i] <= max_amount(s) by {
            if i < s.len() - 1 {
                assert(s[i] == rest[i]);
            }
        }
        if s.last() > max_amount(rest) {
            assert(s[s.len() - 1] == max_amount(s));
        } else if rest.len() > 0 {
            let i = choose|i: int| 0 <= i < rest.len() && rest[i] == max_amount(rest);
            assert(s[i] == rest[i]);
        } else {
            assert(s[0] == s.last());
        }
    }
}

/// The sum of the amounts.
pub open spec fn sum_amounts(s: Seq<u128>) -> int
    decreases s.len(),
{
    if s.len() == 0 {
        0
    } else {
        sum_amounts(s.drop_last()) + s.last()
    }
}

/// The sum of one amount is that amount, and the sum of two lists laid
/// end to end is the sum of their sums.
pub proof fn lemma_sum_amounts_adds(s: Seq<u128>, t: Seq<u128>, x: u128)
    ensures
        sum_amounts(seq![x]) == x,
        sum_amounts(s + t) == sum_amounts(s) + sum_amounts(t),
    decreases t.len(),
{
    assert(seq![x].drop_last() =~= Seq::<u128>::empty());
    assert(sum_amounts(Seq::<u128>::empty()) == 0);
    assert(seq![x].last() == x);
    assert(sum_amounts(seq![x]) == sum_amounts(seq![x].drop_last()) + x);
    if t.len() == 0 {
        assert(s + t =~= s);
    } else {
        assert((s + t).drop_last() =~= s + t.drop_last());
        lemma_sum_amounts_adds(s, t.drop_last(), x);
    }
}

proof fn lemma_sum_amounts_monotone(s: Seq<u128>, i: int)
    requires
        0 <= i <= s.len(),
    ensures
        0 <= sum_amounts(s.take(i)) <= sum_amounts(s),
    decreases s.len(),
{
    if i < s.len() {
        lemma_sum_amounts_monotone(s.drop_last(), i);
        assert(s.drop_last().take(i) =~= s.take(i));
    } else {
        assert(s.take(i) =~= s);
    }
    if s.len() > 0 {
        lemma_sum_amounts_nonneg(s.drop_last());
    }
}

proof fn lemma_sum_amounts_nonneg(s: Seq<u128>)
    ensures
        0 <= sum_amounts(s),
    decreases s.len(),
{
    if s.len() > 0 {
        lemma_sum_amounts_nonneg(s.drop_last());
    }
}

/// What the per-account invariants find wrong with `acc`, if anything.
pub open spec fn account_violation(acc: AccountState, rule: LockRule) -> Option<InvariantViolation> {
    let max_lock = max_amount(acc.locks@);
    if acc.consumers > 0 && acc.providers == 0 {
        Some(InvariantViolation::ConsumersWithoutProviders)
    } else if match rule {
        LockRule::MaxLockEqualsFrozen => max_lock != acc.frozen,
        LockRule::MaxLockAtMostFrozen => max_lock > acc.frozen,
    } {
        Some(InvariantViolation::LockMismatch { max_lock, frozen: acc.frozen })
    } else if sum_amounts(acc.holds@) > acc.reserved {
        Some(
            InvariantViolation::HoldsExceedReserved {
                sum_holds: sum_amounts(acc.holds@) as u128,
                reserved: acc.reserved,
            },
        )
    } else {
        None
    }
}

fn max_of(amounts: &Vec<u128>) -> (res: u128)
    ensures
        res == max_amount(amounts@),
{
    let mut best: u128 = 0;
    let mut i: usize = 0;
    while i < amounts.len()
        invariant
            i <= amounts@.len(),
            best == max_amount(amounts@.take(i as int)),
        decreases amounts@.len() - i,
    {
        proof {
            assert(amounts@.take(i + 1).drop_last() =~= amounts@.take(i as int));
        }
        if amounts[i] > best {
            best = amounts[i];
        }
        i = i + 1;
    }
    proof {
        assert(amounts@.take(amounts@.len() as int) =~= amounts@);
    }
    best
}

fn sum_of(amounts: &Vec<u128>) -> (res: u128)
    requires
        sum_amounts(amounts@) <= u128::MAX,
    ensures
        res == sum_amounts(amounts@),
{
    let mut total: u128 = 0;
    let mut i: usize = 0;
    while i < amounts.len()
        invariant
            i <= amounts@.len(),
            sum_amounts(amounts@) <= u128::MAX,
            total == sum_amounts(amounts@.take(i as int)),
        decreases amounts@.len() - i,
    {
        proof {
            assert(amounts@.take(i + 1).drop_last() =~= amounts@.take(i as int));
            lemma_sum_amounts_monotone(amounts@, i + 1);
        }
        total = total + amounts[i];
        i = i + 1;
    }
    proof {
        assert(amounts@.take(amounts@.len() as int) =~= amounts@);
    }
    total
}

/// Checks one account: consumers need a provider, the largest lock must
/// relate to the frozen balance as `rule` says, and the holds must fit in
/// the reserved balance.
pub fn check_account(acc: &AccountState, rule: &LockRule) -> (res: Result<(), InvariantViolation>)
    requires
        sum_amounts(acc.holds@) <= u128::MAX,
    ensures
        match res {
            Ok(()) => account_violation(*acc, *rule) is None,
            Err(v) => account_violation(*acc, *rule) == Some(v),
        },
{
    if acc.consumers > 0 && acc.providers == 0 {
        return Err(InvariantViolation::ConsumersWithoutProviders);
    }
    let max_lock = max_of(&acc.locks);
    let lock_ok = match rule {
        LockRule::MaxLockEqualsFrozen => max_lock == acc.frozen,
        LockRule::MaxLockAtMostFrozen => max_lock <= acc.frozen,
    };
    if !lock_ok {
        return Err(InvariantViolation::LockMismatch { max_lock, frozen: acc.frozen });
    }
    let sum_holds = sum_of(&acc.holds);
    if sum_holds > acc.reserved {
        return Err(InvariantViolation::HoldsExceedReserved { sum_holds, reserved: acc.reserved });
    }
    Ok(())
}

/// A freeze or hold: the reason it was made for, as an integer standing for
/// the runtime's reason, and its amount.
pub struct ReasonedAmount {
    pub reason: u64,
    pub amount: u128,
}

/// What the invariants read of one account where freezes and holds carry
/// their reasons.
pub struct ReasonedAccountState {
    pub consumers: u32,
    pub providers: u32,
    pub free: u128,
    pub reserved: u128,
    pub frozen: u128,
    /// The amounts of the account's balance locks.
    pub locks: Vec<u128>,
    pub freezes: Vec<ReasonedAmount>,
    pub holds: Vec<ReasonedAmount>,
}

/// The amounts of `entries`.
pub open spec fn amounts_of(entries: Seq<ReasonedAmount>) -> Seq<u128> {
    entries.map_values(|e: ReasonedAmount| e.amount)
}

/// Entry `i` has a zero amount or shares its reason with a later entry.
pub open spec fn entry_wrong(entries: Seq<ReasonedAmount>, i: int) -> bool {
    ||| entries[i].amount == 0
    ||| exists|j: int| i < j < entries.len() && #[trigger] entries[j].reason == entries[i].reason
}

/// What is wrong with freezes or holds, looked at in order: the first entry
/// with a zero amount or a reason that a later entry shares gives `zero` or
/// `duplicate`.
pub open spec fn entries_violation(
    entries: Seq<ReasonedAmount>,
    zero: InvariantViolation,
    duplicate: InvariantViolation,
) -> Option<InvariantViolation> {
    if exists|i: int| 0 <= i < entries.len() && #[trigger] entry_wrong(entries, i) {
        let i = choose|i: int|
            0 <= i < entries.len() && #[trigger] entry_wrong(entries, i) && forall|k: int|
                0 <= k < i ==> !entry_wrong(entries, k);
        if entries[i].amount == 0 {
            Some(zero)
        } else {
            Some(duplicate)
        }
    } else {
        None
    }
}

/// What the per-account invariants find wrong with `acc`, if anything:
/// consumers need a provider; a non-zero total balance reaches the
/// existential deposit; the frozen balance is within the total and is the
/// larger of the largest lock and the largest freeze; freezes are non-zero
/// with distinct reasons; the holds fit in the reserved balance and are
/// non-zero with distinct reasons.
pub open spec fn reasoned_account_violation(acc: ReasonedAccountState, existential_deposit: u128) -> Option<
    InvariantViolation,
> {
    let total = acc.free + acc.reserved;
    let max_lock = max_amount(acc.locks@);
    let max_freeze = max_amount(amounts_of(acc.freezes@));
    let largest = if max_lock >= max_freeze {
        max_lock
    } else {
        max_freeze
    };
    let sum_holds = sum_amounts(amounts_of(acc.holds@));
    if acc.consumers > 0 && acc.providers == 0 {
        Some(InvariantViolation::ConsumersWithoutProviders)
    } else if total != 0 && total < existential_deposit {
        Some(InvariantViolation::BelowExistentialDeposit { total: total as u128, existential_deposit })
    } else if total < acc.frozen {
        Some(InvariantViolation::FrozenExceedsTotal { frozen: acc.frozen, total: total as u128 })
    } else if acc.frozen != largest {
        Some(InvariantViolation::FrozenNotLargestLockOrFreeze { frozen: acc.frozen, max_lock, max_freeze })
    } else if entries_violation(acc.freezes@, InvariantViolation::ZeroFreeze, InvariantViolation::DuplicateFreezeReason)
        is Some {
        entries_violation(acc.freezes@, InvariantViolation::ZeroFreeze, InvariantViolation::DuplicateFreezeReason)
    } else if sum_holds > acc.reserved {
        Some(InvariantViolation::HoldsExceedReserved { sum_holds: sum_holds as u128, reserved: acc.reserved })
    } else {
        entries_violation(acc.holds@, InvariantViolation::ZeroHold, InvariantViolation::DuplicateHoldReason)
    }
}

fn max_reasoned(entries: &Vec<ReasonedAmount>) -> (res: u128)
    ensures
        res == max_amount(amounts_of(entries@)),
{
    let ghost a = amounts_of(entries@);
    let mut best: u128 = 0;
    let mut i: usize = 0;
    while i < entries.len()
        invariant
            a == amounts_of(entries@),
            i <= entries@.len(),
            best == max_amount(a.take(i as int)),
        decreases entries@.len() - i,
    {
        proof {
            assert(a.take(i + 1).drop_last() =~= a.take(i as int));
            assert(a[i as int] == entries@[i as int].amount);
        }
        if entries[i].amount > best {
            best = entries[i].amount;
        }
        i = i + 1;
    }
    proof {
        assert(a.take(entries@.len() as int) =~= a);
    }
    best
}

fn sum_reasoned(entries: &Vec<ReasonedAmount>) -> (res: u128)
    requires
        sum_amounts(amounts_of(entries@)) <= u128::MAX,
    ensures
        res == sum_amounts(amounts_of(entries@)),
{
    let ghost a = amounts_of(entries@);
    let mut total: u128 = 0;
    let mut i: usize = 0;
    while i < entries.len()
        invariant
            a == amounts_of(entries@),
            i <= entries@.len(),
            sum_amounts(a) <= u128::MAX,
            total == sum_amounts(a.take(i as int)),
        decreases entries@.len() - i,
    {
        proof {
            assert(a.take(i + 1).drop_last() =~= a.take(i as int));
            assert(a[i as int] == entries@[i as int].amount);
            lemma_sum_amounts_monotone(a, i + 1);
        }
        total = total + entries[i].amount;
        i = i + 1;
    }
    proof {
        assert(a.take(entries@.len() as int) =~= a);
    }
    total
}

/// Checks freezes or holds in order: each must be non-zero and no later
/// one may share its reason.
fn check_entries(entries: &Vec<ReasonedAmount>, zero: InvariantViolation, duplicate: InvariantViolation) -> (res:
    Result<(), InvariantViolation>)
    ensures
        match res {
            Ok(()) => entries_violation(entries@, zero, duplicate) is None,
            Err(v) => entries_violation(entries@, zero, duplicate) == Some(v),
        },
{
    let n = entries.len();
    let mut i: usize = 0;
    while i < n
        invariant
            n == entries@.len(),
            i <= n,
            forall|k: int| 0 <= k < i ==> !#[trigger] entry_wrong(entries@, k),
        decreases n - i,
    {
        if entries[i].amount == 0 {
            proof {
                assert(entry_wrong(entries@, i as int));
                let w = choose|w: int|
                    0 <= w < entries@.len() && #[trigger] entry_wrong(entries@, w) && forall|k: int|
                        0 <= k < w ==> !entry_wrong(entries@, k);
                if w < i {
                } else if w > i {
                }
                assert(w == i);
            }
            return Err(zero);
        }
        let mut j: usize = i + 1;
        while j < n
            invariant
                n == entries@.len(),
                i < n,
                i < j <= n,
                entries@[i as int].amount != 0,
                forall|k: int| 0 <= k < i ==> !#[trigger] entry_wrong(entries@, k),
                forall|t: int| i < t < j ==> #[trigger] entries@[t].reason != entries@[i as int].reason,
            decreases n - j,
        {
            if entries[j].reason == entries[i].reason {
                proof {
                    assert(entries@[j as int].reason == entries@[i as int].reason);
                    assert(entry_wrong(entries@, i as int));
                    let w = choose|w: int|
                        0 <= w < entries@.len() && #[trigger] entry_wrong(entries@, w) && forall|k: int|
                            0 <= k < w ==> !entry_wrong(entries@, k);
                    if w < i {
                    } else if w > i {
                    }
                    assert(w == i);
                }
                return Err(duplicate);
            }
            j = j + 1;
        }
        proof {
            assert(!entry_wrong(entries@, i as int));
        }
        i = i + 1;
    }
    Ok(())
}

/// Checks one account where freezes and holds carry their reasons against
/// the existential deposit, looking at the invariants in the order that
/// `reasoned_account_violation` lists them.
pub fn check_account_with_freezes(acc: &ReasonedAccountState, existential_deposit: u128) -> (res: Result<
    (),
    InvariantViolation,
>)
    requires
        acc.free + acc.reserved <= u128::MAX,
        sum_amounts(amounts_of(acc.holds@)) <= u128::MAX,
    ensures
        match res {
            Ok(()) => reasoned_account_violation(*acc, existential_deposit) is None,
            Err(v) => reasoned_account_violation(*acc, existential_deposit) == Some(v),
        },
{
    if acc.consumers > 0 && acc.providers == 0 {
        return Err(InvariantViolation::ConsumersWithoutProviders);
    }
    let total = acc.free + acc.reserved;
    if total != 0 && total < existential_deposit {
        return Err(InvariantViolation::BelowExistentialDeposit { total, existential_deposit });
    }
    if total < acc.frozen {
        return Err(InvariantViolation::FrozenExceedsTotal { frozen: acc.frozen, total });
    }
    let max_lock = max_of(&acc.locks);
    let max_freeze = max_reasoned(&acc.freezes);
    let largest = if max_lock >= max_freeze {
        max_lock
    } else {
        max_freeze
    };
    if acc.frozen != largest {
        return Err(InvariantViolation::FrozenNotLargestLockOrFreeze { frozen: acc.frozen, max_lock, max_freeze });
    }
    match check_entries(&acc.freezes, InvariantViolation::ZeroFreeze, InvariantViolation::DuplicateFreezeReason) {
        Ok(()) => {},
        Err(v) => {
            return Err(v);
        },
    }
    let sum_holds = sum_reasoned(&acc.holds);
    if sum_holds > acc.reserved {
        return Err(InvariantViolation::HoldsExceedReserved { sum_holds, reserved: acc.reserved });
    }
    check_entries(&acc.holds, InvariantViolation::ZeroHold, InvariantViolation::DuplicateHoldReason)
}

/// The sum of all free and reserved balances.
pub open spec fn reasoned_counted(accounts: Seq<ReasonedAccountState>) -> int
    decreases accounts.len(),
{
    if accounts.len() == 0 {
        0
    } else {
        reasoned_counted(accounts.drop_last()) + accounts.last().free + accounts.last().reserved
    }
}

proof fn lemma_reasoned_counted_monotone(accounts: Seq<ReasonedAccountState>, i: int)
    requires
        0 <= i <= accounts.len(),
    ensures
        0 <= reasoned_counted(accounts.take(i)) <= reasoned_counted(accounts),
    decreases accounts.len(),
{
    if i < accounts.len() {
        lemma_reasoned_counted_monotone(accounts.drop_last(), i);
        assert(accounts.drop_last().take(i) =~= accounts.take(i));
    } else {
        assert(accounts.take(i) =~= accounts);
        if accounts.len() > 0 {
            lemma_reasoned_counted_monotone(accounts.drop_last(), i - 1);
            assert(accounts.drop_last().take(i - 1) =~= accounts.drop_last());
        }
    }
}

/// What the invariants find wrong after a run where freezes and holds carry
/// their reasons: the first account found wrong, else the issuance checks.
pub open spec fn reasoned_run_violation(
    accounts: Seq<ReasonedAccountState>,
    existential_deposit: u128,
    issuance: IssuanceRule,
    total_issuance: u128,
    initial_total_issuance: u128,
) -> Option<InvariantViolation> {
    if exists|i: int|
        0 <= i < accounts.len() && #[trigger] reasoned_account_violation(accounts[i], existential_deposit) is Some {
        let i = choose|i: int|
            0 <= i < accounts.len() && #[trigger] reasoned_account_violation(accounts[i], existential_deposit) is Some
                && forall|j: int| 0 <= j < i ==> reasoned_account_violation(accounts[j], existential_deposit) is None;
        reasoned_account_violation(accounts[i], existential_deposit)
    } else {
        let counted = reasoned_counted(accounts);
        if !issuance_ok(issuance, total_issuance, counted) {
            Some(InvariantViolation::IssuanceMismatch { total: total_issuance, counted: counted as u128 })
        } else if total_issuance > initial_total_issuance {
            Some(InvariantViolation::IssuanceGrew { total: total_issuance, initial: initial_total_issuance })
        } else {
            None
        }
    }
}

/// Checks the invariants after a run where freezes and holds carry their
/// reasons: every account in turn against the existential deposit, then
/// that the total issuance relates to the counted balances as `issuance`
/// says and did not grow beyond the initial issuance.
pub fn check_invariants_with_freezes(
    accounts: &Vec<ReasonedAccountState>,
    existential_deposit: u128,
    issuance: &IssuanceRule,
    total_issuance: u128,
    initial_total_issuance: u128,
) -> (res: Result<(), InvariantViolation>)
    requires
        reasoned_counted(accounts@) <= u128::MAX,
        forall|i: int|
            0 <= i < accounts@.len() ==> sum_amounts(amounts_of(#[trigger] accounts@[i].holds@)) <= u128::MAX,
    ensures
        match res {
            Ok(()) => reasoned_run_violation(
                accounts@,
                existential_deposit,
                *issuance,
                total_issuance,
                initial_total_issuance,
            ) is None,
            Err(v) => reasoned_run_violation(
                accounts@,
                existential_deposit,
                *issuance,
                total_issuance,
                initial_total_issuance,
            ) == Some(v),
        },
{
    let mut counted: u128 = 0;
    let mut i: usize = 0;
    while i < accounts.len()
        invariant
            i <= accounts@.len(),
            reasoned_counted(accounts@) <= u128::MAX,
            forall|j: int|
                0 <= j < accounts@.len() ==> sum_amounts(amounts_of(#[trigger] accounts@[j].holds@)) <= u128::MAX,
            forall|j: int| 0 <= j < i ==> reasoned_account_violation(#[trigger] accounts@[j], existential_deposit) is None,
            counted == reasoned_counted(accounts@.take(i as int)),
        decreases accounts@.len() - i,
    {
        let acc = &accounts[i];
        proof {
            assert(accounts@.take(i + 1).drop_last() =~= accounts@.take(i as int));
            lemma_reasoned_counted_monotone(accounts@, i + 1);
            lemma_reasoned_counted_monotone(accounts@, i as int);
        }
        match check_account_with_freezes(acc, existential_deposit) {
            Ok(()) => {},
            Err(v) => {
                proof {
                    let w = choose|w: int|
                        0 <= w < accounts@.len() && #[trigger] reasoned_account_violation(
                            accounts@[w],
                            existential_deposit,
                        ) is Some && forall|j: int|
                            0 <= j < w ==> reasoned_account_violation(accounts@[j], existential_deposit) is None;
                    assert(reasoned_account_violation(accounts@[i as int], existential_deposit) is Some);
                    if w < i {
                    } else if w > i {
                    }
                    assert(w == i);
                }
                return Err(v);
            },
        }
        counted = counted + acc.free + acc.reserved;
        i = i + 1;
    }
    proof {
        assert(accounts@.take(accounts@.len() as int) =~= accounts@);
    }
    let issuance_holds = match issuance {
        IssuanceRule::EqualsCounted => total_issuance == counted,
        IssuanceRule::AtMostCounted => total_issuance <= counted,
    };
    if !issuance_holds {
        return Err(InvariantViolation::IssuanceMismatch { total: total_issuance, counted });
    }
    if total_issuance > initial_total_issuance {
        return Err(InvariantViolation::IssuanceGrew { total: total_issuance, initial: initial_total_issuance });
    }
    Ok(())
}

/// The sum of all free balances.
pub open spec fn total_free(accounts: Seq<AccountState>) -> int
    decreases accounts.len(),
{
    if accounts.len() == 0 {
        0
    } else {
        total_free(accounts.drop_last()) + accounts.last().free
    }
}

/// The sum of all reserved balances.
pub open spec fn total_reserved(accounts: Seq<AccountState>) -> int
    decreases accounts.len(),
{
    if accounts.len() == 0 {
        0
    } else {
        total_reserved(accounts.drop_last()) + accounts.last().reserved
    }
}

proof fn lemma_totals_monotone(accounts: Seq<AccountState>, i: int)
    requires
        0 <= i <= accounts.len(),
    ensures
        0 <= total_free(accounts.take(i)) <= total_free(accounts),
        0 <= total_reserved(accounts.take(i)) <= total_reserved(accounts),
    decreases accounts.len(),
{
    if i < accounts.len() {
        lemma_totals_monotone(accounts.drop_last(), i);
        assert(accounts.drop_last().take(i) =~= accounts.take(i));
    } else {
        assert(accounts.take(i) =~= accounts);
        if accounts.len() > 0 {
            lemma_totals_monotone(accounts.drop_last(), i - 1);
            assert(accounts.drop_last().take(i - 1) =~= accounts.drop_last());
        }
    }
}

/// Whether the total issuance relates to the counted balances as `rule` says.
pub open spec fn issuance_ok(rule: IssuanceRule, total: u128, counted: int) -> bool {
    match rule {
        IssuanceRule::EqualsCounted => total == counted,
        IssuanceRule::AtMostCounted => total <= counted,
    }
}

/// Two regions hold a common part of the same core in a common timeslice.
pub open spec fn regions_overlap(a: Region, b: Region) -> bool {
    &&& a.core == b.core
    &&& a.begin < a.end
    &&& b.begin < b.end
    &&& a.begin < b.end
    &&& b.begin < a.end
    &&& a.mask & b.mask != 0
}

/// No two regions overlap.
pub open spec fn regions_disjoint(regions: Seq<Region>) -> bool {
    forall|i: int, j: int| 0 <= i < j < regions.len() ==> !regions_overlap(#[trigger] regions[i], #[trigger] regions[j])
}

/// Region `r` holds its core during timeslice `t`.
pub open spec fn holds_at(r: Region, t: int) -> bool {
    r.begin <= t < r.end
}

/// Regions are disjoint exactly when, in every timeslice, any two regions
/// holding the same core hold parts of it that share no bit.
pub proof fn lemma_regions_disjoint_per_timeslice(regions: Seq<Region>)
    ensures
        regions_disjoint(regions) <==> forall|i: int, j: int, t: int|
            0 <= i < j < regions.len() && regions[i].core == regions[j].core && #[trigger] holds_at(regions[i], t)
                && #[trigger] holds_at(regions[j], t) ==> regions[i].mask & regions[j].mask == 0,
{
    if regions_disjoint(regions) {
        assert forall|i: int, j: int, t: int|
            0 <= i < j < regions.len() && regions[i].core == regions[j].core && #[trigger] holds_at(regions[i], t)
                && #[trigger] holds_at(regions[j], t) implies regions[i].mask & regions[j].mask == 0 by {
            assert(!regions_overlap(regions[i], regions[j]));
        }
    } else {
        let (i, j) = choose|i: int, j: int|
            0 <= i < j < regions.len() && regions_overlap(#[trigger] regions[i], #[trigger] regions[j]);
        let a = regions[i];
        let b = regions[j];
        let t: int = if a.begin >= b.begin {
            a.begin as int
        } else {
            b.begin as int
        };
        assert(holds_at(a, t) && holds_at(b, t));
    }
}

/// What the broker invariants find wrong, if anything: the status and the
/// sale info must exist, the sale's first core must lie within the core
/// count, it must not have sold more cores than it offered, and no two
/// regions may overlap.
pub open spec fn broker_violation(broker: BrokerState) -> Option<InvariantViolation> {
    match broker.core_count {
        None => Some(InvariantViolation::MissingStatus),
        Some(core_count) => match broker.sale {
            None => Some(InvariantViolation::MissingSaleInfo),
            Some(sale) => if sale.first_core > core_count {
                Some(InvariantViolation::FirstCoreTooLarge { first_core: sale.first_core, core_count })
            } else if sale.cores_sold > sale.cores_offered {
                Some(
                    InvariantViolation::CoresSoldExceedOffered {
                        cores_sold: sale.cores_sold,
                        cores_offered: sale.cores_offered,
                    },
                )
            } else if !regions_disjoint(broker.regions@) {
                Some(InvariantViolation::OverlappingRegions)
            } else {
                None
            },
        },
    }
}

fn overlap(a: &Region, b: &Region) -> (res: bool)
    ensures
        res == regions_overlap(*a, *b),
{
    a.core == b.core && a.begin < a.end && b.begin < b.end && a.begin < b.end && b.begin < a.end && a.mask
        & b.mask != 0
}

/// Whether no two of `regions` overlap.
pub fn check_regions(regions: &Vec<Region>) -> (res: bool)
    ensures
        res == regions_disjoint(regions@),
{
    let n = regions.len();
    let mut j: usize = 0;
    while j < n
        invariant
            n == regions@.len(),
            j <= n,
            forall|a: int, b: int| 0 <= a < b < j ==> !regions_overlap(#[trigger] regions@[a], #[trigger] regions@[b]),
        decreases n - j,
    {
        let mut i: usize = 0;
        while i < j
            invariant
                n == regions@.len(),
                i <= j < n,
                forall|a: int, b: int| 0 <= a < b < j ==> !regions_overlap(#[trigger] regions@[a], #[trigger] regions@[b]),
                forall|a: int| 0 <= a < i ==> !regions_overlap(#[trigger] regions@[a], regions@[j as int]),
            decreases j - i,
        {
            if overlap(&regions[i], &regions[j]) {
                return false;
            }
            i = i + 1;
        }
        j = j + 1;
    }
    true
}

/// Checks the broker invariants.
pub fn check_broker(broker: &BrokerState) -> (res: Result<(), InvariantViolation>)
    ensures
        match res {
            Ok(()) => broker_violation(*broker) is None,
            Err(v) => broker_violation(*broker) == Some(v),
        },
{
    let core_count = match broker.core_count {
        Some(c) => c,
        None => return Err(InvariantViolation::MissingStatus),
    };
    let sale = match &broker.sale {
        Some(s) => s,
        None => return Err(InvariantViolation::MissingSaleInfo),
    };
    if sale.first_core > core_count {
        return Err(InvariantViolation::FirstCoreTooLarge { first_core: sale.first_core, core_count });
    }
    if sale.cores_sold > sale.cores_offered {
        return Err(
            InvariantViolation::CoresSoldExceedOffered {
                cores_sold: sale.cores_sold,
                cores_offered: sale.cores_offered,
            },
        );
    }
    if !check_regions(&broker.regions) {
        return Err(InvariantViolation::OverlappingRegions);
    }
    Ok(())
}

/// What the invariants find wrong after a run, if anything: the first
/// account found wrong, else the issuance checks, else (where the runtime
/// has a broker pallet) the broker checks.
pub open spec fn run_violation(
    accounts: Seq<AccountState>,
    rule: LockRule,
    issuance: IssuanceRule,
    total_issuance: u128,
    initial_total_issuance: u128,
    broker: Option<BrokerState>,
) -> Option<InvariantViolation> {
    if exists|i: int| 0 <= i < accounts.len() && #[trigger] account_violation(accounts[i], rule) is Some {
        let i = choose|i: int|
            0 <= i < accounts.len() && #[trigger] account_violation(accounts[i], rule) is Some && forall|j: int|
                0 <= j < i ==> account_violation(accounts[j], rule) is None;
        account_violation(accounts[i], rule)
    } else {
        let counted = total_free(accounts) + total_reserved(accounts);
        if !issuance_ok(issuance, total_issuance, counted) {
            Some(InvariantViolation::IssuanceMismatch { total: total_issuance, counted: counted as u128 })
        } else if total_issuance > initial_total_issuance {
            Some(InvariantViolation::IssuanceGrew { total: total_issuance, initial: initial_total_issuance })
        } else {
            match broker {
                Some(b) => broker_violation(b),
                None => None,
            }
        }
    }
}

/// Checks the balance invariants after a run: every account in turn, then
/// that the total issuance relates to the sum of all free and reserved
/// balances as `issuance` says and did not grow beyond the initial
/// issuance, then the broker invariants where `broker` is given.
pub fn check_invariants(
    accounts: &Vec<AccountState>,
    rule: &LockRule,
    issuance: &IssuanceRule,
    total_issuance: u128,
    initial_total_issuance: u128,
    broker: &Option<BrokerState>,
) -> (res: Result<(), InvariantViolation>)
    requires
        total_free(accounts@) + total_reserved(accounts@) <= u128::MAX,
        forall|i: int| 0 <= i < accounts@.len() ==> sum_amounts(#[trigger] accounts@[i].holds@) <= u128::MAX,
    ensures
        match res {
            Ok(()) => run_violation(accounts@, *rule, *issuance, total_issuance, initial_total_issuance, *broker) is None,
            Err(v) => run_violation(accounts@, *rule, *issuance, total_issuance, initial_total_issuance, *broker)
                == Some(v),
        },
{
    let mut counted_free: u128 = 0;
    let mut counted_reserved: u128 = 0;
    let mut i: usize = 0;
    while i < accounts.len()
        invariant
            i <= accounts@.len(),
            total_free(accounts@) + total_reserved(accounts@) <= u128::MAX,
            forall|j: int| 0 <= j < accounts@.len() ==> sum_amounts(#[trigger] accounts@[j].holds@) <= u128::MAX,
            forall|j: int| 0 <= j < i ==> account_violation(#[trigger] accounts@[j], *rule) is None,
            counted_free == total_free(accounts@.take(i as int)),
            counted_reserved == total_reserved(accounts@.take(i as int)),
        decreases accounts@.len() - i,
    {
        let acc = &accounts[i];
        match check_account(acc, rule) {
            Ok(()) => {},
            Err(v) => {
                proof {
                    let w = choose|w: int|
                        0 <= w < accounts@.len() && #[trigger] account_violation(accounts@[w], *rule) is Some
                            && forall|j: int| 0 <= j < w ==> account_violation(accounts@[j], *rule) is None;
                    assert(account_violation(accounts@[i as int], *rule) is Some);
                    if w < i {
                    } else if w > i {
                    }
                    assert(w == i);
                }
                return Err(v);
            },
        }
        proof {
            assert(accounts@.take(i + 1).drop_last() =~= accounts@.take(i as int));
            lemma_totals_monotone(accounts@, i + 1);
        }
        counted_free = counted_free + acc.free;
        counted_reserved = counted_reserved + acc.reserved;
        i = i + 1;
    }
    proof {
        assert(accounts@.take(accounts@.len() as int) =~= accounts@);
    }
    let counted_issuance = counted_free + counted_reserved;
    let issuance_holds = match issuance {
        IssuanceRule::EqualsCounted => total_issuance == counted_issuance,
        IssuanceRule::AtMostCounted => total_issuance <= counted_issuance,
    };
    if !issuance_holds {
        return Err(InvariantViolation::IssuanceMismatch { total: total_issuance, counted: counted_issuance });
    }
    if total_issuance > initial_total_issuance {
        return Err(InvariantViolation::IssuanceGrew { total: total_issuance, initial: initial_total_issuance });
    }
    match broker {
        Some(b) => check_broker(b),
        None => Ok(()),
    }
}

} // verus!
