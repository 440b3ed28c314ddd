use std::cmp::Ordering;

use devnet_mempool::comparator::starknet_comparator;
use devnet_mempool::config::{MempoolConfig, MempoolOrdering};
use devnet_mempool::entry::{MempoolEntry, MempoolLane, MempoolPhase, PreparedTransaction};
use devnet_mempool::felt::Felt;
use devnet_mempool::mempool::Mempool;
use devnet_mempool::ordering::{
    EligibleTransactions, OrderingPolicyRegistry, SelectionContext, TransactionOrderingPolicy,
};

struct NewestFirst;

impl TransactionOrderingPolicy for NewestFirst {
    fn select(&self, eligible: &EligibleTransactions, _context: &SelectionContext) -> Option<Felt> {
        eligible
            .entries()
            .into_iter()
            .max_by_key(|entry| entry.arrival_id)
            .map(|entry| entry.transaction_hash)
    }
}

fn felt(value: u64) -> Felt {
    Felt::from_u64(value)
}

fn entry_with(hash: Felt, arrival_id: u64, tip: u64, max_l2_gas_price: u128) -> MempoolEntry {
    MempoolEntry {
        transaction_hash: hash,
        phase: MempoolPhase::Received,
        arrival_id,
        account_address: None,
        nonce: None,
        tip,
        max_l2_gas_price,
        lane: MempoolLane::User,
    }
}

/// Pools a user-lane transaction without an account nonce; arrival positions follow the
/// order of insertion.
fn install(pool: &mut Mempool, hash: Felt, tip: u64, max_l2_gas_price: u128) {
    pool.accept(PreparedTransaction {
        transaction_hash: hash,
        account_address: None,
        nonce: None,
        tip,
        max_l2_gas_price,
        lane: MempoolLane::User,
    })
    .unwrap();
}

fn comparator_priority_orders_by_descending_tip() {
    let low = entry_with(felt(0x10), 1, 1, 1_000);
    let high = entry_with(felt(0x20), 2, 5, 1_000);
    let mid = entry_with(felt(0x30), 3, 3, 1_000);
    let threshold = 500_u128;

    assert_eq!(starknet_comparator(&high, &mid, threshold), Ordering::Greater);
    assert_eq!(starknet_comparator(&high, &low, threshold), Ordering::Greater);
    assert_eq!(starknet_comparator(&mid, &low, threshold), Ordering::Greater);
    assert_eq!(starknet_comparator(&low, &high, threshold), Ordering::Less);
}

fn comparator_priority_tie_break_prefers_larger_hash() {
    let smaller_hash = entry_with(felt(0x10), 1, 7, 1_000);
    let larger_hash = entry_with(felt(0x20), 2, 7, 1_000);
    let threshold = 500_u128;
    assert_eq!(
        starknet_comparator(&larger_hash, &smaller_hash, threshold),
        Ordering::Greater,
        "larger hash must win when tips are equal (descending-hash selection)"
    );
    assert_eq!(starknet_comparator(&smaller_hash, &larger_hash, threshold), Ordering::Less);
}

fn comparator_fallback_is_fifo_on_arrival_id() {
    let first = entry_with(felt(0x10), 1, 99, 0);
    let second = entry_with(felt(0x20), 2, 0, 0);
    let third = entry_with(felt(0x30), 3, 5_000, 0);
    let threshold = 1_000_u128;
    assert_eq!(
        starknet_comparator(&first, &second, threshold),
        Ordering::Greater,
        "earlier arrival must win in fallback"
    );
    assert_eq!(starknet_comparator(&first, &third, threshold), Ordering::Greater);
    assert_eq!(starknet_comparator(&second, &third, threshold), Ordering::Greater);
    assert_eq!(starknet_comparator(&third, &first, threshold), Ordering::Less);
}

fn comparator_priority_beats_fallback() {
    let priority_old = entry_with(felt(0x10), 100, 0, 1_000);
    let fallback_new = entry_with(felt(0xff), 1, 9_999, 0);
    let threshold = 500_u128;
    assert_eq!(
        starknet_comparator(&priority_old, &fallback_new, threshold),
        Ordering::Greater,
        "priority entry must win regardless of arrival order or tip"
    );
    assert_eq!(starknet_comparator(&fallback_new, &priority_old, threshold), Ordering::Less);
}

fn select_policy_drains_fallback_in_arrival_order() {
    let mut pool = Mempool::new(MempoolConfig {
        ordering: MempoolOrdering::starknet(),
        random_seed: 0,
        max_transactions_per_block: 500,
    })
    .unwrap();
    let hashes = [felt(0xee), felt(0xdd), felt(0x11), felt(0x22)];
    for hash in hashes {
        install(&mut pool, hash, 0, 0);
    }

    let mut remaining = vec![hashes[2], hashes[0], hashes[3], hashes[1]];
    let mut drained = Vec::new();
    while let Some(picked) = pool.select_policy(&remaining, 0, 1_000) {
        drained.push(picked);
        remaining.retain(|hash| *hash != picked);
        if remaining.is_empty() {
            break;
        }
    }
    assert_eq!(drained, hashes.to_vec());
}

fn forced_selection_advances_random_sequence() {
    let config = MempoolConfig {
        ordering: MempoolOrdering::random(),
        random_seed: 42,
        max_transactions_per_block: 500,
    };
    let mut live = Mempool::new(config.clone()).unwrap();
    let mut replay = Mempool::new(config).unwrap();
    let hashes = [felt(0x10), felt(0x20), felt(0x30)];
    for hash in hashes {
        install(&mut live, hash, 0, 1_000);
        install(&mut replay, hash, 0, 1_000);
    }

    let first = live.select_policy(&hashes, 1, 1_000).unwrap();
    live.record_selection();
    replay.record_selection();

    let remaining = hashes.into_iter().filter(|hash| *hash != first).collect::<Vec<_>>();
    assert_eq!(
        live.select_policy(&remaining, 1, 1_000),
        replay.select_policy(&remaining, 1, 1_000)
    );
}

fn caller_defined_policy_orders_the_eligible_view() {
    let mut pool = Mempool::new(MempoolConfig::default()).unwrap();
    let first = felt(0x10);
    let last = felt(0x20);
    install(&mut pool, first, 0, 1_000);
    install(&mut pool, last, 0, 1_000);
    let hashes = [first, last];
    let eligible = pool.eligible_transactions(&hashes);

    assert_eq!(
        NewestFirst.select(
            &eligible,
            &SelectionContext {
                block_number: 1,
                current_l2_gas_price: 1_000,
                proposal_selection_counter: 0,
                random_seed: 0,
            }
        ),
        Some(last)
    );
}

#[test]
fn mempool_starknet_comparator_priority_orders_by_descending_tip() {
    comparator_priority_orders_by_descending_tip();
}

#[test]
fn ordering_starknet_comparator_priority_orders_by_descending_tip() {
    comparator_priority_orders_by_descending_tip();
}

#[test]
fn mempool_starknet_comparator_priority_tie_break_prefers_larger_hash() {
    comparator_priority_tie_break_prefers_larger_hash();
}

#[test]
fn ordering_starknet_comparator_priority_tie_break_prefers_larger_hash() {
    comparator_priority_tie_break_prefers_larger_hash();
}

#[test]
fn mempool_starknet_comparator_fallback_is_fifo_on_arrival_id() {
    comparator_fallback_is_fifo_on_arrival_id();
}

#[test]
fn ordering_starknet_comparator_fallback_is_fifo_on_arrival_id() {
    comparator_fallback_is_fifo_on_arrival_id();
}

#[test]
fn mempool_starknet_comparator_priority_beats_fallback() {
    comparator_priority_beats_fallback();
}

#[test]
fn ordering_starknet_comparator_priority_beats_fallback() {
    comparator_priority_beats_fallback();
}

#[test]
fn mempool_starknet_select_policy_drains_fallback_in_arrival_order() {
    select_policy_drains_fallback_in_arrival_order();
}

#[test]
fn ordering_starknet_select_policy_drains_fallback_in_arrival_order() {
    select_policy_drains_fallback_in_arrival_order();
}

#[test]
fn mempool_forced_selection_advances_the_random_sequence() {
    forced_selection_advances_random_sequence();
}

#[test]
fn ordering_forced_selection_advances_the_random_sequence() {
    forced_selection_advances_random_sequence();
}

#[test]
fn mempool_caller_defined_policy_can_order_the_eligible_view() {
    caller_defined_policy_orders_the_eligible_view();
}

#[test]
fn ordering_caller_defined_policy_can_order_the_eligible_view() {
    caller_defined_policy_orders_the_eligible_view();
}

#[test]
fn registry_resolves_a_policy_by_configured_name() {
    let name = MempoolOrdering::parse("newest-first").unwrap();
    let mut registry = OrderingPolicyRegistry::default();
    registry.register(name.clone(), NewestFirst);
    let mut pool = Mempool::with_policy_registry(
        MempoolConfig { ordering: name, ..MempoolConfig::default() },
        registry,
    )
    .unwrap();
    let first = felt(0x10);
    let last = felt(0x20);
    install(&mut pool, first, 0, 1_000);
    install(&mut pool, last, 0, 1_000);

    assert_eq!(pool.select_policy(&[first, last], 1, 1_000), Some(last));
}
