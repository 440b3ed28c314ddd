use devnet_mempool::config::{MempoolConfig, MempoolConfigUpdate, MempoolOrdering};
use devnet_mempool::entry::{MempoolLane, MempoolPhase, PreparedTransaction};
use devnet_mempool::error::MempoolError;
use devnet_mempool::felt::Felt;
use devnet_mempool::mempool::{BuildOutcome, Mempool, OpenProposal};

fn felt(value: u64) -> Felt {
    Felt::from_u64(value)
}

fn prepared(hash: u64, account: Option<(u64, u64)>) -> PreparedTransaction {
    PreparedTransaction {
        transaction_hash: felt(hash),
        account_address: account.map(|(a, _)| felt(a)),
        nonce: account.map(|(_, n)| felt(n)),
        tip: 0,
        max_l2_gas_price: 1_000,
        lane: MempoolLane::User,
    }
}

fn capacity_is_positive() {
    let mut pool = Mempool::new(MempoolConfig::default()).unwrap();
    assert!(
        pool.set_config(MempoolConfigUpdate {
            max_transactions_per_block: Some(0),
            ..Default::default()
        })
        .is_err()
    );
}

fn config_updates_partially() {
    let mut pool = Mempool::new(MempoolConfig::default()).unwrap();
    let config = pool
        .set_config(MempoolConfigUpdate {
            ordering: Some(MempoolOrdering::random()),
            random_seed: Some(17),
            ..Default::default()
        })
        .unwrap();
    assert_eq!(config.ordering, MempoolOrdering::random());
    assert_eq!(config.random_seed, 17);
    assert_eq!(config.max_transactions_per_block, 500);
}

fn proposal_owns_hashes_and_selection_state() {
    let mut proposal = OpenProposal::default();
    let hash = felt(0x10);
    proposal.record_selection();
    proposal.append(hash);

    assert_eq!(proposal.transaction_hashes(), &[hash]);
    assert_eq!(proposal.transaction_count(), 1);
    assert_eq!(proposal.selection_counter(), 1);
    assert_eq!(proposal.take_hashes(), vec![hash]);
    assert!(proposal.transaction_hashes().is_empty());
    assert_eq!(proposal.selection_counter(), 0);
}

#[test]
fn mempool_capacity_cannot_be_zero() {
    capacity_is_positive();
}

#[test]
fn mod_capacity_cannot_be_zero() {
    capacity_is_positive();
}

#[test]
fn mempool_config_can_be_updated_partially() {
    config_updates_partially();
}

#[test]
fn mod_config_can_be_updated_partially() {
    config_updates_partially();
}

#[test]
fn mempool_open_proposal_owns_hashes_and_selection_state() {
    proposal_owns_hashes_and_selection_state();
}

#[test]
fn mod_open_proposal_owns_hashes_and_selection_state() {
    proposal_owns_hashes_and_selection_state();
}

#[test]
fn unknown_configured_policy_is_rejected_without_changing_active_policy() {
    let unknown = MempoolOrdering::parse("not-registered").unwrap();
    assert!(
        Mempool::new(MempoolConfig { ordering: unknown.clone(), ..MempoolConfig::default() }).is_err()
    );

    let mut pool = Mempool::new(MempoolConfig::default()).unwrap();
    assert!(
        pool.set_config(MempoolConfigUpdate { ordering: Some(unknown), ..MempoolConfigUpdate::default() })
            .is_err()
    );
    assert_eq!(pool.config().ordering, MempoolOrdering::fifo());
}

#[test]
fn accepted_transactions_are_received_in_arrival_order() {
    let mut pool = Mempool::default();
    assert_eq!(pool.accept(prepared(0x10, Some((1, 0)))), Ok(felt(0x10)));
    assert_eq!(pool.accept(prepared(0x20, None)), Ok(felt(0x20)));
    let entries = pool.entries();
    assert_eq!(entries.len(), 2);
    assert_eq!(entries[0].transaction_hash, felt(0x10));
    assert_eq!(entries[0].arrival_id, 0);
    assert_eq!(entries[0].phase, MempoolPhase::Received);
    assert_eq!(entries[1].arrival_id, 1);
}

#[test]
fn duplicate_hash_and_nonce_conflict_are_refused() {
    let mut pool = Mempool::default();
    pool.accept(prepared(0x10, Some((1, 0)))).unwrap();
    assert_eq!(
        pool.accept(prepared(0x10, None)),
        Err(MempoolError::DuplicateTransaction { transaction_hash: felt(0x10) })
    );
    assert_eq!(
        pool.accept(prepared(0x11, Some((1, 0)))),
        Err(MempoolError::NonceConflict { address: felt(1), nonce: felt(0) })
    );
    assert_eq!(pool.entries().len(), 1);
    // Once the occupying transaction leaves, its account nonce is free again.
    pool.remove_entry(&felt(0x10)).unwrap();
    assert_eq!(pool.accept(prepared(0x11, Some((1, 0)))), Ok(felt(0x11)));
    assert_eq!(pool.get(&felt(0x11)).unwrap().arrival_id, 1);
}

#[test]
fn lifecycle_received_candidate_preconfirmed_committed() {
    let mut pool = Mempool::default();
    pool.accept(prepared(0x10, None)).unwrap();
    pool.accept(prepared(0x20, None)).unwrap();

    assert_eq!(pool.mark_pre_confirmed(&felt(0x10)), Err(MempoolError::NotSelected { transaction_hash: felt(0x10) }));
    let handed_out = pool.mark_candidate(&felt(0x10)).unwrap();
    assert_eq!(handed_out.transaction_hash, felt(0x10));
    assert_eq!(pool.mark_candidate(&felt(0x10)), Err(MempoolError::NotReceived { transaction_hash: felt(0x10) }));
    pool.mark_pre_confirmed(&felt(0x10)).unwrap();
    assert_eq!(pool.get(&felt(0x10)).unwrap().phase, MempoolPhase::PreConfirmed);
    assert_eq!(pool.proposal_hashes(), &[felt(0x10)]);
    assert_eq!(pool.remaining_capacity(), 499);

    assert_eq!(
        pool.remove_received(&felt(0x10)),
        Err(MempoolError::NotRemovable { transaction_hash: felt(0x10), phase: MempoolPhase::PreConfirmed })
    );
    assert_eq!(pool.remove_received(&felt(0x99)), Err(MempoolError::NoTransaction));

    pool.commit_proposal();
    assert!(pool.get(&felt(0x10)).is_none());
    assert_eq!(pool.entries().len(), 1);
    assert!(pool.proposal_hashes().is_empty());
    assert_eq!(pool.remaining_capacity(), 500);
}

#[test]
fn abort_returns_proposal_and_candidates_to_received() {
    let mut pool = Mempool::default();
    pool.accept(prepared(0x10, None)).unwrap();
    pool.accept(prepared(0x20, None)).unwrap();
    pool.accept(prepared(0x30, None)).unwrap();
    pool.mark_candidate(&felt(0x10)).unwrap();
    pool.mark_pre_confirmed(&felt(0x10)).unwrap();
    pool.mark_candidate(&felt(0x20)).unwrap();
    pool.record_selection();

    assert_eq!(pool.abort_proposal(), vec![felt(0x10)]);
    for entry in pool.entries() {
        assert_eq!(entry.phase, MempoolPhase::Received);
    }
    assert!(pool.proposal_hashes().is_empty());
    assert_eq!(pool.open_proposal().selection_counter(), 0);
}

#[test]
fn clear_received_keeps_other_phases() {
    let mut pool = Mempool::default();
    pool.accept(prepared(0x10, None)).unwrap();
    pool.accept(prepared(0x20, Some((7, 0)))).unwrap();
    pool.accept(prepared(0x30, None)).unwrap();
    pool.mark_candidate(&felt(0x30)).unwrap();

    let removed = pool.clear_received();
    assert_eq!(removed.iter().map(|e| e.transaction_hash).collect::<Vec<_>>(), vec![felt(0x10), felt(0x20)]);
    let left = pool.entries();
    assert_eq!(left.len(), 1);
    assert_eq!(left[0].transaction_hash, felt(0x30));
    // The removed transaction's account nonce is free again.
    assert!(pool.accept(prepared(0x21, Some((7, 0)))).is_ok());

    pool.clear_all();
    assert!(pool.entries().is_empty());
}

#[test]
fn build_outcome_progress() {
    let mut outcome = BuildOutcome::default();
    assert!(!outcome.made_progress());
    outcome.pre_confirmed.push(felt(1));
    assert!(outcome.made_progress());
}

#[test]
fn abort_keeps_arrival_order() {
    let mut pool = Mempool::default();
    for hash in [0x30, 0x10, 0x20] {
        pool.accept(prepared(hash, None)).unwrap();
    }
    pool.mark_candidate(&felt(0x10)).unwrap();
    pool.mark_pre_confirmed(&felt(0x10)).unwrap();
    pool.mark_candidate(&felt(0x20)).unwrap();
    pool.abort_proposal();
    let entries = pool.entries();
    let order = entries.iter().map(|e| (e.transaction_hash, e.arrival_id)).collect::<Vec<_>>();
    assert_eq!(order, vec![(felt(0x30), 0), (felt(0x10), 1), (felt(0x20), 2)]);
}

#[test]
fn lowering_capacity_below_the_proposal_keeps_every_transaction() {
    let mut pool = Mempool::default();
    for hash in [0x10, 0x20, 0x30] {
        pool.accept(prepared(hash, None)).unwrap();
        pool.mark_candidate(&felt(hash)).unwrap();
        pool.mark_pre_confirmed(&felt(hash)).unwrap();
    }
    let config = pool
        .set_config(MempoolConfigUpdate { max_transactions_per_block: Some(2), ..Default::default() })
        .unwrap();
    assert_eq!(config.max_transactions_per_block, 2);
    assert_eq!(pool.remaining_capacity(), 0);
    assert_eq!(pool.proposal_hashes().len(), 3);
    assert_eq!(pool.entries().len(), 3);
}

#[test]
fn removed_transaction_is_gone_and_others_stay() {
    let mut pool = Mempool::default();
    pool.accept(prepared(0x10, Some((1, 0)))).unwrap();
    pool.accept(prepared(0x20, Some((1, 1)))).unwrap();
    let removed = pool.remove_received(&felt(0x10)).unwrap();
    assert_eq!(removed.transaction_hash, felt(0x10));
    assert!(pool.get(&felt(0x10)).is_none());
    assert_eq!(pool.get(&felt(0x20)).unwrap().arrival_id, 1);
    assert!(pool.remove_entry(&felt(0x10)).is_none());
}

#[test]
fn sealing_keeps_received_transactions() {
    let mut pool = Mempool::default();
    pool.accept(prepared(0x10, None)).unwrap();
    pool.accept(prepared(0x20, None)).unwrap();
    pool.mark_candidate(&felt(0x20)).unwrap();
    pool.mark_pre_confirmed(&felt(0x20)).unwrap();
    pool.record_selection();
    pool.commit_proposal();
    let entries = pool.entries();
    assert_eq!(entries.len(), 1);
    assert_eq!(entries[0].transaction_hash, felt(0x10));
    assert_eq!(entries[0].phase, MempoolPhase::Received);
    assert_eq!(pool.open_proposal().selection_counter(), 0);
}
