use devnet_mempool::block_builder::{
    needs_swept_eligibility,
    BlockBuilder, ChunkStep, PolicyChunk, PolicySelection, PolicySelectionRound, ProcessingResult,
    TransactionEligibility, POLICY_SELECTION_ROUND_SIZE,
};
use devnet_mempool::config::{MempoolConfig, MempoolOrdering};
use devnet_mempool::entry::{MempoolLane, MempoolPhase, PreparedTransaction};
use devnet_mempool::error::MempoolError;
use devnet_mempool::felt::Felt;
use devnet_mempool::mempool::{BuildOutcome, ForcedHashSelection, Mempool};
use devnet_mempool::ordering::{
    EligibleTransactions, OrderingPolicyRegistry, SelectionContext, TransactionOrderingPolicy,
};

fn felt(value: u64) -> Felt {
    Felt::from_u64(value)
}

fn context() -> SelectionContext {
    SelectionContext {
        block_number: 1,
        current_l2_gas_price: 1,
        proposal_selection_counter: 0,
        random_seed: 0,
    }
}

fn system(hash: Felt) -> PreparedTransaction {
    PreparedTransaction::system(hash)
}

fn user(hash: Felt, account: Felt, nonce: u64) -> PreparedTransaction {
    PreparedTransaction::account(hash, account, felt(nonce), 0, 1_000)
}

/// The node's view of account nonces: a RECEIVED transaction is eligible when it carries no
/// account nonce or when its nonce is the account's next one.
struct Chain {
    nonces: Vec<(Felt, u64)>,
}

impl Chain {
    fn next_nonce(&self, account: Felt) -> u64 {
        self.nonces.iter().find(|(a, _)| *a == account).map(|(_, n)| *n).unwrap_or(0)
    }

    fn advance(&mut self, account: Felt) {
        let next = self.next_nonce(account) + 1;
        self.nonces.retain(|(a, _)| *a != account);
        self.nonces.push((account, next));
    }

    fn eligible(&self, pool: &Mempool) -> Vec<Felt> {
        pool.entries()
            .into_iter()
            .filter(|entry| entry.phase == MempoolPhase::Received)
            .filter(|entry| match (entry.account_address, entry.nonce) {
                (Some(account), Some(nonce)) => nonce == felt(self.next_nonce(account)),
                _ => true,
            })
            .map(|entry| entry.transaction_hash)
            .collect()
    }

    fn execute(&mut self, pool: &mut Mempool, hash: Felt) {
        let prepared = pool.mark_candidate(&hash).unwrap();
        pool.mark_pre_confirmed(&hash).unwrap();
        if let Some(account) = prepared.account_address {
            self.advance(account);
        }
    }
}

fn run_policy_chunk(
    pool: &mut Mempool,
    chain: &mut Chain,
    mut chunk: PolicyChunk,
    policy: Option<&dyn TransactionOrderingPolicy>,
) -> Result<BuildOutcome, MempoolError> {
    while chunk.wants_more() {
        let eligible = chain.eligible(pool);
        let step = match chunk.next_step(pool, &eligible) {
            ChunkStep::Consult => {
                let pick = {
                    let view = pool.eligible_transactions(chunk.round().user_hashes());
                    match policy {
                        Some(policy) => policy.select(&view, &context()),
                        None => pool.select_configured_policy(&view, &context())?,
                    }
                };
                chunk.apply_pick(pick)?
            }
            step => step,
        };
        match step {
            ChunkStep::Process(hash) => {
                chain.execute(pool, hash);
                chunk.process(pool, hash, ProcessingResult::Executed);
            }
            ChunkStep::Retry | ChunkStep::Consult => {}
            ChunkStep::Done => break,
        }
    }
    Ok(chunk.finish(pool))
}

struct IneligiblePolicy;

impl TransactionOrderingPolicy for IneligiblePolicy {
    fn select(&self, _eligible: &EligibleTransactions, _context: &SelectionContext) -> Option<Felt> {
        Some(felt(0x999))
    }
}

struct SelectWithPeer;

impl TransactionOrderingPolicy for SelectWithPeer {
    fn select(&self, eligible: &EligibleTransactions, _context: &SelectionContext) -> Option<Felt> {
        if eligible.len() < 2 {
            None
        } else {
            eligible.hashes().first().copied()
        }
    }
}

#[test]
fn custom_policy_cannot_select_outside_the_eligible_view() {
    let mut pool = Mempool::new(MempoolConfig::default()).unwrap();
    let mut chain = Chain { nonces: Vec::new() };
    let chunk = BlockBuilder::new().build_policy_chunk(Some(1));
    let error = run_policy_chunk(&mut pool, &mut chain, chunk, Some(&IneligiblePolicy)).unwrap_err();
    assert!(matches!(error, MempoolError::IneligibleSelection { transaction_hash } if transaction_hash == felt(0x999)));
    assert_eq!(pool.entries().len(), 0);
}

#[test]
fn system_lane_is_selected_fifo_before_user_policy() {
    let mut pool = Mempool::new(MempoolConfig::default()).unwrap();
    let mut chain = Chain { nonces: Vec::new() };
    let first = felt(0x10);
    let second = felt(0x20);
    for hash in [first, second] {
        pool.accept(system(hash)).unwrap();
    }

    let chunk = BlockBuilder::new().build_policy_chunk(Some(2));
    let outcome = run_policy_chunk(&mut pool, &mut chain, chunk, Some(&IneligiblePolicy)).unwrap();
    assert_eq!(outcome.selected, vec![first, second]);
}

#[test]
fn selection_round_defers_new_hashes_until_refresh() {
    let first = felt(0x10);
    let second = felt(0x20);
    let successor = felt(0x30);
    let mut round = PolicySelectionRound::default();
    round.refresh(vec![first, second]);

    assert!(round.record_selection(first));
    round.retain_eligible(&[second, successor]);
    assert_eq!(round.user_hashes(), &[second]);

    assert!(round.record_selection(second));
    assert!(round.should_refresh());
    round.refresh(vec![successor]);
    assert_eq!(round.user_hashes(), &[successor]);
}

#[test]
fn selection_round_refreshes_after_fixed_selection_limit() {
    let hashes = (0..=POLICY_SELECTION_ROUND_SIZE)
        .map(|value| felt(value as u64))
        .collect::<Vec<_>>();
    let mut round = PolicySelectionRound::default();
    round.refresh(hashes.clone());

    for hash in hashes.into_iter().take(POLICY_SELECTION_ROUND_SIZE) {
        assert!(round.record_selection(hash));
    }

    assert_eq!(round.user_hashes().len(), 1);
    assert!(round.should_refresh());
}

#[test]
fn custom_policy_none_stops_before_refreshing_successors() {
    for configured in [false, true] {
        let account = felt(0xacc);
        let mut pool = if configured {
            let mut config = MempoolConfig::default();
            config.ordering = MempoolOrdering::parse("select-with-peer").unwrap();
            let mut registry = OrderingPolicyRegistry::default();
            registry.register(config.ordering.clone(), SelectWithPeer);
            Mempool::with_policy_registry(config, registry).unwrap()
        } else {
            Mempool::new(MempoolConfig::default()).unwrap()
        };
        let mut chain = Chain { nonces: Vec::new() };
        let hashes = [felt(0x100), felt(0x101)];
        for (nonce, hash) in hashes.iter().enumerate() {
            pool.accept(user(*hash, account, nonce as u64)).unwrap();
        }
        let peer = felt(0x999);
        let mut prepared = system(peer);
        prepared.lane = MempoolLane::User;
        pool.accept(prepared).unwrap();

        let chunk = BlockBuilder::new().build_policy_chunk(None);
        let policy: Option<&dyn TransactionOrderingPolicy> =
            if configured { None } else { Some(&SelectWithPeer) };
        let outcome = run_policy_chunk(&mut pool, &mut chain, chunk, policy).unwrap();
        assert_eq!(outcome.pre_confirmed, vec![hashes[0]]);
        assert_eq!(pool.get(&hashes[1]).unwrap().phase, MempoolPhase::Received);
        assert_eq!(pool.get(&peer).unwrap().phase, MempoolPhase::Received);
    }
}

#[test]
fn progress_reports_open_proposal_and_capacity() {
    let pool = Mempool::new(MempoolConfig::default()).unwrap();
    let progress = BlockBuilder::new().progress(&pool);
    assert!(progress.pre_confirmed_transaction_hashes.is_empty());
    assert_eq!(progress.remaining_block_capacity, pool.config().max_transactions_per_block);
}

#[test]
fn fifo_chunk_pre_confirms_in_arrival_order_and_reports_full_block() {
    let mut config = MempoolConfig::default();
    config.max_transactions_per_block = 2;
    let mut pool = Mempool::new(config).unwrap();
    let mut chain = Chain { nonces: Vec::new() };
    let hashes = [felt(0x30), felt(0x10), felt(0x20)];
    for (i, hash) in hashes.iter().enumerate() {
        pool.accept(user(*hash, felt(0xa0 + i as u64), 0)).unwrap();
    }
    let chunk = BlockBuilder::new().build_policy_chunk(None);
    let outcome = run_policy_chunk(&mut pool, &mut chain, chunk, None).unwrap();
    assert_eq!(outcome.pre_confirmed, vec![hashes[0], hashes[1]]);
    assert!(outcome.block_full);
    assert_eq!(pool.proposal_hashes(), &[hashes[0], hashes[1]]);
    assert_eq!(pool.get(&hashes[2]).unwrap().phase, MempoolPhase::Received);
}

#[test]
fn exhausted_round_without_change_ends_the_chunk() {
    let pool = Mempool::new(MempoolConfig::default()).unwrap();
    let mut chunk = BlockBuilder::new().build_policy_chunk(None);
    assert_eq!(chunk.next_step(&pool, &[]), ChunkStep::Consult);
    let view = pool.eligible_transactions(chunk.round().user_hashes());
    let pick = pool.select_configured_policy(&view, &context()).unwrap();
    assert_eq!(pick, None);
    let first = chunk.apply_pick(pick).unwrap();
    assert_eq!(first, ChunkStep::Retry);
    assert!(chunk.round().exhausted());
    let second = chunk.next_step(&pool, &[]);
    assert_eq!(second, ChunkStep::Done);
    let outcome = chunk.finish(&pool);
    assert!(outcome.selected.is_empty());
    assert!(!outcome.block_full);
}

#[test]
fn policy_selection_follows_the_pick() {
    assert_eq!(
        devnet_mempool::block_builder::policy_selection(Some(felt(1)), false),
        PolicySelection::Transaction(felt(1))
    );
    assert_eq!(devnet_mempool::block_builder::policy_selection(None, false), PolicySelection::Stop);
    assert_eq!(
        devnet_mempool::block_builder::policy_selection(None, true),
        PolicySelection::RoundExhausted
    );
}

#[test]
fn processing_results_are_recorded() {
    let mut pool = Mempool::new(MempoolConfig::default()).unwrap();
    for (i, hash) in [felt(1), felt(2), felt(3)].iter().enumerate() {
        pool.accept(user(*hash, felt(0xa0 + i as u64), 0)).unwrap();
    }
    let mut chunk = BlockBuilder::new().build_policy_chunk(None);
    chunk.process(&mut pool, felt(1), ProcessingResult::Blocked("nonce gap".to_string()));
    chunk.process(&mut pool, felt(2), ProcessingResult::Stale("nonce too low".to_string()));
    chunk.process(&mut pool, felt(3), ProcessingResult::ExecutionFailed("reverted".to_string()));
    let outcome = chunk.finish(&pool);
    assert_eq!(outcome.selected, vec![felt(1), felt(2), felt(3)]);
    assert_eq!(outcome.blocked.len(), 1);
    assert_eq!(outcome.blocked[0].transaction_hash, felt(1));
    assert_eq!(outcome.rejected.len(), 2);
    assert_eq!(outcome.rejected[0].reason, "nonce too low");
    assert!(pool.get(&felt(1)).is_some());
    assert!(pool.get(&felt(2)).is_none());
    assert!(pool.get(&felt(3)).is_none());
    assert_eq!(pool.open_proposal().selection_counter(), 3);
}

#[test]
fn forced_chunk_processes_hashes_in_given_order_after_sweeping() {
    let mut pool = Mempool::new(MempoolConfig::default()).unwrap();
    let mut chain = Chain { nonces: Vec::new() };
    let (a, b, stale) = (felt(0xa), felt(0xb), felt(0xc));
    pool.accept(user(a, felt(0x1), 0)).unwrap();
    pool.accept(user(b, felt(0x2), 0)).unwrap();
    pool.accept(user(stale, felt(0x3), 0)).unwrap();
    let forced = ForcedHashSelection { transaction_hashes: vec![b, a], swept_stale_hashes: vec![stale] };
    let mut chunk = BlockBuilder::new()
        .build_forced_chunk(&mut pool, forced, &[TransactionEligibility::Stale("old".to_string())])
        .unwrap();
    assert!(pool.get(&stale).is_none());
    while let ChunkStep::Process(hash) = chunk.next_step(&pool) {
        chain.execute(&mut pool, hash);
        chunk.process(&mut pool, ProcessingResult::Executed);
    }
    let outcome = chunk.finish(&pool);
    assert_eq!(outcome.pre_confirmed, vec![b, a]);
    assert_eq!(outcome.swept_stale_hashes, vec![stale]);
    assert_eq!(outcome.rejected.len(), 1);
    assert_eq!(pool.proposal_hashes(), &[b, a]);
}

#[test]
fn forced_chunk_stops_at_a_full_block_keeping_selection_order() {
    let config = MempoolConfig { max_transactions_per_block: 2, ..MempoolConfig::default() };
    let mut pool = Mempool::new(config).unwrap();
    let mut chain = Chain { nonces: Vec::new() };
    let (a, b, c, d) = (felt(0xa), felt(0xb), felt(0xc), felt(0xd));
    for (hash, account) in [(a, 1), (b, 2), (c, 3), (d, 4)] {
        pool.accept(user(hash, felt(account), 0)).unwrap();
    }
    let forced = ForcedHashSelection { transaction_hashes: vec![d, b, c, a], swept_stale_hashes: vec![] };
    let mut chunk = BlockBuilder::new().build_forced_chunk(&mut pool, forced, &[]).unwrap();
    let results = [
        ProcessingResult::Blocked("resource bounds".to_string()),
        ProcessingResult::Executed,
        ProcessingResult::Executed,
    ];
    let mut next = 0;
    while let ChunkStep::Process(hash) = chunk.next_step(&pool) {
        let result = results[next].clone();
        if result == ProcessingResult::Executed {
            chain.execute(&mut pool, hash);
        }
        chunk.process(&mut pool, result);
        next += 1;
    }
    let outcome = chunk.finish(&pool);
    assert_eq!(outcome.selected, vec![d, b, c]);
    assert_eq!(outcome.pre_confirmed, vec![b, c]);
    assert_eq!(outcome.blocked.len(), 1);
    assert_eq!(outcome.blocked[0].transaction_hash, d);
    assert!(outcome.rejected.is_empty());
    assert!(outcome.block_full);
    assert_eq!(pool.get(&a).unwrap().phase, MempoolPhase::Received);
    assert_eq!(pool.get(&d).unwrap().phase, MempoolPhase::Received);
}

#[test]
fn forced_chunk_refusals() {
    let mut pool = Mempool::new(MempoolConfig::default()).unwrap();
    let (a, b) = (felt(0xa), felt(0xb));
    pool.accept(user(a, felt(0x1), 0)).unwrap();
    pool.accept(user(b, felt(0x2), 0)).unwrap();
    let builder = BlockBuilder::new();

    let duplicated = ForcedHashSelection { transaction_hashes: vec![a, a], swept_stale_hashes: vec![] };
    assert!(matches!(
        builder.build_forced_chunk(&mut pool, duplicated, &[]),
        Err(MempoolError::DuplicatedHash { transaction_hash }) if transaction_hash == a
    ));

    let missing = ForcedHashSelection { transaction_hashes: vec![felt(0xdead)], swept_stale_hashes: vec![] };
    assert!(matches!(builder.build_forced_chunk(&mut pool, missing, &[]), Err(MempoolError::NoTransaction)));

    let both = ForcedHashSelection { transaction_hashes: vec![a], swept_stale_hashes: vec![a] };
    assert!(matches!(
        builder.build_forced_chunk(&mut pool, both, &[TransactionEligibility::Stale("old".to_string())]),
        Err(MempoolError::SelectedAndSwept { transaction_hash }) if transaction_hash == a
    ));

    let not_stale = ForcedHashSelection { transaction_hashes: vec![a], swept_stale_hashes: vec![b] };
    assert!(matches!(
        builder.build_forced_chunk(&mut pool, not_stale, &[TransactionEligibility::Eligible]),
        Err(MempoolError::NotStale { transaction_hash }) if transaction_hash == b
    ));
    assert_eq!(pool.entries().len(), 2);

    pool.mark_candidate(&a).unwrap();
    let not_received = ForcedHashSelection { transaction_hashes: vec![a], swept_stale_hashes: vec![] };
    assert!(matches!(
        builder.build_forced_chunk(&mut pool, not_received, &[]),
        Err(MempoolError::NotReceived { transaction_hash }) if transaction_hash == a
    ));
}

#[test]
fn prepared_transaction_constructors_set_lane_and_slot() {
    let user = PreparedTransaction::account(felt(1), felt(2), felt(3), 4, 5);
    assert_eq!(user.lane, MempoolLane::User);
    assert_eq!(user.account_address, Some(felt(2)));
    assert_eq!(user.nonce, Some(felt(3)));
    assert_eq!((user.tip, user.max_l2_gas_price), (4, 5));
    let admin = PreparedTransaction::system_account(felt(1), felt(2), felt(3), 4, 5);
    assert_eq!(admin.lane, MempoolLane::System);
    assert_eq!(admin.nonce, Some(felt(3)));
    let handler = PreparedTransaction::system(felt(9));
    assert_eq!(handler.lane, MempoolLane::System);
    assert_eq!(handler.account_address, None);
    assert_eq!((handler.tip, handler.max_l2_gas_price), (0, 0));
}

fn tipped(hash: Felt, account: Felt, nonce: u64, tip: u64) -> PreparedTransaction {
    PreparedTransaction::account(hash, account, felt(nonce), tip, 1_000)
}

fn starknet_pool() -> Mempool {
    let mut config = MempoolConfig::default();
    config.ordering = MempoolOrdering::starknet();
    Mempool::new(config).unwrap()
}

#[test]
fn starknet_pipeline_pre_confirms_by_descending_tip() {
    let mut pool = starknet_pool();
    let mut chain = Chain { nonces: Vec::new() };
    let (low, high, middle) = (felt(0x1), felt(0x2), felt(0x3));
    pool.accept(tipped(low, felt(0xa), 0, 10)).unwrap();
    pool.accept(tipped(high, felt(0xb), 0, 30)).unwrap();
    pool.accept(tipped(middle, felt(0xc), 0, 20)).unwrap();
    let chunk = BlockBuilder::new().build_policy_chunk(None);
    let outcome = run_policy_chunk(&mut pool, &mut chain, chunk, None).unwrap();
    assert_eq!(outcome.pre_confirmed, vec![high, middle, low]);
    assert_eq!(pool.proposal_hashes(), &[high, middle, low]);
    pool.commit_proposal();
    assert!(pool.entries().is_empty());
    assert!(pool.proposal_hashes().is_empty());
}

#[test]
fn starknet_policy_replenishes_account_heads_between_selection_rounds() {
    let mut pool = starknet_pool();
    let mut chain = Chain { nonces: Vec::new() };
    let (a0, b0, a1) = (felt(0xa0), felt(0xb0), felt(0xa1));
    pool.accept(tipped(a0, felt(0xa), 0, 20)).unwrap();
    pool.accept(tipped(b0, felt(0xb), 0, 10)).unwrap();
    pool.accept(tipped(a1, felt(0xa), 1, 30)).unwrap();
    let chunk = BlockBuilder::new().build_policy_chunk(None);
    let outcome = run_policy_chunk(&mut pool, &mut chain, chunk, None).unwrap();
    assert_eq!(outcome.pre_confirmed, vec![a0, b0, a1]);
}

#[test]
fn max_transactions_caps_selection() {
    let mut pool = Mempool::new(MempoolConfig::default()).unwrap();
    let mut chain = Chain { nonces: Vec::new() };
    let hashes = [felt(1), felt(2), felt(3), felt(4)];
    for (i, hash) in hashes.iter().enumerate() {
        pool.accept(user(*hash, felt(0x100 + i as u64), 0)).unwrap();
    }
    let chunk = BlockBuilder::new().build_policy_chunk(Some(2));
    let outcome = run_policy_chunk(&mut pool, &mut chain, chunk, None).unwrap();
    assert_eq!(outcome.pre_confirmed, vec![hashes[0], hashes[1]]);
    assert!(!outcome.block_full);
    let received = pool.entries().iter().filter(|e| e.phase == MempoolPhase::Received).count();
    assert_eq!(received, 2);
}

#[test]
fn next_nonce_becomes_eligible_after_preconfirm() {
    let mut pool = Mempool::new(MempoolConfig::default()).unwrap();
    let mut chain = Chain { nonces: Vec::new() };
    let (first, second) = (felt(0x10), felt(0x11));
    pool.accept(user(first, felt(0xa), 0)).unwrap();
    pool.accept(user(second, felt(0xa), 1)).unwrap();
    let chunk = BlockBuilder::new().build_policy_chunk(None);
    let outcome = run_policy_chunk(&mut pool, &mut chain, chunk, None).unwrap();
    assert_eq!(outcome.pre_confirmed, vec![first, second]);
}

#[test]
fn preconfirm_with_empty_pool_is_noop() {
    let mut pool = Mempool::new(MempoolConfig::default()).unwrap();
    let mut chain = Chain { nonces: Vec::new() };
    let chunk = BlockBuilder::new().build_policy_chunk(None);
    let outcome = run_policy_chunk(&mut pool, &mut chain, chunk, None).unwrap();
    assert!(outcome.pre_confirmed.is_empty());
    assert!(outcome.rejected.is_empty());
    assert!(outcome.blocked.is_empty());
    assert!(!outcome.block_full);
}

#[test]
fn random_policy_follows_its_seed() {
    let picks = |seed: u64| {
        let mut config = MempoolConfig::default();
        config.ordering = MempoolOrdering::random();
        config.random_seed = seed;
        let mut pool = Mempool::new(config).unwrap();
        let mut chain = Chain { nonces: Vec::new() };
        for i in 0..5u64 {
            pool.accept(user(felt(0x50 + i), felt(0x900 + i), 0)).unwrap();
        }
        let chunk = BlockBuilder::new().build_policy_chunk(None);
        run_policy_chunk(&mut pool, &mut chain, chunk, None).unwrap().pre_confirmed
    };
    assert_eq!(picks(42), picks(42));
    assert_eq!(picks(42).len(), 5);
}

#[test]
fn chunk_stops_at_limit_or_full_proposal() {
    let mut config = MempoolConfig::default();
    config.max_transactions_per_block = 1;
    let mut pool = Mempool::new(config).unwrap();
    let mut chain = Chain { nonces: Vec::new() };
    pool.accept(user(felt(1), felt(0xa), 0)).unwrap();
    let mut chunk = BlockBuilder::new().build_policy_chunk(Some(3));
    assert!(chunk.may_continue(&pool));
    chain.execute(&mut pool, felt(1));
    chunk.process(&mut pool, felt(1), ProcessingResult::Executed);
    assert!(chunk.wants_more());
    assert!(!chunk.may_continue(&pool));
    let empty = Mempool::new(MempoolConfig::default()).unwrap();
    assert!(!BlockBuilder::new().build_policy_chunk(Some(0)).may_continue(&empty));
}

#[test]
fn swept_eligibility_is_read_only_while_needed() {
    let (a, b, c) = (felt(0xa), felt(0xb), felt(0xc));
    let stale = TransactionEligibility::Stale("old".to_string());
    assert!(needs_swept_eligibility(&[a], &[b, c], &[]));
    assert!(needs_swept_eligibility(&[a], &[b, c], &[stale.clone()]));
    assert!(!needs_swept_eligibility(&[a], &[b, c], &[TransactionEligibility::Eligible]));
    assert!(!needs_swept_eligibility(&[b], &[b, c], &[]));
}
