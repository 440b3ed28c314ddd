//! The transaction pool: admission, lifecycle transitions, the open proposal and the
//! configured ordering policy.
use vstd::prelude::*;

use indexmap::IndexMap;

use crate::config::{fifo_name, is_builtin_name, random_name, starknet_name, MempoolConfig, MempoolConfigUpdate, MempoolOrdering};
use crate::entry::{MempoolEntry, MempoolLane, MempoolPhase, PreparedTransaction};
use crate::error::MempoolError;
use crate::felt::Felt;
use crate::index_map::{
    has_key, key_position, keys_unique, table_lookup, table_clear, table_contains, table_get, table_get_index,
    table_insert, table_len, table_new, table_pairs, table_shift_remove, EntryKey,
};
use crate::ordering::{builtin_choice, policy_choice, EligibleTransactions, OrderingPolicyRegistry, PolicyKind, SelectionContext};

verus! {

/// Transactions already appended to the live pre-confirmed block, and the deterministic
/// selection counter of that proposal.
#[derive(Debug)]
pub struct OpenProposal {
    transaction_hashes: Vec<Felt>,
    selection_counter: u64,
}

impl OpenProposal {
    pub closed spec fn hashes_view(&self) -> Seq<Felt> {
        self.transaction_hashes@
    }

    pub closed spec fn counter_view(&self) -> u64 {
        self.selection_counter
    }

    pub fn new() -> (r: Self)
        ensures
            r.hashes_view() == Seq::<Felt>::empty(),
            r.counter_view() == 0,
    {
        OpenProposal { transaction_hashes: Vec::new(), selection_counter: 0 }
    }

    pub fn transaction_hashes(&self) -> (r: &[Felt])
        ensures
            r@ == self.hashes_view(),
    {
        self.transaction_hashes.as_slice()
    }

    pub fn transaction_count(&self) -> (r: usize)
        ensures
            r == self.hashes_view().len(),
    {
        self.transaction_hashes.len()
    }

    pub fn selection_counter(&self) -> (r: u64)
        ensures
            r == self.counter_view(),
    {
        self.selection_counter
    }

    pub fn append(&mut self, hash: Felt)
        ensures
            final(self).hashes_view() == old(self).hashes_view().push(hash),
            final(self).counter_view() == old(self).counter_view(),
    {
        self.transaction_hashes.push(hash);
    }

    /// Counts one more selection attempt, saturating at `u64::MAX`.
    pub fn record_selection(&mut self)
        ensures
            final(self).hashes_view() == old(self).hashes_view(),
            final(self).counter_view() == (if old(self).counter_view() == u64::MAX {
                u64::MAX
            } else {
                (old(self).counter_view() + 1) as u64
            }),
    {
        self.selection_counter = self.selection_counter.saturating_add(1);
    }

    /// Hands out the hashes and resets the proposal.
    pub fn take_hashes(&mut self) -> (r: Vec<Felt>)
        ensures
            r@ == old(self).hashes_view(),
            final(self).hashes_view() == Seq::<Felt>::empty(),
            final(self).counter_view() == 0,
    {
        self.selection_counter = 0;
        let mut taken: Vec<Felt> = Vec::new();
        std::mem::swap(&mut taken, &mut self.transaction_hashes);
        taken
    }

    pub fn clear(&mut self)
        ensures
            final(self).hashes_view() == Seq::<Felt>::empty(),
            final(self).counter_view() == 0,
    {
        self.transaction_hashes.clear();
        self.selection_counter = 0;
    }
}

impl Default for OpenProposal {
    fn default() -> (r: Self)
        ensures
            r.hashes_view() == Seq::<Felt>::empty(),
            r.counter_view() == 0,
    {
        OpenProposal::new()
    }
}

/// A caller-chosen selection: the hashes to process in order, and stale hashes to sweep out
/// of the pool first.
#[derive(Clone, Debug)]
pub struct ForcedHashSelection {
    pub transaction_hashes: Vec<Felt>,
    pub swept_stale_hashes: Vec<Felt>,
}

/// What a block-building request selects: by the ordering policy, or exactly these hashes.
#[derive(Clone, Debug)]
pub enum MempoolSelection {
    Policy { max_transactions: Option<usize> },
    Hashes(ForcedHashSelection),
}

impl Default for MempoolSelection {
    /// A policy selection without a transaction limit.
    fn default() -> (r: Self)
        ensures
            r == (MempoolSelection::Policy { max_transactions: None }),
    {
        MempoolSelection::Policy { max_transactions: None }
    }
}

/// A transaction that left the building step without being pre-confirmed, and why.
#[derive(Debug, PartialEq, Eq)]
pub struct BuildFailure {
    pub transaction_hash: Felt,
    pub reason: String,
}

impl BuildFailure {
    pub fn duplicate(&self) -> (r: Self)
        ensures
            r == *self,
    {
        BuildFailure { transaction_hash: self.transaction_hash, reason: self.reason.clone() }
    }
}

impl Clone for BuildFailure {
    fn clone(&self) -> (r: Self)
        ensures
            r == *self,
    {
        self.duplicate()
    }
}

/// Result of one block-building step.
#[derive(Clone, Debug, PartialEq, Eq)]
pub struct BuildOutcome {
    pub selected: Vec<Felt>,
    pub pre_confirmed: Vec<Felt>,
    pub rejected: Vec<BuildFailure>,
    pub blocked: Vec<BuildFailure>,
    pub swept_stale_hashes: Vec<Felt>,
    pub block_full: bool,
}

impl BuildOutcome {
    pub fn new() -> (r: Self)
        ensures
            r.selected@ == Seq::<Felt>::empty(),
            r.pre_confirmed@ == Seq::<Felt>::empty(),
            r.rejected@ == Seq::<BuildFailure>::empty(),
            r.blocked@ == Seq::<BuildFailure>::empty(),
            r.swept_stale_hashes@ == Seq::<Felt>::empty(),
            !r.block_full,
    {
        BuildOutcome {
            selected: Vec::new(),
            pre_confirmed: Vec::new(),
            rejected: Vec::new(),
            blocked: Vec::new(),
            swept_stale_hashes: Vec::new(),
            block_full: false,
        }
    }

    /// Something was pre-confirmed or rejected (and so left the set of waiting transactions).
    pub fn made_progress(&self) -> (r: bool)
        ensures
            r == (self.pre_confirmed@.len() > 0 || self.rejected@.len() > 0),
    {
        self.pre_confirmed.len() != 0 || self.rejected.len() != 0
    }
}

impl Default for BuildOutcome {
    fn default() -> (r: Self)
        ensures
            r.selected@ == Seq::<Felt>::empty(),
            r.pre_confirmed@ == Seq::<Felt>::empty(),
            r.rejected@ == Seq::<BuildFailure>::empty(),
            r.blocked@ == Seq::<BuildFailure>::empty(),
            r.swept_stale_hashes@ == Seq::<Felt>::empty(),
            !r.block_full,
    {
        BuildOutcome::new()
    }
}

// ---------------------------------------------------------------------------------------------
// The pool's model.

/// Whether some entry of `es` has hash `h`.
pub open spec fn contains_hash(es: Seq<MempoolEntry>, h: Felt) -> bool {
    exists|i: int| 0 <= i < es.len() && es[i].transaction_hash == h
}

/// The position of the entry with hash `h` (meaningful when `contains_hash(es, h)`).
pub open spec fn hash_position(es: Seq<MempoolEntry>, h: Felt) -> int {
    choose|i: int| 0 <= i < es.len() && es[i].transaction_hash == h
}

/// The entry with hash `h`, if any.
pub open spec fn lookup(es: Seq<MempoolEntry>, h: Felt) -> Option<MempoolEntry> {
    if contains_hash(es, h) {
        Some(es[hash_position(es, h)])
    } else {
        None
    }
}

/// No hash occurs twice.
pub open spec fn hashes_unique(es: Seq<MempoolEntry>) -> bool {
    forall|i: int, j: int|
        0 <= i < es.len() && 0 <= j < es.len() && es[i].transaction_hash == es[j].transaction_hash ==> i == j
}

/// Whether some entry of `es` occupies the account nonce `slot`.
pub open spec fn slot_taken(es: Seq<MempoolEntry>, slot: (Felt, Felt)) -> bool {
    exists|i: int| 0 <= i < es.len() && es[i].spec_account_nonce() == Some(slot)
}

/// No two entries occupy the same account nonce.
pub open spec fn slots_unique(es: Seq<MempoolEntry>) -> bool {
    forall|i: int, j: int|
        0 <= i < es.len() && 0 <= j < es.len() && (#[trigger] es[i].spec_account_nonce()) is Some
            && es[i].spec_account_nonce() == (#[trigger] es[j].spec_account_nonce()) ==> i == j
}

/// The account-nonce index lists exactly the occupied slots, each with its entry's hash.
pub open spec fn nonce_index_matches(idx: Seq<((Felt, Felt), Felt)>, es: Seq<MempoolEntry>) -> bool {
    &&& forall|x: ((Felt, Felt), Felt)| #[trigger] idx.contains(x) ==> exists|j: int|
        0 <= j < es.len() && (#[trigger] es[j].spec_account_nonce()) == Some(x.0) && es[j].transaction_hash == x.1
    &&& forall|j: int| 0 <= j < es.len() && (#[trigger] es[j].spec_account_nonce()) is Some ==>
        idx.contains((es[j].spec_account_nonce()->0, es[j].transaction_hash))
}

/// Two entry sequences agree on everything but phases.
pub open spec fn same_but_phases(a: Seq<MempoolEntry>, b: Seq<MempoolEntry>) -> bool {
    &&& a.len() == b.len()
    &&& forall|i: int| 0 <= i < a.len() ==> (#[trigger] a[i]).transaction_hash == b[i].transaction_hash
        && a[i].spec_account_nonce() == b[i].spec_account_nonce()
}

/// `e` moved to `phase`.
pub open spec fn phase_set(e: MempoolEntry, phase: MempoolPhase) -> MempoolEntry {
    MempoolEntry { phase, ..e }
}

/// `es` with the entry at position `p` moved to `phase`.
pub open spec fn with_phase(es: Seq<MempoolEntry>, p: int, phase: MempoolPhase) -> Seq<MempoolEntry> {
    es.update(p, phase_set(es[p], phase))
}

/// The counter after one more step, saturating at `u64::MAX`.
pub open spec fn saturating_next(n: u64) -> u64 {
    if n == u64::MAX {
        u64::MAX
    } else {
        (n + 1) as u64
    }
}

/// `prepared` names an account nonce that a pooled entry already uses.
pub open spec fn slot_conflict(es: Seq<MempoolEntry>, prepared: PreparedTransaction) -> bool {
    match prepared.spec_account_nonce() {
        Some(slot) => slot_taken(es, slot),
        None => false,
    }
}

/// The entry that acceptance creates for `prepared`.
pub open spec fn accepted_entry(prepared: PreparedTransaction, arrival_id: u64) -> MempoolEntry {
    MempoolEntry {
        transaction_hash: prepared.transaction_hash,
        phase: MempoolPhase::Received,
        arrival_id,
        account_address: prepared.account_address,
        nonce: prepared.nonce,
        tip: prepared.tip,
        max_l2_gas_price: prepared.max_l2_gas_price,
        lane: prepared.lane,
    }
}

/// Entries are listed by arrival: arrival positions increase along the sequence and stay
/// below the next position to hand out. Positions only repeat once the counter has
/// saturated at `u64::MAX`.
pub open spec fn arrival_ordered(es: Seq<MempoolEntry>, next: u64) -> bool {
    &&& forall|i: int, j: int| 0 <= i < j < es.len() ==> (#[trigger] es[i]).arrival_id < (#[trigger] es[j]).arrival_id
        || (es[i].arrival_id == u64::MAX && es[j].arrival_id == u64::MAX)
    &&& forall|i: int| 0 <= i < es.len() ==> (#[trigger] es[i]).arrival_id < next
        || (es[i].arrival_id == u64::MAX && next == u64::MAX)
}

/// Every pre-confirmed entry is listed in the open proposal.
pub open spec fn pre_confirmed_listed(es: Seq<MempoolEntry>, proposal: Seq<Felt>) -> bool {
    forall|i: int| 0 <= i < es.len() && (#[trigger] es[i]).phase == MempoolPhase::PreConfirmed
        ==> proposal.contains(es[i].transaction_hash)
}

/// The pool: pooled transactions in arrival order, the open proposal, the configuration and
/// the registered ordering policies.
pub struct Mempool {
    entries: IndexMap<(u128, u128), MempoolEntry>,
    account_nonce_index: Vec<((Felt, Felt), Felt)>,
    next_arrival_id: u64,
    proposal: OpenProposal,
    config: MempoolConfig,
    ordering_policies: OrderingPolicyRegistry,
}

impl Mempool {
    pub closed spec fn table(&self) -> Seq<(EntryKey, MempoolEntry)> {
        table_pairs(self.entries)
    }

    /// The pooled entries, in arrival order.
    pub closed spec fn entries_view(&self) -> Seq<MempoolEntry> {
        self.table().map_values(|p: (EntryKey, MempoolEntry)| p.1)
    }

    /// The pooled entry with hash `h`, if any.
    pub closed spec fn spec_get(&self, h: Felt) -> Option<MempoolEntry> {
        table_lookup(self.table(), h.spec_key())
    }

    /// Hashes appended to the open proposal, in order.
    pub closed spec fn proposal_view(&self) -> Seq<Felt> {
        self.proposal.hashes_view()
    }

    /// Selection attempts recorded for the open proposal.
    pub closed spec fn selection_counter_view(&self) -> u64 {
        self.proposal.counter_view()
    }

    /// The arrival position the next admitted transaction gets.
    pub closed spec fn next_arrival_view(&self) -> u64 {
        self.next_arrival_id
    }

    pub closed spec fn config_view(&self) -> MempoolConfig {
        self.config
    }

    pub closed spec fn registry_view(&self) -> OrderingPolicyRegistry {
        self.ordering_policies
    }

    /// How many more transactions the open proposal can take: the block capacity minus the
    /// proposal's size, or zero.
    pub open spec fn remaining_capacity_view(&self) -> int {
        if self.proposal_view().len() <= self.config_view().max_transactions_per_block {
            self.config_view().max_transactions_per_block - self.proposal_view().len()
        } else {
            0
        }
    }

    /// The pool's internal invariant.
    pub closed spec fn wf(&self) -> bool {
        &&& keys_unique(self.table())
        &&& forall|i: int| 0 <= i < self.table().len() ==> (#[trigger] self.table()[i]).0 == self.table()[i].1.transaction_hash.spec_key()
        &&& slots_unique(self.entries_view())
        &&& nonce_index_matches(self.account_nonce_index@, self.entries_view())
        &&& arrival_ordered(self.entries_view(), self.next_arrival_id)
        &&& pre_confirmed_listed(self.entries_view(), self.proposal.hashes_view())
        &&& self.ordering_policies.wf()
        &&& self.ordering_policies.has_policy(self.config.ordering@)
    }

    /// Looking a hash up in the pool is looking its key up in the entry table.
    pub proof fn lemma_get_is_lookup(&self, h: Felt)
        ensures
            self.spec_get(h) == table_lookup(self.table(), h.spec_key()),
    {
    }

    /// What the invariant gives: hashes are unique and lookup by hash finds the entry.
    pub proof fn lemma_wf(&self, h: Felt)
        requires
            self.wf(),
        ensures
            hashes_unique(self.entries_view()),
            slots_unique(self.entries_view()),
            self.entries_view().len() == self.table().len(),
            self.spec_get(h) == lookup(self.entries_view(), h),
            contains_hash(self.entries_view(), h) == has_key(self.table(), h.spec_key()),
            contains_hash(self.entries_view(), h) ==> hash_position(self.entries_view(), h) == key_position(self.table(), h.spec_key()),
            self.registry_view().wf(),
            self.registry_view().has_policy(self.config_view().ordering@),
            arrival_ordered(self.entries_view(), self.next_arrival_view()),
            pre_confirmed_listed(self.entries_view(), self.proposal_view()),
    {
        let t = self.table();
        let es = self.entries_view();
        assert forall|i: int, j: int|
            0 <= i < es.len() && 0 <= j < es.len() && es[i].transaction_hash == es[j].transaction_hash implies i == j by {
            assert(t[i].0 == t[i].1.transaction_hash.spec_key());
            assert(t[j].0 == t[j].1.transaction_hash.spec_key());
        }
        if has_key(t, h.spec_key()) {
            let p = key_position(t, h.spec_key());
            assert(t[p].0 == t[p].1.transaction_hash.spec_key());
            assert(es[p].transaction_hash == h);
            let q = hash_position(es, h);
            assert(t[q].0 == t[q].1.transaction_hash.spec_key());
        }
        if contains_hash(es, h) {
            let q = hash_position(es, h);
            assert(t[q].0 == t[q].1.transaction_hash.spec_key());
        }
    }
}


impl Mempool {
    fn empty(config: MempoolConfig, ordering_policies: OrderingPolicyRegistry) -> (r: Self)
        requires
            ordering_policies.wf(),
            ordering_policies.has_policy(config.ordering@),
        ensures
            r.wf(),
            r.entries_view() == Seq::<MempoolEntry>::empty(),
            r.proposal_view() == Seq::<Felt>::empty(),
            r.selection_counter_view() == 0,
            r.next_arrival_view() == 0,
            r.config_view() == config,
            r.registry_view() == ordering_policies,
    {
        let r = Mempool {
            entries: table_new(),
            account_nonce_index: Vec::new(),
            next_arrival_id: 0,
            proposal: OpenProposal::new(),
            config,
            ordering_policies,
        };
        proof {
            assert(r.entries_view() =~= Seq::<MempoolEntry>::empty());
        }
        r
    }

    /// A pool with the built-in policies; refused when the configured policy is not one of
    /// them.
    pub fn new(config: MempoolConfig) -> (r: Result<Self, MempoolError>)
        ensures
            r is Ok <==> is_builtin_name(config.ordering@),
            r matches Ok(pool) ==> {
                &&& pool.wf()
                &&& pool.entries_view() == Seq::<MempoolEntry>::empty()
                &&& pool.proposal_view() == Seq::<Felt>::empty()
                &&& pool.selection_counter_view() == 0
                &&& pool.next_arrival_view() == 0
                &&& pool.config_view() == config
                &&& pool.registry_view().policy_kind(fifo_name()) == Some(PolicyKind::Fifo)
                &&& pool.registry_view().policy_kind(starknet_name()) == Some(PolicyKind::Starknet)
                &&& pool.registry_view().policy_kind(random_name()) == Some(PolicyKind::Random)
                &&& forall|n: Seq<char>| pool.registry_view().has_policy(n) <==> is_builtin_name(n)
            },
            r matches Err(e) ==> e matches MempoolError::UnknownOrderingPolicy { name, available } && name@ == config.ordering@
                && available@.map_values(|a: MempoolOrdering| a@) == seq![fifo_name(), starknet_name(), random_name()],
    {
        Self::with_policy_registry(config, OrderingPolicyRegistry::default())
    }

    /// A pool with the given policies; refused when the configured policy is not registered.
    pub fn with_policy_registry(config: MempoolConfig, ordering_policies: OrderingPolicyRegistry) -> (r: Result<Self, MempoolError>)
        requires
            ordering_policies.wf(),
        ensures
            r is Ok <==> ordering_policies.has_policy(config.ordering@),
            r matches Ok(pool) ==> {
                &&& pool.wf()
                &&& pool.entries_view() == Seq::<MempoolEntry>::empty()
                &&& pool.proposal_view() == Seq::<Felt>::empty()
                &&& pool.selection_counter_view() == 0
                &&& pool.next_arrival_view() == 0
                &&& pool.config_view() == config
                &&& pool.registry_view() == ordering_policies
            },
            r matches Err(e) ==> is_unknown_policy(e, config.ordering@, ordering_policies),
    {
        if !ordering_policies.contains(&config.ordering) {
            return Err(unknown_policy_error(&config.ordering, &ordering_policies));
        }
        Ok(Self::empty(config, ordering_policies))
    }

    pub fn config(&self) -> (r: &MempoolConfig)
        ensures
            *r == self.config_view(),
    {
        &self.config
    }

    pub fn ordering_policies(&self) -> (r: &OrderingPolicyRegistry)
        ensures
            *r == self.registry_view(),
    {
        &self.ordering_policies
    }

    /// The pooled entries in arrival order.
    pub fn entries(&self) -> (r: Vec<MempoolEntry>)
        ensures
            r@ == self.entries_view(),
    {
        let n = table_len(&self.entries);
        let mut out: Vec<MempoolEntry> = Vec::new();
        let mut i: usize = 0;
        while i < n
            invariant
                n == self.table().len(),
                i <= n,
                out@ == self.entries_view().take(i as int),
            decreases n - i,
        {
            let pair = table_get_index(&self.entries, i);
            match pair {
                Some(p) => {
                    out.push(p.1);
                },
                None => {},
            }
            proof {
                assert(self.entries_view().take(i + 1) =~= self.entries_view().take(i as int).push(self.table()[i as int].1));
            }
            i = i + 1;
        }
        proof {
            assert(self.entries_view().take(n as int) =~= self.entries_view());
        }
        out
    }

    pub fn get(&self, hash: &Felt) -> (r: Option<MempoolEntry>)
        ensures
            r == self.spec_get(*hash),
    {
        table_get(&self.entries, &hash.key())
    }

    /// The view an ordering policy chooses from: `hashes` read through this pool.
    pub fn eligible_transactions<'a>(&'a self, hashes: &'a [Felt]) -> (r: EligibleTransactions<'a>)
        ensures
            r.table_view() == self.table(),
            r.hash_seq() == hashes@,
            forall|h: Felt| r.lookup(h) == self.spec_get(h),
    {
        EligibleTransactions::new(&self.entries, hashes)
    }

    pub fn proposal_hashes(&self) -> (r: &[Felt])
        ensures
            r@ == self.proposal_view(),
    {
        self.proposal.transaction_hashes()
    }

    pub fn open_proposal(&self) -> (r: &OpenProposal)
        ensures
            r.hashes_view() == self.proposal_view(),
            r.counter_view() == self.selection_counter_view(),
    {
        &self.proposal
    }

    /// How many more transactions the open proposal can take.
    pub fn remaining_capacity(&self) -> (r: usize)
        ensures
            r == self.remaining_capacity_view(),
    {
        self.config.max_transactions_per_block.saturating_sub(self.proposal.transaction_count())
    }
}

/// `e` reports `name` as unregistered and lists the names registered in `registry`.
pub open spec fn is_unknown_policy(e: MempoolError, name: Seq<char>, registry: OrderingPolicyRegistry) -> bool {
    match e {
        MempoolError::UnknownOrderingPolicy { name: n, available } => n@ == name
            && available@.map_values(|a: MempoolOrdering| a@) == registry.names_view(),
        _ => false,
    }
}

/// The error for an unregistered policy name.
fn unknown_policy_error(name: &MempoolOrdering, registry: &OrderingPolicyRegistry) -> (r: MempoolError)
    ensures
        is_unknown_policy(r, name@, *registry),
{
    MempoolError::UnknownOrderingPolicy { name: name.duplicate(), available: registry.names() }
}


/// Everything but the entries and the nonce index is the same.
pub open spec fn same_frame(a: Mempool, b: Mempool) -> bool {
    &&& a.proposal_view() == b.proposal_view()
    &&& a.selection_counter_view() == b.selection_counter_view()
    &&& a.next_arrival_view() == b.next_arrival_view()
    &&& a.config_view() == b.config_view()
    &&& a.registry_view() == b.registry_view()
}

/// Phase changes keep the slot invariants.
proof fn lemma_phases_keep_slots(idx: Seq<((Felt, Felt), Felt)>, a: Seq<MempoolEntry>, b: Seq<MempoolEntry>)
    requires
        same_but_phases(a, b),
        slots_unique(a),
        nonce_index_matches(idx, a),
    ensures
        slots_unique(b),
        nonce_index_matches(idx, b),
        hashes_unique(a) ==> hashes_unique(b),
{
    assert forall|i: int, j: int|
        0 <= i < b.len() && 0 <= j < b.len() && (#[trigger] b[i].spec_account_nonce()) is Some
            && b[i].spec_account_nonce() == (#[trigger] b[j].spec_account_nonce()) implies i == j by {
        assert(a[i].spec_account_nonce() == b[i].spec_account_nonce());
        assert(a[j].spec_account_nonce() == b[j].spec_account_nonce());
    }
    assert forall|x: ((Felt, Felt), Felt)| #[trigger] idx.contains(x) implies exists|j: int|
        0 <= j < b.len() && (#[trigger] b[j].spec_account_nonce()) == Some(x.0) && b[j].transaction_hash == x.1 by {
        let j = choose|j: int| 0 <= j < a.len() && (#[trigger] a[j].spec_account_nonce()) == Some(x.0) && a[j].transaction_hash == x.1;
        assert(a[j].spec_account_nonce() == b[j].spec_account_nonce());
    }
    assert forall|j: int| 0 <= j < b.len() && (#[trigger] b[j].spec_account_nonce()) is Some implies
        idx.contains((b[j].spec_account_nonce()->0, b[j].transaction_hash)) by {
        assert(a[j].spec_account_nonce() == b[j].spec_account_nonce());
    }
    if hashes_unique(a) {
        assert forall|i: int, j: int|
            0 <= i < b.len() && 0 <= j < b.len() && b[i].transaction_hash == b[j].transaction_hash implies i == j by {
            assert(a[i].transaction_hash == b[i].transaction_hash);
            assert(a[j].transaction_hash == b[j].transaction_hash);
        }
    }
}

impl Mempool {
    /// Whether some pooled entry occupies the account nonce `slot`.
    fn slot_in_use(&self, slot: &(Felt, Felt)) -> (r: bool)
        requires
            self.wf(),
        ensures
            r == slot_taken(self.entries_view(), *slot),
    {
        let mut i: usize = 0;
        while i < self.account_nonce_index.len()
            invariant
                self.wf(),
                i <= self.account_nonce_index@.len(),
                forall|j: int| 0 <= j < i ==> (#[trigger] self.account_nonce_index@[j]).0 != *slot,
            decreases self.account_nonce_index@.len() - i,
        {
            let item = &self.account_nonce_index[i];
            if item.0.0 == slot.0 && item.0.1 == slot.1 {
                proof {
                    let es = self.entries_view();
                    let x = self.account_nonce_index@[i as int];
                    assert(self.account_nonce_index@.contains(x));
                    assert(x.0 == *slot);
                    let j = choose|j: int| 0 <= j < es.len() && (#[trigger] es[j].spec_account_nonce()) == Some(x.0) && es[j].transaction_hash == x.1;
                    assert(es[j].spec_account_nonce() == Some(*slot));
                }
                return true;
            }
            i = i + 1;
        }
        proof {
            let es = self.entries_view();
            if slot_taken(es, *slot) {
                let j = choose|j: int| 0 <= j < es.len() && es[j].spec_account_nonce() == Some(*slot);
                assert(es[j].spec_account_nonce() is Some);
                assert(self.account_nonce_index@.contains((es[j].spec_account_nonce()->0, es[j].transaction_hash)));
                let k = choose|k: int| 0 <= k < self.account_nonce_index@.len() && self.account_nonce_index@[k] == (es[j].spec_account_nonce()->0, es[j].transaction_hash);
                assert(self.account_nonce_index@[k].0 == *slot);
            }
        }
        false
    }

    /// Accepts a prepared transaction as RECEIVED with the next arrival position.
    ///
    /// Refused when the hash is already pooled, or when another pooled transaction uses the
    /// same account nonce; a refusal changes nothing.
    pub fn accept(&mut self, prepared: PreparedTransaction) -> (r: Result<Felt, MempoolError>)
        requires
            old(self).wf(),
        ensures
            final(self).wf(),
            final(self).proposal_view() == old(self).proposal_view(),
            final(self).selection_counter_view() == old(self).selection_counter_view(),
            final(self).config_view() == old(self).config_view(),
            final(self).registry_view() == old(self).registry_view(),
            contains_hash(old(self).entries_view(), prepared.transaction_hash) ==> {
                &&& r == Err::<Felt, MempoolError>(MempoolError::DuplicateTransaction { transaction_hash: prepared.transaction_hash })
                &&& final(self).entries_view() == old(self).entries_view()
                &&& final(self).next_arrival_view() == old(self).next_arrival_view()
            },
            !contains_hash(old(self).entries_view(), prepared.transaction_hash)
                && slot_conflict(old(self).entries_view(), prepared) ==> {
                &&& r == Err::<Felt, MempoolError>(MempoolError::NonceConflict {
                    address: prepared.account_address->0,
                    nonce: prepared.nonce->0,
                })
                &&& final(self).entries_view() == old(self).entries_view()
                &&& final(self).next_arrival_view() == old(self).next_arrival_view()
            },
            !contains_hash(old(self).entries_view(), prepared.transaction_hash)
                && !slot_conflict(old(self).entries_view(), prepared) ==> {
                &&& r == Ok::<Felt, MempoolError>(prepared.transaction_hash)
                &&& final(self).entries_view() == old(self).entries_view().push(accepted_entry(prepared, old(self).next_arrival_view()))
                &&& final(self).next_arrival_view() == saturating_next(old(self).next_arrival_view())
            },
    {
        let hash = prepared.transaction_hash;
        proof {
            self.lemma_wf(hash);
        }
        if table_contains(&self.entries, &hash.key()) {
            return Err(MempoolError::DuplicateTransaction { transaction_hash: hash });
        }
        let slot = match (prepared.account_address, prepared.nonce) {
            (Some(a), Some(n)) => Some((a, n)),
            _ => None,
        };
        match slot {
            Some(sl) => {
                if self.slot_in_use(&sl) {
                    return Err(MempoolError::NonceConflict { address: sl.0, nonce: sl.1 });
                }
            },
            None => {},
        }
        let entry = MempoolEntry {
            transaction_hash: hash,
            phase: MempoolPhase::Received,
            arrival_id: self.next_arrival_id,
            account_address: prepared.account_address,
            nonce: prepared.nonce,
            tip: prepared.tip,
            max_l2_gas_price: prepared.max_l2_gas_price,
            lane: prepared.lane,
        };
        let ghost old_es = self.entries_view();
        let ghost old_idx = self.account_nonce_index@;
        let ghost old_table = self.table();
        self.next_arrival_id = self.next_arrival_id.saturating_add(1);
        match slot {
            Some(sl) => {
                self.account_nonce_index.push((sl, hash));
            },
            None => {},
        }
        table_insert(&mut self.entries, hash.key(), entry);
        proof {
            let es = self.entries_view();
            let t = self.table();
            assert(t == old_table.push((hash.spec_key(), entry)));
            assert(es =~= old_es.push(entry));
            let n = old_es.len();
            assert forall|i: int, j: int| 0 <= i < t.len() && 0 <= j < t.len() && t[i].0 == t[j].0 implies i == j by {
                if i < n && j < n {
                } else if i < n {
                    assert(old_table[i].0 == hash.spec_key());
                } else if j < n {
                    assert(old_table[j].0 == hash.spec_key());
                }
            }
            assert forall|i: int| 0 <= i < t.len() implies (#[trigger] t[i]).0 == t[i].1.transaction_hash.spec_key() by {
                if i < n {
                    assert(old_table[i].0 == old_table[i].1.transaction_hash.spec_key());
                }
            }
            assert forall|i: int, j: int|
                0 <= i < es.len() && 0 <= j < es.len() && (#[trigger] es[i].spec_account_nonce()) is Some
                    && es[i].spec_account_nonce() == (#[trigger] es[j].spec_account_nonce()) implies i == j by {
                if i < n && j < n {
                    assert(old_es[i] == es[i]);
                    assert(old_es[j] == es[j]);
                } else if i < n {
                    assert(old_es[i] == es[i]);
                    assert(old_es[i].spec_account_nonce() == Some(slot->0));
                } else if j < n {
                    assert(old_es[j] == es[j]);
                    assert(old_es[j].spec_account_nonce() == Some(slot->0));
                }
            }
            let idx = self.account_nonce_index@;
            assert forall|x: ((Felt, Felt), Felt)| #[trigger] idx.contains(x) implies exists|j: int|
                0 <= j < es.len() && (#[trigger] es[j].spec_account_nonce()) == Some(x.0) && es[j].transaction_hash == x.1 by {
                if old_idx.contains(x) {
                    let j = choose|j: int| 0 <= j < old_es.len() && (#[trigger] old_es[j].spec_account_nonce()) == Some(x.0) && old_es[j].transaction_hash == x.1;
                    assert(es[j] == old_es[j]);
                } else {
                    let k = choose|k: int| 0 <= k < idx.len() && idx[k] == x;
                    if k < old_idx.len() {
                        assert(old_idx[k] == idx[k]);
                        assert(old_idx.contains(x));
                    }
                    assert(slot is Some);
                    assert(idx == old_idx.push((slot->0, hash)));
                    assert(x == (slot->0, hash));
                    assert(es[n as int] == entry);
                    assert(entry.spec_account_nonce() == slot);
                    assert(es[n as int].spec_account_nonce() == Some(x.0));
                }
            }
            assert forall|j: int| 0 <= j < es.len() && (#[trigger] es[j].spec_account_nonce()) is Some implies
                idx.contains((es[j].spec_account_nonce()->0, es[j].transaction_hash)) by {
                if j < n {
                    assert(es[j] == old_es[j]);
                    let y = (old_es[j].spec_account_nonce()->0, old_es[j].transaction_hash);
                    assert(old_idx.contains(y));
                    let k = choose|k: int| 0 <= k < old_idx.len() && old_idx[k] == y;
                    assert(idx[k] == y);
                } else {
                    assert(idx[idx.len() - 1] == (slot->0, hash));
                }
            }
        }
        Ok(hash)
    }
}


/// `idx` without the items for account nonce `slot`.
fn index_without_slot(idx: &Vec<((Felt, Felt), Felt)>, slot: &(Felt, Felt)) -> (r: Vec<((Felt, Felt), Felt)>)
    ensures
        forall|x: ((Felt, Felt), Felt)| r@.contains(x) <==> idx@.contains(x) && x.0 != *slot,
{
    let mut out: Vec<((Felt, Felt), Felt)> = Vec::new();
    let mut i: usize = 0;
    while i < idx.len()
        invariant
            i <= idx@.len(),
            forall|x: ((Felt, Felt), Felt)| #[trigger] out@.contains(x) <==> idx@.take(i as int).contains(x) && x.0 != *slot,
        decreases idx@.len() - i,
    {
        let item = idx[i];
        let ghost before = out@;
        if !(item.0.0 == slot.0 && item.0.1 == slot.1) {
            out.push(item);
        }
        proof {
            let prev = idx@.take(i as int);
            let next = idx@.take(i + 1);
            assert(next =~= prev.push(item));
            assert forall|x: ((Felt, Felt), Felt)| out@.contains(x) <==> next.contains(x) && x.0 != *slot by {
                if out@.contains(x) {
                    let k = choose|k: int| 0 <= k < out@.len() && out@[k] == x;
                    if k < before.len() {
                        assert(before[k] == x);
                        assert(before.contains(x));
                        let m = choose|m: int| 0 <= m < prev.len() && prev[m] == x;
                        assert(next[m] == x);
                    } else {
                        assert(x == item);
                        assert(next[i as int] == x);
                    }
                }
                if next.contains(x) && x.0 != *slot {
                    let k = choose|k: int| 0 <= k < next.len() && next[k] == x;
                    if k < i {
                        assert(prev[k] == x);
                        assert(prev.contains(x));
                        assert(before.contains(x));
                        let m = choose|m: int| 0 <= m < before.len() && before[m] == x;
                        assert(out@[m] == x);
                    } else {
                        assert(x == item);
                        assert(out@[out@.len() - 1] == x);
                    }
                }
            }
        }
        i = i + 1;
    }
    proof {
        assert(idx@.take(i as int) =~= idx@);
    }
    out
}

impl Mempool {
    /// Removes the entry with `hash`, whatever its phase, and frees its account nonce.
    pub fn remove_entry(&mut self, hash: &Felt) -> (r: Option<MempoolEntry>)
        requires
            old(self).wf(),
        ensures
            final(self).wf(),
            same_frame(*final(self), *old(self)),
            contains_hash(old(self).entries_view(), *hash) ==> {
                let p = hash_position(old(self).entries_view(), *hash);
                &&& r == Some(old(self).entries_view()[p])
                &&& final(self).entries_view() == old(self).entries_view().remove(p)
            },
            !contains_hash(old(self).entries_view(), *hash) ==> {
                &&& r is None
                &&& final(self).entries_view() == old(self).entries_view()
            },
    {
        proof {
            self.lemma_wf(*hash);
        }
        let ghost old_es = self.entries_view();
        let ghost old_idx = self.account_nonce_index@;
        let ghost old_table = self.table();
        let removed = table_shift_remove(&mut self.entries, &hash.key());
        match removed {
            Some(e) => {
                let ghost p = key_position(old_table, hash.spec_key());
                proof {
                    assert(self.table() == old_table.remove(p));
                    assert(self.entries_view() =~= old_es.remove(p));
                    assert(e == old_es[p]);
                }
                match e.account_nonce() {
                    Some(slot) => {
                        let idx = index_without_slot(&self.account_nonce_index, &slot);
                        self.account_nonce_index = idx;
                    },
                    None => {},
                }
                proof {
                    let es = self.entries_view();
                    let t = self.table();
                    let idx = self.account_nonce_index@;
                    assert forall|i: int, j: int| 0 <= i < t.len() && 0 <= j < t.len() && t[i].0 == t[j].0 implies i == j by {
                        let oi = if i < p { i } else { i + 1 };
                        let oj = if j < p { j } else { j + 1 };
                        assert(t[i] == old_table[oi]);
                        assert(t[j] == old_table[oj]);
                    }
                    assert forall|i: int| 0 <= i < t.len() implies (#[trigger] t[i]).0 == t[i].1.transaction_hash.spec_key() by {
                        let oi = if i < p { i } else { i + 1 };
                        assert(t[i] == old_table[oi]);
                        assert(old_table[oi].0 == old_table[oi].1.transaction_hash.spec_key());
                    }
                    assert forall|i: int, j: int|
                        0 <= i < es.len() && 0 <= j < es.len() && (#[trigger] es[i].spec_account_nonce()) is Some
                            && es[i].spec_account_nonce() == (#[trigger] es[j].spec_account_nonce()) implies i == j by {
                        let oi = if i < p { i } else { i + 1 };
                        let oj = if j < p { j } else { j + 1 };
                        assert(es[i] == old_es[oi]);
                        assert(es[j] == old_es[oj]);
                    }
                    assert forall|x: ((Felt, Felt), Felt)| #[trigger] idx.contains(x) implies exists|j: int|
                        0 <= j < es.len() && (#[trigger] es[j].spec_account_nonce()) == Some(x.0) && es[j].transaction_hash == x.1 by {
                        assert(old_idx.contains(x));
                        let j = choose|j: int| 0 <= j < old_es.len() && (#[trigger] old_es[j].spec_account_nonce()) == Some(x.0) && old_es[j].transaction_hash == x.1;
                        assert(j != p);
                        let nj = if j < p { j } else { j - 1 };
                        assert(es[nj] == old_es[j]);
                    }
                    assert forall|j: int| 0 <= j < es.len() && (#[trigger] es[j].spec_account_nonce()) is Some implies
                        idx.contains((es[j].spec_account_nonce()->0, es[j].transaction_hash)) by {
                        let oj = if j < p { j } else { j + 1 };
                        assert(es[j] == old_es[oj]);
                        assert(old_es[oj].spec_account_nonce() is Some);
                        assert(old_idx.contains((old_es[oj].spec_account_nonce()->0, old_es[oj].transaction_hash)));
                        if e.spec_account_nonce() is Some {
                            assert(old_es[oj].spec_account_nonce() != old_es[p].spec_account_nonce());
                        }
                    }
                }
                Some(e)
            },
            None => {
                proof {
                    assert(self.entries_view() =~= old_es);
                }
                None
            },
        }
    }

    /// Removes a RECEIVED entry; entries in other phases stay.
    pub fn remove_received(&mut self, hash: &Felt) -> (r: Result<MempoolEntry, MempoolError>)
        requires
            old(self).wf(),
        ensures
            final(self).wf(),
            same_frame(*final(self), *old(self)),
            !contains_hash(old(self).entries_view(), *hash) ==> {
                &&& r == Err::<MempoolEntry, MempoolError>(MempoolError::NoTransaction)
                &&& final(self).entries_view() == old(self).entries_view()
            },
            contains_hash(old(self).entries_view(), *hash) ==> {
                let p = hash_position(old(self).entries_view(), *hash);
                let e = old(self).entries_view()[p];
                &&& e.phase != MempoolPhase::Received ==> r == Err::<MempoolEntry, MempoolError>(
                    MempoolError::NotRemovable { transaction_hash: *hash, phase: e.phase },
                ) && final(self).entries_view() == old(self).entries_view()
                &&& e.phase == MempoolPhase::Received ==> r == Ok::<MempoolEntry, MempoolError>(e)
                    && final(self).entries_view() == old(self).entries_view().remove(p)
            },
    {
        proof {
            self.lemma_wf(*hash);
        }
        let phase = match self.get(hash) {
            Some(e) => e.phase,
            None => {
                return Err(MempoolError::NoTransaction);
            },
        };
        if phase != MempoolPhase::Received {
            return Err(MempoolError::NotRemovable { transaction_hash: *hash, phase });
        }
        match self.remove_entry(hash) {
            Some(e) => Ok(e),
            None => Err(MempoolError::NoTransaction),
        }
    }

    /// Drops every entry, the open proposal and its selection counter.
    pub fn clear_all(&mut self)
        requires
            old(self).wf(),
        ensures
            final(self).wf(),
            final(self).entries_view() == Seq::<MempoolEntry>::empty(),
            final(self).proposal_view() == Seq::<Felt>::empty(),
            final(self).selection_counter_view() == 0,
            final(self).next_arrival_view() == old(self).next_arrival_view(),
            final(self).config_view() == old(self).config_view(),
            final(self).registry_view() == old(self).registry_view(),
    {
        table_clear(&mut self.entries);
        self.account_nonce_index.clear();
        self.proposal.clear();
        proof {
            assert(self.entries_view() =~= Seq::<MempoolEntry>::empty());
        }
    }
}


/// What the pool hands back of a pooled entry for execution.
pub open spec fn prepared_of(e: MempoolEntry) -> PreparedTransaction {
    PreparedTransaction {
        transaction_hash: e.transaction_hash,
        account_address: e.account_address,
        nonce: e.nonce,
        tip: e.tip,
        max_l2_gas_price: e.max_l2_gas_price,
        lane: e.lane,
    }
}

impl Mempool {
    /// Moves the entry at position `p` to `phase`.
    fn set_phase_at(&mut self, p: usize, phase: MempoolPhase)
        requires
            old(self).wf(),
            p < old(self).entries_view().len(),
            phase == MempoolPhase::PreConfirmed ==> old(self).proposal_view().contains(old(self).entries_view()[p as int].transaction_hash),
        ensures
            final(self).wf(),
            same_frame(*final(self), *old(self)),
            final(self).entries_view() == with_phase(old(self).entries_view(), p as int, phase),
    {
        let ghost old_es = self.entries_view();
        let ghost old_table = self.table();
        match table_get_index(&self.entries, p) {
            Some(pair) => {
                let key = pair.0;
                let updated = MempoolEntry { phase, ..pair.1 };
                proof {
                    assert(old_table[p as int].0 == key);
                    assert(has_key(old_table, key));
                    let q = key_position(old_table, key);
                    assert(old_table[q].0 == key);
                    assert(q == p);
                }
                table_insert(&mut self.entries, key, updated);
                proof {
                    let t = self.table();
                    let es = self.entries_view();
                    assert(t == old_table.update(p as int, (key, updated)));
                    assert(es =~= with_phase(old_es, p as int, phase));
                    assert forall|i: int, j: int| 0 <= i < t.len() && 0 <= j < t.len() && t[i].0 == t[j].0 implies i == j by {
                        assert(t[i].0 == old_table[i].0);
                        assert(t[j].0 == old_table[j].0);
                    }
                    assert forall|i: int| 0 <= i < t.len() implies (#[trigger] t[i]).0 == t[i].1.transaction_hash.spec_key() by {
                        assert(old_table[i].0 == old_table[i].1.transaction_hash.spec_key());
                    }
                    lemma_phases_keep_slots(self.account_nonce_index@, old_es, es);
                }
            },
            None => {},
        }
    }

    /// Marks a RECEIVED entry as a candidate for execution and hands out what executing it
    /// needs.
    pub fn mark_candidate(&mut self, hash: &Felt) -> (r: Result<PreparedTransaction, MempoolError>)
        requires
            old(self).wf(),
        ensures
            final(self).wf(),
            same_frame(*final(self), *old(self)),
            !contains_hash(old(self).entries_view(), *hash) ==> {
                &&& r == Err::<PreparedTransaction, MempoolError>(MempoolError::NoTransaction)
                &&& final(self).entries_view() == old(self).entries_view()
            },
            contains_hash(old(self).entries_view(), *hash) ==> {
                let p = hash_position(old(self).entries_view(), *hash);
                let e = old(self).entries_view()[p];
                &&& e.phase != MempoolPhase::Received ==> r == Err::<PreparedTransaction, MempoolError>(
                    MempoolError::NotReceived { transaction_hash: *hash },
                ) && final(self).entries_view() == old(self).entries_view()
                &&& e.phase == MempoolPhase::Received ==> r == Ok::<PreparedTransaction, MempoolError>(prepared_of(e))
                    && final(self).entries_view() == with_phase(old(self).entries_view(), p, MempoolPhase::Candidate)
            },
    {
        proof {
            self.lemma_wf(*hash);
        }
        let p = match self.position_of(hash) {
            Some(p) => p,
            None => {
                return Err(MempoolError::NoTransaction);
            },
        };
        let e = self.entry_at(p);
        if e.phase != MempoolPhase::Received {
            return Err(MempoolError::NotReceived { transaction_hash: *hash });
        }
        self.set_phase_at(p, MempoolPhase::Candidate);
        Ok(PreparedTransaction {
            transaction_hash: e.transaction_hash,
            account_address: e.account_address,
            nonce: e.nonce,
            tip: e.tip,
            max_l2_gas_price: e.max_l2_gas_price,
            lane: e.lane,
        })
    }

    /// Marks a candidate entry as pre-confirmed and appends it to the open proposal.
    pub fn mark_pre_confirmed(&mut self, hash: &Felt) -> (r: Result<(), MempoolError>)
        requires
            old(self).wf(),
        ensures
            final(self).wf(),
            final(self).selection_counter_view() == old(self).selection_counter_view(),
            final(self).next_arrival_view() == old(self).next_arrival_view(),
            final(self).config_view() == old(self).config_view(),
            final(self).registry_view() == old(self).registry_view(),
            !contains_hash(old(self).entries_view(), *hash) ==> {
                &&& r == Err::<(), MempoolError>(MempoolError::NoTransaction)
                &&& final(self).entries_view() == old(self).entries_view()
                &&& final(self).proposal_view() == old(self).proposal_view()
            },
            contains_hash(old(self).entries_view(), *hash) ==> {
                let p = hash_position(old(self).entries_view(), *hash);
                let e = old(self).entries_view()[p];
                &&& e.phase != MempoolPhase::Candidate ==> r == Err::<(), MempoolError>(
                    MempoolError::NotSelected { transaction_hash: *hash },
                ) && final(self).entries_view() == old(self).entries_view()
                    && final(self).proposal_view() == old(self).proposal_view()
                &&& e.phase == MempoolPhase::Candidate ==> r == Ok::<(), MempoolError>(())
                    && final(self).entries_view() == with_phase(old(self).entries_view(), p, MempoolPhase::PreConfirmed)
                    && final(self).proposal_view() == old(self).proposal_view().push(*hash)
            },
    {
        proof {
            self.lemma_wf(*hash);
        }
        let p = match self.position_of(hash) {
            Some(p) => p,
            None => {
                return Err(MempoolError::NoTransaction);
            },
        };
        let e = self.entry_at(p);
        if e.phase != MempoolPhase::Candidate {
            return Err(MempoolError::NotSelected { transaction_hash: *hash });
        }
        let ghost before = *self;
        self.proposal.append(*hash);
        proof {
            let es = self.entries_view();
            assert(self.proposal_view() == before.proposal_view().push(*hash));
            assert forall|i: int| 0 <= i < es.len() && (#[trigger] es[i]).phase == MempoolPhase::PreConfirmed
                implies self.proposal_view().contains(es[i].transaction_hash) by {
                let k = choose|k: int| 0 <= k < before.proposal_view().len() && before.proposal_view()[k] == es[i].transaction_hash;
                assert(self.proposal_view()[k] == es[i].transaction_hash);
            }
            assert(self.proposal_view()[self.proposal_view().len() - 1] == *hash);
            assert(e.transaction_hash == *hash);
        }
        self.set_phase_at(p, MempoolPhase::PreConfirmed);
        Ok(())
    }

    /// Puts the entry with `hash`, if pooled, back to RECEIVED.
    pub fn return_to_received(&mut self, hash: &Felt)
        requires
            old(self).wf(),
        ensures
            final(self).wf(),
            same_frame(*final(self), *old(self)),
            contains_hash(old(self).entries_view(), *hash) ==> final(self).entries_view() == with_phase(
                old(self).entries_view(),
                hash_position(old(self).entries_view(), *hash),
                MempoolPhase::Received,
            ),
            !contains_hash(old(self).entries_view(), *hash) ==> final(self).entries_view() == old(self).entries_view(),
    {
        proof {
            self.lemma_wf(*hash);
        }
        match self.position_of(hash) {
            Some(p) => {
                self.set_phase_at(p, MempoolPhase::Received);
            },
            None => {},
        }
    }

    /// The position of the entry with `hash`, if pooled.
    fn position_of(&self, hash: &Felt) -> (r: Option<usize>)
        requires
            self.wf(),
        ensures
            r is Some <==> contains_hash(self.entries_view(), *hash),
            r matches Some(p) ==> p == hash_position(self.entries_view(), *hash) && p < self.entries_view().len(),
    {
        proof {
            self.lemma_wf(*hash);
        }
        let n = table_len(&self.entries);
        let mut i: usize = 0;
        while i < n
            invariant
                self.wf(),
                n == self.entries_view().len(),
                i <= n,
                forall|j: int| 0 <= j < i ==> (#[trigger] self.entries_view()[j]).transaction_hash != *hash,
            decreases n - i,
        {
            match table_get_index(&self.entries, i) {
                Some(pair) => {
                    proof {
                        assert(pair.1 == self.entries_view()[i as int]);
                    }
                    if pair.1.transaction_hash == *hash {
                        proof {
                            self.lemma_wf(*hash);
                            let q = hash_position(self.entries_view(), *hash);
                            assert(self.entries_view()[i as int].transaction_hash == *hash);
                        }
                        return Some(i);
                    }
                },
                None => {},
            }
            i = i + 1;
        }
        None
    }

    /// The entry at position `p`.
    fn entry_at(&self, p: usize) -> (r: MempoolEntry)
        requires
            p < self.entries_view().len(),
        ensures
            r == self.entries_view()[p as int],
    {
        let pair = table_get_index(&self.entries, p);
        pair.unwrap().1
    }

    /// Counts one more selection attempt for the open proposal (saturating), including a
    /// forced hash, so that a replay selects the same sequence.
    pub fn record_selection(&mut self)
        requires
            old(self).wf(),
        ensures
            final(self).wf(),
            final(self).entries_view() == old(self).entries_view(),
            final(self).proposal_view() == old(self).proposal_view(),
            final(self).selection_counter_view() == saturating_next(old(self).selection_counter_view()),
            final(self).next_arrival_view() == old(self).next_arrival_view(),
            final(self).config_view() == old(self).config_view(),
            final(self).registry_view() == old(self).registry_view(),
    {
        self.proposal.record_selection();
    }
}


/// Some field element, for lemmas whose statement does not depend on it.
pub(crate) open spec fn h_any() -> Felt {
    Felt { hi: 0, lo: 0 }
}

/// Filtering with a predicate that every element satisfies changes nothing.
pub(crate) proof fn lemma_filter_keeps_all(s: Seq<MempoolEntry>, pred: spec_fn(MempoolEntry) -> bool)
    requires
        forall|i: int| 0 <= i < s.len() ==> pred(#[trigger] s[i]),
    ensures
        s.filter(pred) == s,
    decreases s.len(),
{
    reveal(Seq::filter);
    if s.len() > 0 {
        let d = s.drop_last();
        assert forall|i: int| 0 <= i < d.len() implies pred(#[trigger] d[i]) by {
            assert(d[i] == s[i]);
        }
        lemma_filter_keeps_all(d, pred);
        assert(s.filter(pred) == d.filter(pred).push(s.last()));
        assert(d.push(s.last()) =~= s);
    }
}

/// Filtering twice is filtering once with both predicates.
proof fn lemma_filter_twice(s: Seq<MempoolEntry>, p: spec_fn(MempoolEntry) -> bool, q: spec_fn(MempoolEntry) -> bool)
    ensures
        s.filter(p).filter(q) == s.filter(|e: MempoolEntry| p(e) && q(e)),
    decreases s.len(),
{
    reveal(Seq::filter);
    if s.len() > 0 {
        let d = s.drop_last();
        lemma_filter_twice(d, p, q);
        let x = s.last();
        if p(x) {
            d.filter(p).lemma_filter_push(x, q);
        }
    }
}

/// Removing the entry with hash `h` is filtering out hash `h`, when hashes are unique.
proof fn lemma_remove_is_filter(es: Seq<MempoolEntry>, h: Felt)
    requires
        hashes_unique(es),
    ensures
        contains_hash(es, h) ==> es.remove(hash_position(es, h)) == es.filter(|e: MempoolEntry| e.transaction_hash != h),
        !contains_hash(es, h) ==> es == es.filter(|e: MempoolEntry| e.transaction_hash != h),
{
    let pred = |e: MempoolEntry| e.transaction_hash != h;
    if contains_hash(es, h) {
        let p = hash_position(es, h);
        let a = es.take(p);
        let b = es.skip(p + 1);
        assert(es =~= a + seq![es[p]] + b);
        assert forall|i: int| 0 <= i < a.len() implies pred(#[trigger] a[i]) by {
            assert(a[i] == es[i]);
        }
        assert forall|i: int| 0 <= i < b.len() implies pred(#[trigger] b[i]) by {
            assert(b[i] == es[p + 1 + i]);
        }
        lemma_filter_keeps_all(a, pred);
        lemma_filter_keeps_all(b, pred);
        Seq::filter_distributes_over_add(a + seq![es[p]], b, pred);
        Seq::filter_distributes_over_add(a, seq![es[p]], pred);
        reveal_with_fuel(Seq::filter, 2);
        assert(seq![es[p]].filter(pred) =~= Seq::<MempoolEntry>::empty());
        assert(es.remove(p) =~= a + b);
    } else {
        assert forall|i: int| 0 <= i < es.len() implies pred(#[trigger] es[i]) by {}
        lemma_filter_keeps_all(es, pred);
    }
}

/// Whether `e` is listed in `hashes`.
pub open spec fn listed(hashes: Seq<Felt>, e: MempoolEntry) -> bool {
    hashes.contains(e.transaction_hash)
}

/// `e` after an abort of a proposal with `hashes`: proposal members and candidates go back
/// to RECEIVED.
pub open spec fn aborted(hashes: Seq<Felt>, e: MempoolEntry) -> MempoolEntry {
    if listed(hashes, e) || e.phase == MempoolPhase::Candidate {
        phase_set(e, MempoolPhase::Received)
    } else {
        e
    }
}

impl Mempool {
    /// Seals the open proposal: its transactions leave the pool and the proposal resets.
    pub fn commit_proposal(&mut self)
        requires
            old(self).wf(),
        ensures
            final(self).wf(),
            final(self).entries_view() == old(self).entries_view().filter(
                |e: MempoolEntry| !old(self).proposal_view().contains(e.transaction_hash),
            ),
            final(self).proposal_view() == Seq::<Felt>::empty(),
            final(self).selection_counter_view() == 0,
            final(self).next_arrival_view() == old(self).next_arrival_view(),
            final(self).config_view() == old(self).config_view(),
            final(self).registry_view() == old(self).registry_view(),
    {
        let ghost es0 = self.entries_view();
        let hashes = vstd::slice::slice_to_vec(self.proposal.transaction_hashes());
        let ghost hs = hashes@;
        proof {
            let pred = |e: MempoolEntry| !hs.take(0).contains(e.transaction_hash);
            assert forall|i: int| 0 <= i < es0.len() implies pred(#[trigger] es0[i]) by {}
            lemma_filter_keeps_all(es0, pred);
        }
        let mut k: usize = 0;
        while k < hashes.len()
            invariant
                self.wf(),
                k <= hs.len(),
                hashes@ == hs,
                hs == old(self).proposal_view(),
                self.entries_view() == es0.filter(|e: MempoolEntry| !hs.take(k as int).contains(e.transaction_hash)),
                self.proposal_view() == old(self).proposal_view(),
                self.selection_counter_view() == old(self).selection_counter_view(),
                self.next_arrival_view() == old(self).next_arrival_view(),
                self.config_view() == old(self).config_view(),
                self.registry_view() == old(self).registry_view(),
            decreases hs.len() - k,
        {
            let h = hashes[k];
            let ghost cur = self.entries_view();
            proof {
                self.lemma_wf(h);
                lemma_remove_one_more(cur, es0, hs, k as int);
            }
            self.remove_entry(&h);
            k = k + 1;
        }
        proof {
            assert(hs.take(k as int) =~= hs);
            let es = self.entries_view();
            let pred = |e: MempoolEntry| !hs.contains(e.transaction_hash);
            old(self).lemma_wf(h_any());
            assert forall|i: int| 0 <= i < es.len() implies (#[trigger] es[i]).phase != MempoolPhase::PreConfirmed by {
                es0.lemma_filter_pred(pred, i);
                assert(es0.filter(pred).contains(es[i]));
                es0.lemma_filter_contains_rev(pred, es[i]);
                let j = choose|j: int| 0 <= j < es0.len() && es0[j] == es[i];
                assert(es0[j] == es[i]);
            }
        }
        self.proposal.clear();
    }

    /// Abandons the open proposal: its transactions and any candidates return to RECEIVED,
    /// and the proposal's hashes are handed back.
    pub fn abort_proposal(&mut self) -> (r: Vec<Felt>)
        requires
            old(self).wf(),
        ensures
            final(self).wf(),
            r@ == old(self).proposal_view(),
            final(self).entries_view() == old(self).entries_view().map_values(|e: MempoolEntry| aborted(r@, e)),
            final(self).proposal_view() == Seq::<Felt>::empty(),
            final(self).selection_counter_view() == 0,
            final(self).next_arrival_view() == old(self).next_arrival_view(),
            final(self).config_view() == old(self).config_view(),
            final(self).registry_view() == old(self).registry_view(),
    {
        let ghost es0 = self.entries_view();
        let hashes = vstd::slice::slice_to_vec(self.proposal.transaction_hashes());
        let ghost hs = hashes@;
        let mut k: usize = 0;
        while k < hashes.len()
            invariant
                self.wf(),
                k <= hs.len(),
                hashes@ == hs,
                same_but_phases(self.entries_view(), es0),
                forall|i: int| 0 <= i < es0.len() ==> (#[trigger] self.entries_view()[i]).phase == (
                    if hs.take(k as int).contains(es0[i].transaction_hash) { MempoolPhase::Received } else { es0[i].phase }),
                forall|i: int| 0 <= i < es0.len() ==> (#[trigger] self.entries_view()[i]) == phase_set(es0[i], self.entries_view()[i].phase),
                hs == old(self).proposal_view(),
                self.proposal_view() == old(self).proposal_view(),
                self.selection_counter_view() == old(self).selection_counter_view(),
                self.next_arrival_view() == old(self).next_arrival_view(),
                self.config_view() == old(self).config_view(),
                self.registry_view() == old(self).registry_view(),
            decreases hs.len() - k,
        {
            let h = hashes[k];
            let ghost cur = self.entries_view();
            let ghost t0 = hs.take(k as int);
            let ghost t1 = hs.take(k + 1);
            proof {
                self.lemma_wf(h);
            }
            self.return_to_received(&h);
            proof {
                let es = self.entries_view();
                assert(t1 =~= t0.push(h));
                assert forall|i: int| 0 <= i < es0.len() implies (#[trigger] es[i]).phase == (
                    if t1.contains(es0[i].transaction_hash) { MempoolPhase::Received } else { es0[i].phase }) by {
                    let x = es0[i].transaction_hash;
                    assert(cur[i].transaction_hash == x);
                    assert(cur[i].phase == (if t0.contains(x) { MempoolPhase::Received } else { es0[i].phase }));
                    if t0.contains(x) {
                        let m = choose|m: int| 0 <= m < t0.len() && t0[m] == x;
                        assert(t1[m] == x);
                    }
                    if x == h {
                        assert(t1[k as int] == x);
                    }
                    if t1.contains(x) && x != h {
                        let m = choose|m: int| 0 <= m < t1.len() && t1[m] == x;
                        assert(m != k);
                        assert(t0[m] == x);
                    }
                    if contains_hash(cur, h) {
                        let p = hash_position(cur, h);
                        if i != p {
                            assert(es[i] == cur[i]);
                            assert(x != h);
                        } else {
                            assert(x == h);
                        }
                    } else {
                        assert(es[i] == cur[i]);
                        assert(x != h);
                    }
                }
                assert(same_but_phases(es, es0)) by {
                    assert forall|i: int| 0 <= i < es.len() implies (#[trigger] es[i]).transaction_hash == es0[i].transaction_hash
                        && es[i].spec_account_nonce() == es0[i].spec_account_nonce() by {
                        assert(cur[i] == phase_set(es0[i], cur[i].phase));
                    }
                }
                assert forall|i: int| 0 <= i < es0.len() implies (#[trigger] es[i]) == phase_set(es0[i], es[i].phase) by {
                    assert(cur[i] == phase_set(es0[i], cur[i].phase));
                }
            }
            k = k + 1;
        }
        proof {
            assert(hs.take(k as int) =~= hs);
        }
        let n = table_len(&self.entries);
        let mut i: usize = 0;
        while i < n
            invariant
                self.wf(),
                n == es0.len(),
                i <= n,
                hashes@ == hs,
                same_but_phases(self.entries_view(), es0),
                forall|j: int| 0 <= j < es0.len() ==> (#[trigger] self.entries_view()[j]) == (
                    if j < i { aborted(hs, es0[j]) } else if hs.contains(es0[j].transaction_hash) {
                        phase_set(es0[j], MempoolPhase::Received)
                    } else { es0[j] }),
                hs == old(self).proposal_view(),
                self.proposal_view() == old(self).proposal_view(),
                self.selection_counter_view() == old(self).selection_counter_view(),
                self.next_arrival_view() == old(self).next_arrival_view(),
                self.config_view() == old(self).config_view(),
                self.registry_view() == old(self).registry_view(),
            decreases n - i,
        {
            let e = self.entry_at(i);
            let ghost cur = self.entries_view();
            if e.phase == MempoolPhase::Candidate {
                self.set_phase_at(i, MempoolPhase::Received);
            }
            proof {
                let es = self.entries_view();
                assert forall|j: int| 0 <= j < es0.len() implies (#[trigger] es[j]) == (
                    if j < i + 1 { aborted(hs, es0[j]) } else if hs.contains(es0[j].transaction_hash) {
                        phase_set(es0[j], MempoolPhase::Received)
                    } else { es0[j] }) by {
                    assert(cur[j] == (if j < i { aborted(hs, es0[j]) } else if hs.contains(es0[j].transaction_hash) {
                        phase_set(es0[j], MempoolPhase::Received)
                    } else { es0[j] }));
                }
                assert(same_but_phases(es, es0)) by {
                    assert forall|j: int| 0 <= j < es.len() implies (#[trigger] es[j]).transaction_hash == es0[j].transaction_hash
                        && es[j].spec_account_nonce() == es0[j].spec_account_nonce() by {
                        assert(cur[j].transaction_hash == es0[j].transaction_hash);
                        assert(cur[j].spec_account_nonce() == es0[j].spec_account_nonce());
                    }
                }
            }
            i = i + 1;
        }
        proof {
            assert(self.entries_view() =~= es0.map_values(|e: MempoolEntry| aborted(hs, e)));
            old(self).lemma_wf(h_any());
            let es = self.entries_view();
            assert forall|i: int| 0 <= i < es.len() implies (#[trigger] es[i]).phase != MempoolPhase::PreConfirmed by {
                assert(es[i] == aborted(hs, es0[i]));
            }
        }
        self.proposal.take_hashes()
    }
}


/// The entry is RECEIVED.
pub open spec fn is_received(e: MempoolEntry) -> bool {
    e.phase == MempoolPhase::Received
}

/// The entry is not RECEIVED.
pub open spec fn is_not_received(e: MempoolEntry) -> bool {
    e.phase != MempoolPhase::Received
}

impl Mempool {
    /// Removes every RECEIVED entry and hands them back in arrival order; candidates and
    /// pre-confirmed entries stay.
    pub fn clear_received(&mut self) -> (r: Vec<MempoolEntry>)
        requires
            old(self).wf(),
        ensures
            final(self).wf(),
            same_frame(*final(self), *old(self)),
            r@ == old(self).entries_view().filter(|e: MempoolEntry| is_received(e)),
            final(self).entries_view() == old(self).entries_view().filter(|e: MempoolEntry| is_not_received(e)),
    {
        let ghost es0 = self.entries_view();
        let ghost keep = |e: MempoolEntry| is_not_received(e);
        let ghost drop = |e: MempoolEntry| is_received(e);
        let mut removed: Vec<MempoolEntry> = Vec::new();
        let mut i: usize = 0;
        let ghost mut j: int = 0;
        proof {
            reveal_with_fuel(Seq::filter, 1);
            assert(es0.take(0) =~= Seq::<MempoolEntry>::empty());
            assert(es0.skip(0) =~= es0);
            assert(es0.take(0).filter(keep) + es0.skip(0) =~= es0);
        }
        while i < table_len(&self.entries)
            invariant
                self.wf(),
                same_frame(*self, *old(self)),
                es0 == old(self).entries_view(),
                0 <= j <= es0.len(),
                self.entries_view() == es0.take(j).filter(keep) + es0.skip(j),
                i == es0.take(j).filter(keep).len(),
                removed@ == es0.take(j).filter(drop),
                keep == (|e: MempoolEntry| is_not_received(e)),
                drop == (|e: MempoolEntry| is_received(e)),
            decreases self.entries_view().len() - i,
        {
            let ghost cur = self.entries_view();
            let ghost a = es0.take(j).filter(keep);
            proof {
                assert(cur[i as int] == es0[j]);
                assert(es0.take(j + 1) =~= es0.take(j).push(es0[j]));
                es0.take(j).lemma_filter_push(es0[j], keep);
                es0.take(j).lemma_filter_push(es0[j], drop);
            }
            let e = self.entry_at(i);
            if e.phase == MempoolPhase::Received {
                proof {
                    self.lemma_wf(e.transaction_hash);
                    let p = hash_position(cur, e.transaction_hash);
                    assert(cur[p].transaction_hash == cur[i as int].transaction_hash);
                    assert(p == i);
                }
                self.remove_entry(&e.transaction_hash);
                removed.push(e);
                proof {
                    assert(cur.remove(i as int) =~= a + es0.skip(j + 1));
                }
            } else {
                proof {
                    assert(cur =~= a.push(es0[j]) + es0.skip(j + 1));
                }
                i = i + 1;
            }
            proof {
                j = j + 1;
            }
        }
        proof {
            let a = es0.take(j).filter(keep);
            assert(self.entries_view().len() == a.len() + es0.skip(j).len());
            assert(j == es0.len());
            assert(es0.take(j) =~= es0);
            assert(es0.skip(j) =~= Seq::<MempoolEntry>::empty());
            assert(self.entries_view() =~= es0.filter(keep));
        }
        removed
    }
}


/// `update` names a policy that `registry` does not hold.
pub open spec fn names_unknown_policy(update: MempoolConfigUpdate, registry: OrderingPolicyRegistry) -> bool {
    match update.ordering {
        Some(o) => !registry.has_policy(o@),
        None => false,
    }
}

/// The configuration after applying `update` to `config`.
pub open spec fn updated_config(config: MempoolConfig, update: MempoolConfigUpdate, result: MempoolConfig) -> bool {
    &&& result.ordering@ == (match update.ordering {
        Some(o) => o@,
        None => config.ordering@,
    })
    &&& result.random_seed == (match update.random_seed {
        Some(seed) => seed,
        None => config.random_seed,
    })
    &&& result.max_transactions_per_block == (match update.max_transactions_per_block {
        Some(capacity) => capacity,
        None => config.max_transactions_per_block,
    })
}

impl Mempool {
    /// Applies a partial configuration change. A zero block capacity or an unregistered
    /// policy name is refused, and a refusal changes nothing.
    pub fn set_config(&mut self, update: MempoolConfigUpdate) -> (r: Result<MempoolConfig, MempoolError>)
        requires
            old(self).wf(),
        ensures
            final(self).wf(),
            final(self).entries_view() == old(self).entries_view(),
            final(self).proposal_view() == old(self).proposal_view(),
            final(self).selection_counter_view() == old(self).selection_counter_view(),
            final(self).next_arrival_view() == old(self).next_arrival_view(),
            final(self).registry_view() == old(self).registry_view(),
            update.max_transactions_per_block == Some(0usize) ==> {
                &&& r == Err::<MempoolConfig, MempoolError>(MempoolError::ZeroBlockCapacity)
                &&& final(self).config_view() == old(self).config_view()
            },
            update.max_transactions_per_block != Some(0usize) && names_unknown_policy(update, old(self).registry_view()) ==> {
                &&& r matches Err(e) && is_unknown_policy(e, update.ordering->0@, old(self).registry_view())
                &&& final(self).config_view() == old(self).config_view()
            },
            update.max_transactions_per_block != Some(0usize) && !names_unknown_policy(update, old(self).registry_view()) ==> {
                &&& updated_config(old(self).config_view(), update, final(self).config_view())
                &&& r matches Ok(c) && c.same_as(final(self).config_view())
            },
    {
        if update.max_transactions_per_block == Some(0usize) {
            return Err(MempoolError::ZeroBlockCapacity);
        }
        match update.ordering {
            Some(ordering) => {
                if !self.ordering_policies.contains(&ordering) {
                    return Err(unknown_policy_error(&ordering, &self.ordering_policies));
                }
                self.config.ordering = ordering;
            },
            None => {},
        }
        match update.random_seed {
            Some(seed) => {
                self.config.random_seed = seed;
            },
            None => {},
        }
        match update.max_transactions_per_block {
            Some(capacity) => {
                self.config.max_transactions_per_block = capacity;
            },
            None => {},
        }
        Ok(self.config.duplicate())
    }

    /// The kind of policy registered under the configured name.
    pub open spec fn configured_kind(&self) -> PolicyKind {
        self.registry_view().policy_kind(self.config_view().ordering@)->0
    }

    /// The pick of the configured policy when it is a built-in one.
    pub open spec fn configured_choice(&self, table: Seq<(EntryKey, MempoolEntry)>, hashes: Seq<Felt>, context: SelectionContext) -> Option<Felt> {
        builtin_choice(self.configured_kind(), table, hashes, context)
    }

    /// Asks the configured ordering policy to pick from `eligible`.
    pub fn select_configured_policy(&self, eligible: &EligibleTransactions, context: &SelectionContext) -> (r: Result<Option<Felt>, MempoolError>)
        requires
            self.wf(),
        ensures
            r is Ok,
            self.configured_kind() != PolicyKind::Custom ==> r == Ok::<Option<Felt>, MempoolError>(
                self.configured_choice(eligible.table_view(), eligible.hash_seq(), *context),
            ),
            r matches Ok(pick) && policy_choice(
                self.configured_kind(),
                eligible.table_view(),
                eligible.hash_seq(),
                *context,
                pick,
            ),
    {
        proof {
            self.lemma_wf(Felt { hi: 0, lo: 0 });
        }
        match self.ordering_policies.resolve_registered(&self.config.ordering) {
            Some(policy) => Ok(policy.select(eligible, context)),
            None => Err(unknown_policy_error(&self.config.ordering, &self.ordering_policies)),
        }
    }

    /// Runs the configured policy over `eligible` with this pool's selection counter and seed.
    pub fn select_policy(&self, eligible: &[Felt], block_number: u64, current_l2_gas_price: u128) -> (r: Option<Felt>)
        requires
            self.wf(),
        ensures
            self.configured_kind() != PolicyKind::Custom ==> r == self.configured_choice(
                self.table(),
                eligible@,
                SelectionContext {
                    block_number,
                    current_l2_gas_price,
                    proposal_selection_counter: self.selection_counter_view(),
                    random_seed: self.config_view().random_seed,
                },
            ),
            policy_choice(
                self.configured_kind(),
                self.table(),
                eligible@,
                SelectionContext {
                    block_number,
                    current_l2_gas_price,
                    proposal_selection_counter: self.selection_counter_view(),
                    random_seed: self.config_view().random_seed,
                },
                r,
            ),
    {
        let view = self.eligible_transactions(eligible);
        let context = SelectionContext {
            block_number,
            current_l2_gas_price,
            proposal_selection_counter: self.proposal.selection_counter(),
            random_seed: self.config.random_seed,
        };
        match self.select_configured_policy(&view, &context) {
            Ok(pick) => pick,
            Err(_) => None,
        }
    }
}

impl Default for Mempool {
    /// An empty pool with the default configuration and the built-in policies.
    fn default() -> (r: Self)
        ensures
            r.wf(),
            r.entries_view() == Seq::<MempoolEntry>::empty(),
            r.proposal_view() == Seq::<Felt>::empty(),
            r.selection_counter_view() == 0,
            r.next_arrival_view() == 0,
            r.config_view().ordering@ == crate::config::fifo_name(),
            r.config_view().random_seed == 0,
            r.config_view().max_transactions_per_block == crate::config::DEFAULT_MAX_TRANSACTIONS_PER_BLOCK,
            r.registry_view().policy_kind(fifo_name()) == Some(PolicyKind::Fifo),
            r.registry_view().policy_kind(starknet_name()) == Some(PolicyKind::Starknet),
            r.registry_view().policy_kind(random_name()) == Some(PolicyKind::Random),
            forall|n: Seq<char>| r.registry_view().has_policy(n) <==> is_builtin_name(n),
    {
        Mempool::empty(MempoolConfig::default(), OrderingPolicyRegistry::default())
    }
}


/// One more removal step of a batch removal by hash: removing `hs[k]` from the entries that
/// remain after the first `k` removals leaves the entries not listed in the first `k + 1`.
pub(crate) proof fn lemma_remove_one_more(cur: Seq<MempoolEntry>, es0: Seq<MempoolEntry>, hs: Seq<Felt>, k: int)
    requires
        0 <= k < hs.len(),
        hashes_unique(cur),
        cur == es0.filter(|e: MempoolEntry| !hs.take(k).contains(e.transaction_hash)),
    ensures
        removed_by_hash(cur, hs[k]) == es0.filter(|e: MempoolEntry| !hs.take(k + 1).contains(e.transaction_hash)),
{
    let h = hs[k];
    lemma_remove_is_filter(cur, h);
    let p = |e: MempoolEntry| !hs.take(k).contains(e.transaction_hash);
    let q = |e: MempoolEntry| e.transaction_hash != h;
    lemma_filter_twice(es0, p, q);
    let pq = |e: MempoolEntry| p(e) && q(e);
    let next = |e: MempoolEntry| !hs.take(k + 1).contains(e.transaction_hash);
    let t0 = hs.take(k);
    let t1 = hs.take(k + 1);
    assert(t1 =~= t0.push(h));
    assert forall|e: MempoolEntry| #[trigger] pq(e) == next(e) by {
        if t0.contains(e.transaction_hash) {
            let m = choose|m: int| 0 <= m < t0.len() && t0[m] == e.transaction_hash;
            assert(t1[m] == e.transaction_hash);
        }
        if t1.contains(e.transaction_hash) {
            let m = choose|m: int| 0 <= m < t1.len() && t1[m] == e.transaction_hash;
            if m < k {
                assert(t0[m] == e.transaction_hash);
            }
        }
        if e.transaction_hash == h {
            assert(t1[k] == h);
        }
    }
    assert(pq =~= next);
}

// ---------------------------------------------------------------------------------------------
// Laws of the pool.

/// Transactions are listed in arrival order: along the pool's entries, arrival positions
/// increase (they only repeat once the arrival counter has saturated), and every position is
/// below the one the next accepted transaction will get.
pub proof fn lemma_entries_in_arrival_order(pool: Mempool)
    requires
        pool.wf(),
    ensures
        forall|i: int, j: int| 0 <= i < j < pool.entries_view().len() ==>
            (#[trigger] pool.entries_view()[i]).arrival_id < (#[trigger] pool.entries_view()[j]).arrival_id
            || pool.entries_view()[i].arrival_id == u64::MAX,
        forall|i: int| 0 <= i < pool.entries_view().len() ==>
            (#[trigger] pool.entries_view()[i]).arrival_id < pool.next_arrival_view()
            || pool.next_arrival_view() == u64::MAX,
{
    pool.lemma_wf(Felt { hi: 0, lo: 0 });
}

/// No two pooled transactions share a hash, and no two pooled transactions use the same
/// account nonce.
pub proof fn lemma_hashes_and_account_nonces_unique(pool: Mempool)
    requires
        pool.wf(),
    ensures
        hashes_unique(pool.entries_view()),
        slots_unique(pool.entries_view()),
{
    pool.lemma_wf(Felt { hi: 0, lo: 0 });
}

/// What acceptance adds is found by its hash: a RECEIVED entry with the transaction's data
/// and the arrival position it was given; every other hash finds what it found before.
pub proof fn lemma_accepted_transaction_is_found(es: Seq<MempoolEntry>, prepared: PreparedTransaction, arrival_id: u64, other: Felt)
    requires
        hashes_unique(es),
        !contains_hash(es, prepared.transaction_hash),
    ensures
        lookup(es.push(accepted_entry(prepared, arrival_id)), prepared.transaction_hash) == Some(accepted_entry(prepared, arrival_id)),
        lookup(es.push(accepted_entry(prepared, arrival_id)), prepared.transaction_hash)->0.phase == MempoolPhase::Received,
        other != prepared.transaction_hash ==> lookup(es.push(accepted_entry(prepared, arrival_id)), other) == lookup(es, other),
{
    let e = accepted_entry(prepared, arrival_id);
    let t = es.push(e);
    let n = es.len() as int;
    assert(t[n].transaction_hash == prepared.transaction_hash);
    assert(contains_hash(t, prepared.transaction_hash));
    let p = hash_position(t, prepared.transaction_hash);
    if p < n {
        assert(es[p] == t[p]);
    }
    if contains_hash(es, other) {
        let q = hash_position(es, other);
        assert(t[q] == es[q]);
        assert(contains_hash(t, other));
        let q2 = hash_position(t, other);
        if q2 < n {
            assert(t[q2] == es[q2]);
        }
    }
    if contains_hash(t, other) && other != prepared.transaction_hash {
        let q2 = hash_position(t, other);
        assert(t[q2] == es[q2]);
    }
}

/// A removed transaction is no longer found, and every other hash finds what it found
/// before.
pub proof fn lemma_removed_transaction_is_gone(es: Seq<MempoolEntry>, h: Felt, other: Felt)
    requires
        hashes_unique(es),
    ensures
        lookup(removed_by_hash(es, h), h) is None,
        other != h ==> lookup(removed_by_hash(es, h), other) == lookup(es, other),
{
    if contains_hash(es, h) {
        let p = hash_position(es, h);
        let t = es.remove(p);
        if contains_hash(t, h) {
            let q = hash_position(t, h);
            let oq = if q < p { q } else { q + 1 };
            assert(t[q] == es[oq]);
        }
        if other != h {
            if contains_hash(es, other) {
                let q = hash_position(es, other);
                assert(q != p);
                let nq = if q < p { q } else { q - 1 };
                assert(t[nq] == es[q]);
                assert(contains_hash(t, other));
                let q2 = hash_position(t, other);
                let oq2 = if q2 < p { q2 } else { q2 + 1 };
                assert(t[q2] == es[oq2]);
            }
            if contains_hash(t, other) {
                let q2 = hash_position(t, other);
                let oq2 = if q2 < p { q2 } else { q2 + 1 };
                assert(t[q2] == es[oq2]);
            }
        }
    }
}

/// Sealing keeps every transaction that is not in the open proposal: RECEIVED transactions
/// stay in the pool, and only the proposal's transactions leave.
pub proof fn lemma_seal_keeps_unlisted(es: Seq<MempoolEntry>, proposal: Seq<Felt>, e: MempoolEntry)
    ensures
        es.filter(|x: MempoolEntry| !proposal.contains(x.transaction_hash)).contains(e)
            <==> es.contains(e) && !proposal.contains(e.transaction_hash),
{
    let pred = |x: MempoolEntry| !proposal.contains(x.transaction_hash);
    if es.contains(e) && pred(e) {
        let i = choose|i: int| 0 <= i < es.len() && es[i] == e;
        es.lemma_filter_contains(pred, i);
    }
    if es.filter(pred).contains(e) {
        es.lemma_filter_contains_rev(pred, e);
        let k = choose|k: int| 0 <= k < es.filter(pred).len() && es.filter(pred)[k] == e;
        es.lemma_filter_pred(pred, k);
    }
}

/// Clearing the pool of RECEIVED transactions removes exactly those: every candidate or
/// pre-confirmed transaction stays, and no RECEIVED one does.
pub proof fn lemma_clear_keeps_non_received(es: Seq<MempoolEntry>, e: MempoolEntry)
    ensures
        es.filter(|x: MempoolEntry| is_not_received(x)).contains(e) <==> es.contains(e) && e.phase != MempoolPhase::Received,
{
    let pred = |x: MempoolEntry| is_not_received(x);
    if es.contains(e) && pred(e) {
        let i = choose|i: int| 0 <= i < es.len() && es[i] == e;
        es.lemma_filter_contains(pred, i);
    }
    if es.filter(pred).contains(e) {
        es.lemma_filter_contains_rev(pred, e);
        let k = choose|k: int| 0 <= k < es.filter(pred).len() && es.filter(pred)[k] == e;
        es.lemma_filter_pred(pred, k);
    }
}

/// Every pre-confirmed transaction is listed in the open proposal.
pub proof fn lemma_pre_confirmed_are_proposed(pool: Mempool, i: int)
    requires
        pool.wf(),
        0 <= i < pool.entries_view().len(),
        pool.entries_view()[i].phase == MempoolPhase::PreConfirmed,
    ensures
        pool.proposal_view().contains(pool.entries_view()[i].transaction_hash),
{
    pool.lemma_wf(h_any());
}

/// Aborting the open proposal leaves every pooled transaction RECEIVED: its pre-confirmed
/// transactions and any candidates go back, and nothing else was in another phase.
pub proof fn lemma_abort_leaves_all_received(pool: Mempool, i: int)
    requires
        pool.wf(),
        0 <= i < pool.entries_view().len(),
    ensures
        aborted(pool.proposal_view(), pool.entries_view()[i]).phase == MempoolPhase::Received,
{
    pool.lemma_wf(h_any());
}

/// Sealing removes every pre-confirmed transaction: what stays in the pool is RECEIVED or a
/// candidate.
pub proof fn lemma_seal_leaves_no_pre_confirmed(pool: Mempool, i: int)
    requires
        pool.wf(),
        0 <= i < pool.entries_view().filter(|e: MempoolEntry| !pool.proposal_view().contains(e.transaction_hash)).len(),
    ensures
        pool.entries_view().filter(|e: MempoolEntry| !pool.proposal_view().contains(e.transaction_hash))[i].phase
            != MempoolPhase::PreConfirmed,
{
    pool.lemma_wf(h_any());
    let es = pool.entries_view();
    let pred = |e: MempoolEntry| !pool.proposal_view().contains(e.transaction_hash);
    let x = es.filter(pred)[i];
    es.lemma_filter_pred(pred, i);
    assert(es.filter(pred).contains(x));
    es.lemma_filter_contains_rev(pred, x);
    let j = choose|j: int| 0 <= j < es.len() && es[j] == x;
    assert(es[j] == x);
}

/// An abort keeps every transaction in place, with its hash, account nonce and arrival
/// position: only phases change, and every proposal member or candidate is RECEIVED again.
pub proof fn lemma_abort_preserves_arrival_order(es: Seq<MempoolEntry>, proposal: Seq<Felt>, i: int)
    requires
        0 <= i < es.len(),
    ensures
        es.map_values(|e: MempoolEntry| aborted(proposal, e)).len() == es.len(),
        es.map_values(|e: MempoolEntry| aborted(proposal, e))[i] == phase_set(es[i], es.map_values(|e: MempoolEntry| aborted(proposal, e))[i].phase),
        (proposal.contains(es[i].transaction_hash) || es[i].phase == MempoolPhase::Candidate)
            ==> es.map_values(|e: MempoolEntry| aborted(proposal, e))[i].phase == MempoolPhase::Received,
        !(proposal.contains(es[i].transaction_hash) || es[i].phase == MempoolPhase::Candidate)
            ==> es.map_values(|e: MempoolEntry| aborted(proposal, e))[i] == es[i],
{
}

/// `es` without the entry with hash `h`, if there is one.
pub open spec fn removed_by_hash(es: Seq<MempoolEntry>, h: Felt) -> Seq<MempoolEntry> {
    if contains_hash(es, h) {
        es.remove(hash_position(es, h))
    } else {
        es
    }
}

} // verus!
