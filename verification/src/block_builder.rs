//! Block building decisions: which transaction to process next, selection rounds for user
//! ordering policies, forced selections, and the bookkeeping of each processed transaction.
//!
//! Execution, eligibility checks and the eviction of stale transactions are done by the
//! node that owns the pool; it hands their results to the functions here.
use vstd::prelude::*;

use crate::entry::{MempoolEntry, MempoolLane, MempoolPhase};
use crate::error::MempoolError;
use crate::felt::Felt;
use crate::index_map::{table_lookup, EntryKey};
use crate::mempool::{contains_hash, hash_position, BuildFailure, BuildOutcome, ForcedHashSelection, Mempool};
use crate::ordering::{fifo_choice, present_entries};

verus! {

/// Number of user-policy selections made from one eligible snapshot before it is refreshed.
pub const POLICY_SELECTION_ROUND_SIZE: usize = 100;

/// The user-lane hashes a policy may pick from during one selection round.
#[derive(Debug)]
pub struct PolicySelectionRound {
    user_hashes: Vec<Felt>,
    selections: usize,
    exhausted: bool,
}

/// `hashes` without those not listed in `eligible`.
pub open spec fn retained(hashes: Seq<Felt>, eligible: Seq<Felt>) -> Seq<Felt> {
    hashes.filter(|h: Felt| eligible.contains(h))
}

impl PolicySelectionRound {
    pub closed spec fn hashes_view(&self) -> Seq<Felt> {
        self.user_hashes@
    }

    pub closed spec fn selection_count(&self) -> usize {
        self.selections
    }

    pub closed spec fn is_exhausted(&self) -> bool {
        self.exhausted
    }

    /// The spec of `should_refresh`.
    pub open spec fn needs_refresh(&self) -> bool {
        self.hashes_view().len() == 0 || self.selection_count() >= POLICY_SELECTION_ROUND_SIZE || self.is_exhausted()
    }

    /// An empty round.
    pub fn new() -> (r: Self)
        ensures
            r.hashes_view() == Seq::<Felt>::empty(),
            r.selection_count() == 0,
            !r.is_exhausted(),
    {
        PolicySelectionRound { user_hashes: Vec::new(), selections: 0, exhausted: false }
    }

    pub fn user_hashes(&self) -> (r: &[Felt])
        ensures
            r@ == self.hashes_view(),
    {
        self.user_hashes.as_slice()
    }

    pub fn selections(&self) -> (r: usize)
        ensures
            r == self.selection_count(),
    {
        self.selections
    }

    pub fn exhausted(&self) -> (r: bool)
        ensures
            r == self.is_exhausted(),
    {
        self.exhausted
    }

    /// A new snapshot is due when the round is empty, has served its selections, or the
    /// policy declared it exhausted.
    pub fn should_refresh(&self) -> (r: bool)
        ensures
            r == self.needs_refresh(),
    {
        self.user_hashes.len() == 0 || self.selections >= POLICY_SELECTION_ROUND_SIZE || self.exhausted
    }

    /// Starts a new round over `user_hashes`.
    pub fn refresh(&mut self, user_hashes: Vec<Felt>)
        ensures
            final(self).hashes_view() == user_hashes@,
            final(self).selection_count() == 0,
            !final(self).is_exhausted(),
    {
        self.user_hashes = user_hashes;
        self.selections = 0;
        self.exhausted = false;
    }

    /// Drops the hashes that are no longer eligible, keeping the order of the rest.
    pub fn retain_eligible(&mut self, eligible_hashes: &[Felt])
        ensures
            final(self).hashes_view() == retained(old(self).hashes_view(), eligible_hashes@),
            final(self).selection_count() == old(self).selection_count(),
            final(self).is_exhausted() == old(self).is_exhausted(),
    {
        let ghost keep = |h: Felt| eligible_hashes@.contains(h);
        let mut kept: Vec<Felt> = Vec::new();
        let mut i: usize = 0;
        while i < self.user_hashes.len()
            invariant
                i <= self.user_hashes@.len(),
                kept@ == self.user_hashes@.take(i as int).filter(keep),
                keep == (|h: Felt| eligible_hashes@.contains(h)),
            decreases self.user_hashes@.len() - i,
        {
            let h = self.user_hashes[i];
            proof {
                assert(self.user_hashes@.take(i + 1) =~= self.user_hashes@.take(i as int).push(h));
                self.user_hashes@.take(i as int).lemma_filter_push(h, keep);
            }
            if contains_felt(eligible_hashes, &h) {
                kept.push(h);
            }
            i = i + 1;
        }
        proof {
            assert(self.user_hashes@.take(i as int) =~= self.user_hashes@);
        }
        self.user_hashes = kept;
    }

    /// Takes `hash` out of the round and counts the selection; `false` (and no change) when
    /// `hash` is not in the round.
    pub fn record_selection(&mut self, hash: Felt) -> (r: bool)
        requires
            old(self).selection_count() < usize::MAX,
        ensures
            r == old(self).hashes_view().contains(hash),
            r ==> {
                &&& final(self).hashes_view() == old(self).hashes_view().remove(first_position(old(self).hashes_view(), hash))
                &&& final(self).selection_count() == old(self).selection_count() + 1
                &&& !final(self).is_exhausted()
            },
            !r ==> {
                &&& final(self).hashes_view() == old(self).hashes_view()
                &&& final(self).selection_count() == old(self).selection_count()
                &&& final(self).is_exhausted() == old(self).is_exhausted()
            },
    {
        match position_in(&self.user_hashes, &hash) {
            Some(p) => {
                self.user_hashes.remove(p);
                self.selections = self.selections + 1;
                self.exhausted = false;
                true
            },
            None => false,
        }
    }

    /// The policy has nothing more to pick from this round.
    pub fn mark_exhausted(&mut self)
        ensures
            final(self).hashes_view() == old(self).hashes_view(),
            final(self).selection_count() == old(self).selection_count(),
            final(self).is_exhausted(),
    {
        self.exhausted = true;
    }
}

impl Default for PolicySelectionRound {
    fn default() -> (r: Self)
        ensures
            r.hashes_view() == Seq::<Felt>::empty(),
            r.selection_count() == 0,
            !r.is_exhausted(),
    {
        PolicySelectionRound::new()
    }
}

/// The first position of `h` in `s` (meaningful when `s.contains(h)`).
pub open spec fn first_position(s: Seq<Felt>, h: Felt) -> int {
    choose|i: int| 0 <= i < s.len() && s[i] == h && forall|j: int| 0 <= j < i ==> s[j] != h
}

/// A listed hash has a first position.
proof fn lemma_first_position(s: Seq<Felt>, h: Felt)
    requires
        s.contains(h),
    ensures
        0 <= first_position(s, h) < s.len(),
        s[first_position(s, h)] == h,
        forall|j: int| 0 <= j < first_position(s, h) ==> s[j] != h,
    decreases s.len(),
{
    let d = s.drop_last();
    if d.contains(h) {
        lemma_first_position(d, h);
        let q = first_position(d, h);
        assert(s[q] == d[q]);
        assert forall|j: int| 0 <= j < q implies s[j] != h by {
            assert(s[j] == d[j]);
        }
    } else {
        let q = s.len() - 1;
        assert forall|j: int| 0 <= j < q implies s[j] != h by {
            assert(s[j] == d[j]);
            if s[j] == h {
                assert(d.contains(h));
            }
        }
        assert(s[q] == h) by {
            let i = choose|i: int| 0 <= i < s.len() && s[i] == h;
            if i < q {
                assert(d[i] == h);
            }
        }
    }
}

/// Whether `h` is listed in `s`.
pub fn contains_felt(s: &[Felt], h: &Felt) -> (r: bool)
    ensures
        r == s@.contains(*h),
{
    match position_in(s, h) {
        Some(_) => true,
        None => false,
    }
}

/// The first position of `h` in `s`, if listed.
pub fn position_in(s: &[Felt], h: &Felt) -> (r: Option<usize>)
    ensures
        r is Some <==> s@.contains(*h),
        r matches Some(p) ==> p == first_position(s@, *h) && p < s@.len(),
{
    let mut i: usize = 0;
    while i < s.len()
        invariant
            i <= s@.len(),
            forall|j: int| 0 <= j < i ==> s@[j] != *h,
        decreases s@.len() - i,
    {
        if s[i] == *h {
            proof {
                let q = first_position(s@, *h);
                assert(0 <= q < s@.len() && s@[q] == *h && forall|j: int| 0 <= j < q ==> s@[j] != *h) by {
                    assert(0 <= i < s@.len() && s@[i as int] == *h && forall|j: int| 0 <= j < i ==> s@[j] != *h);
                }
                if q < i {
                } else if q > i {
                    assert(s@[i as int] != *h);
                }
            }
            return Some(i);
        }
        i = i + 1;
    }
    None
}


/// Whether a transaction may be executed now, as the node decided.
#[derive(Clone, Debug, PartialEq, Eq)]
pub enum TransactionEligibility {
    Eligible,
    Blocked(String),
    Stale(String),
}

/// What happened to a selected transaction: the node's eligibility decision and, for an
/// eligible transaction, the result of executing it.
#[derive(Clone, Debug, PartialEq, Eq)]
pub enum ProcessingResult {
    Executed,
    ExecutionFailed(String),
    Blocked(String),
    Stale(String),
}

/// The pooled entries of `hashes` that are in the system lane.
pub open spec fn system_entries(table: Seq<(EntryKey, MempoolEntry)>, hashes: Seq<Felt>) -> Seq<MempoolEntry> {
    present_entries(table, hashes).filter(|e: MempoolEntry| e.lane == MempoolLane::System)
}

/// `hashes` restricted to pooled user-lane transactions.
pub open spec fn user_view(table: Seq<(EntryKey, MempoolEntry)>, hashes: Seq<Felt>) -> Seq<Felt> {
    hashes.filter(|h: Felt| is_user_hash(table, h))
}

/// `h` is pooled in the user lane.
pub open spec fn is_user_hash(table: Seq<(EntryKey, MempoolEntry)>, h: Felt) -> bool {
    match table_lookup(table, h.spec_key()) {
        Some(e) => e.lane == MempoolLane::User,
        None => false,
    }
}

/// The system-lane transaction among `eligible_hashes` that arrived first, if any.
pub fn oldest_eligible_system_hash(pool: &Mempool, eligible_hashes: &[Felt]) -> (r: Option<Felt>)
    ensures
        fifo_choice(system_entries(pool.table(), eligible_hashes@), r),
{
    let view = pool.eligible_transactions(eligible_hashes);
    let entries = view.entries();
    let ghost is_sys = |e: MempoolEntry| e.lane == MempoolLane::System;
    let mut best: Option<MempoolEntry> = None;
    let mut best_pos: usize = 0;
    let mut sys: Vec<MempoolEntry> = Vec::new();
    let mut i: usize = 0;
    while i < entries.len()
        invariant
            i <= entries@.len(),
            entries@ == present_entries(pool.table(), eligible_hashes@),
            is_sys == (|e: MempoolEntry| e.lane == MempoolLane::System),
            sys@ == entries@.take(i as int).filter(is_sys),
            best is None <==> sys@.len() == 0,
            best matches Some(b) ==> best_pos < sys@.len() && sys@[best_pos as int] == b
                && crate::ordering::is_first_earliest(sys@, best_pos as int),
        decreases entries@.len() - i,
    {
        let e = entries[i];
        proof {
            assert(entries@.take(i + 1) =~= entries@.take(i as int).push(e));
            entries@.take(i as int).lemma_filter_push(e, is_sys);
        }
        if e.lane == MempoolLane::System {
            let ghost prev = sys@;
            sys.push(e);
            match best {
                None => {
                    best = Some(e);
                    best_pos = sys.len() - 1;
                },
                Some(b) => {
                    if e.arrival_id < b.arrival_id {
                        best = Some(e);
                        best_pos = sys.len() - 1;
                    }
                    proof {
                        assert(forall|j: int| 0 <= j < prev.len() ==> sys@[j] == prev[j]);
                    }
                },
            }
        }
        i = i + 1;
    }
    proof {
        assert(entries@.take(i as int) =~= entries@);
    }
    match best {
        Some(b) => Some(b.transaction_hash),
        None => None,
    }
}

/// The pooled user-lane hashes among `eligible_hashes`, in order.
pub fn eligible_user_hashes(pool: &Mempool, eligible_hashes: &[Felt]) -> (r: Vec<Felt>)
    ensures
        r@ == user_view(pool.table(), eligible_hashes@),
{
    let ghost is_user = |h: Felt| is_user_hash(pool.table(), h);
    let mut out: Vec<Felt> = Vec::new();
    let mut i: usize = 0;
    while i < eligible_hashes.len()
        invariant
            i <= eligible_hashes@.len(),
            is_user == (|h: Felt| is_user_hash(pool.table(), h)),
            out@ == eligible_hashes@.take(i as int).filter(is_user),
        decreases eligible_hashes@.len() - i,
    {
        let h = eligible_hashes[i];
        proof {
            assert(eligible_hashes@.take(i + 1) =~= eligible_hashes@.take(i as int).push(h));
            eligible_hashes@.take(i as int).lemma_filter_push(h, is_user);
        }
        let found = pool.get(&h);
        proof {
            pool.lemma_get_is_lookup(h);
            assert(is_user(h) == is_user_hash(pool.table(), h));
        }
        match found {
            Some(e) => {
                if e.lane == MempoolLane::User {
                    out.push(h);
                }
            },
            None => {},
        }
        i = i + 1;
    }
    proof {
        assert(eligible_hashes@.take(i as int) =~= eligible_hashes@);
    }
    out
}

/// `new` is `old` after processing `hash` with `result`.
pub open spec fn outcome_records(old: BuildOutcome, new: BuildOutcome, hash: Felt, result: ProcessingResult) -> bool {
    &&& new.selected@ == old.selected@.push(hash)
    &&& new.block_full == old.block_full
    &&& new.swept_stale_hashes@ == old.swept_stale_hashes@
    &&& match result {
        ProcessingResult::Executed => {
            &&& new.pre_confirmed@ == old.pre_confirmed@.push(hash)
            &&& new.rejected@ == old.rejected@
            &&& new.blocked@ == old.blocked@
        },
        ProcessingResult::Blocked(reason) => {
            &&& new.pre_confirmed@ == old.pre_confirmed@
            &&& new.rejected@ == old.rejected@
            &&& new.blocked@ == old.blocked@.push(BuildFailure { transaction_hash: hash, reason })
        },
        ProcessingResult::ExecutionFailed(reason) | ProcessingResult::Stale(reason) => {
            &&& new.pre_confirmed@ == old.pre_confirmed@
            &&& new.rejected@ == old.rejected@.push(BuildFailure { transaction_hash: hash, reason })
            &&& new.blocked@ == old.blocked@
        },
    }
}

/// Whether `result` takes the transaction out of the pool.
pub open spec fn removes_transaction(result: ProcessingResult) -> bool {
    result is ExecutionFailed || result is Stale
}

/// The hashes of a list of failures, in order.
pub open spec fn failure_hashes(failures: Seq<BuildFailure>) -> Seq<Felt> {
    failures.map_values(|f: BuildFailure| f.transaction_hash)
}

/// `idx` lists, in increasing order, positions of `sup` that hold the items of `sub`.
pub open spec fn picks(idx: Seq<int>, sub: Seq<Felt>, sup: Seq<Felt>) -> bool {
    &&& idx.len() == sub.len()
    &&& forall|i: int| 0 <= i < idx.len() ==> 0 <= #[trigger] idx[i] < sup.len() && sup[idx[i]] == sub[i]
    &&& forall|i: int, j: int| 0 <= i < j < idx.len() ==> idx[i] < idx[j]
}

/// `sub` is `sup` with some items left out, the others kept in order.
pub open spec fn is_subsequence(sub: Seq<Felt>, sup: Seq<Felt>) -> bool {
    exists|idx: Seq<int>| picks(idx, sub, sup)
}

/// What a chunk pre-confirmed, and what it left blocked, it selected, in the same order.
pub open spec fn drawn_from_selected(outcome: BuildOutcome) -> bool {
    &&& is_subsequence(outcome.pre_confirmed@, outcome.selected@)
    &&& is_subsequence(failure_hashes(outcome.blocked@), outcome.selected@)
}

proof fn lemma_subsequence_of_empty(sup: Seq<Felt>)
    ensures
        is_subsequence(Seq::<Felt>::empty(), sup),
{
    assert(picks(Seq::<int>::empty(), Seq::<Felt>::empty(), sup));
}

proof fn lemma_subsequence_push(sub: Seq<Felt>, sup: Seq<Felt>, h: Felt)
    requires
        is_subsequence(sub, sup),
    ensures
        is_subsequence(sub, sup.push(h)),
        is_subsequence(sub.push(h), sup.push(h)),
{
    let idx = choose|idx: Seq<int>| picks(idx, sub, sup);
    assert(picks(idx, sub, sup.push(h)));
    let idx2 = idx.push(sup.len() as int);
    assert(picks(idx2, sub.push(h), sup.push(h))) by {
        assert forall|i: int| 0 <= i < idx2.len() implies 0 <= #[trigger] idx2[i] < sup.push(h).len()
            && sup.push(h)[idx2[i]] == sub.push(h)[i] by {
            if i < idx.len() {
                assert(idx2[i] == idx[i]);
            }
        }
    }
}

/// Recording one more processing keeps what was pre-confirmed or blocked among what was
/// selected.
proof fn lemma_records_keep_drawn(old: BuildOutcome, new: BuildOutcome, hash: Felt, result: ProcessingResult)
    requires
        outcome_records(old, new, hash, result),
        drawn_from_selected(old),
    ensures
        drawn_from_selected(new),
        failure_hashes(new.rejected@).take(old.rejected@.len() as int) == failure_hashes(old.rejected@),
        old.rejected@.len() <= new.rejected@.len(),
{
    lemma_subsequence_push(old.pre_confirmed@, old.selected@, hash);
    lemma_subsequence_push(failure_hashes(old.blocked@), old.selected@, hash);
    match result {
        ProcessingResult::Blocked(reason) => {
            assert(failure_hashes(new.blocked@) =~= failure_hashes(old.blocked@).push(hash));
        },
        ProcessingResult::ExecutionFailed(reason) | ProcessingResult::Stale(reason) => {
            assert(failure_hashes(new.rejected@).take(old.rejected@.len() as int) =~= failure_hashes(old.rejected@));
        },
        _ => {},
    }
}

/// Records the processing of a selected transaction: it is listed as selected, the
/// selection counter advances, and the result decides where it goes. Rejected transactions
/// (failed execution or stale) leave the pool; blocked ones stay.
pub fn process_selected(outcome: &mut BuildOutcome, pool: &mut Mempool, hash: Felt, result: ProcessingResult)
    requires
        old(pool).wf(),
    ensures
        final(pool).wf(),
        outcome_records(*old(outcome), *final(outcome), hash, result),
        final(pool).selection_counter_view() == crate::mempool::saturating_next(old(pool).selection_counter_view()),
        final(pool).proposal_view() == old(pool).proposal_view(),
        final(pool).config_view() == old(pool).config_view(),
        final(pool).registry_view() == old(pool).registry_view(),
        final(pool).next_arrival_view() == old(pool).next_arrival_view(),
        removes_transaction(result) ==> final(pool).entries_view() == crate::mempool::removed_by_hash(old(pool).entries_view(), hash),
        !removes_transaction(result) ==> final(pool).entries_view() == old(pool).entries_view(),
{
    outcome.selected.push(hash);
    pool.record_selection();
    match result {
        ProcessingResult::Executed => {
            outcome.pre_confirmed.push(hash);
        },
        ProcessingResult::ExecutionFailed(reason) => {
            pool.remove_entry(&hash);
            outcome.rejected.push(BuildFailure { transaction_hash: hash, reason });
        },
        ProcessingResult::Blocked(reason) => {
            outcome.blocked.push(BuildFailure { transaction_hash: hash, reason });
        },
        ProcessingResult::Stale(reason) => {
            pool.remove_entry(&hash);
            outcome.rejected.push(BuildFailure { transaction_hash: hash, reason });
        },
    }
}

/// Why a forced selection is refused, checking the hashes in order: the first hash that
/// repeats an earlier one, is not pooled, or is not RECEIVED.
pub open spec fn preflight_error(pool: Mempool, hashes: Seq<Felt>) -> Option<MempoolError>
    decreases hashes.len(),
{
    if hashes.len() == 0 {
        None
    } else {
        match preflight_error(pool, hashes.drop_last()) {
            Some(e) => Some(e),
            None => {
                let h = hashes.last();
                if hashes.drop_last().contains(h) {
                    Some(MempoolError::DuplicatedHash { transaction_hash: h })
                } else {
                    match pool.spec_get(h) {
                        None => Some(MempoolError::NoTransaction),
                        Some(e) => if e.phase != MempoolPhase::Received {
                            Some(MempoolError::NotReceived { transaction_hash: h })
                        } else {
                            None
                        },
                    }
                }
            },
        }
    }
}

/// The error that hash `h` adds after the error-free prefix `before`.
pub open spec fn step_error(pool: Mempool, before: Seq<Felt>, h: Felt) -> Option<MempoolError> {
    if before.contains(h) {
        Some(MempoolError::DuplicatedHash { transaction_hash: h })
    } else {
        match pool.spec_get(h) {
            None => Some(MempoolError::NoTransaction),
            Some(e) => if e.phase != MempoolPhase::Received {
                Some(MempoolError::NotReceived { transaction_hash: h })
            } else {
                None
            },
        }
    }
}

proof fn lemma_preflight_step(pool: Mempool, hashes: Seq<Felt>, i: int)
    requires
        0 <= i < hashes.len(),
        preflight_error(pool, hashes.take(i)) is None,
    ensures
        preflight_error(pool, hashes.take(i + 1)) == step_error(pool, hashes.take(i), hashes[i]),
{
    let t = hashes.take(i + 1);
    assert(t.drop_last() =~= hashes.take(i));
    assert(t.last() == hashes[i]);
}

/// Checks a forced selection: no hash twice, every hash pooled and RECEIVED.
pub fn preflight_forced_hashes(pool: &Mempool, hashes: &[Felt]) -> (r: Result<(), MempoolError>)
    ensures
        match preflight_error(*pool, hashes@) {
            None => r is Ok,
            Some(e) => r == Err::<(), MempoolError>(e),
        },
{
    let mut i: usize = 0;
    while i < hashes.len()
        invariant
            i <= hashes@.len(),
            preflight_error(*pool, hashes@.take(i as int)) is None,
        decreases hashes@.len() - i,
    {
        let h = hashes[i];
        let repeated = repeats_earlier(hashes, i);
        proof {
            lemma_preflight_step(*pool, hashes@, i as int);
            lemma_prefix_error_stays(*pool, hashes@, i as int + 1);
        }
        if repeated {
            return Err(MempoolError::DuplicatedHash { transaction_hash: h });
        }
        match pool.get(&h) {
            None => {
                return Err(MempoolError::NoTransaction);
            },
            Some(e) => {
                if e.phase != MempoolPhase::Received {
                    return Err(MempoolError::NotReceived { transaction_hash: h });
                }
            },
        }
        i = i + 1;
    }
    proof {
        assert(hashes@.take(i as int) =~= hashes@);
    }
    Ok(())
}

/// Whether the hash at position `i` occurs before `i`.
fn repeats_earlier(hashes: &[Felt], i: usize) -> (r: bool)
    requires
        i < hashes@.len(),
    ensures
        r == hashes@.take(i as int).contains(hashes@[i as int]),
{
    let h = hashes[i];
    let ghost pre = hashes@.take(i as int);
    let mut j: usize = 0;
    while j < i
        invariant
            j <= i,
            i < hashes@.len(),
            h == hashes@[i as int],
            pre == hashes@.take(i as int),
            forall|m: int| 0 <= m < j ==> hashes@[m] != h,
        decreases i - j,
    {
        if hashes[j] == h {
            proof {
                assert(pre[j as int] == h);
            }
            return true;
        }
        j = j + 1;
    }
    proof {
        if pre.contains(h) {
            let m = choose|m: int| 0 <= m < pre.len() && pre[m] == h;
            assert(hashes@[m] == h);
        }
    }
    false
}

/// Once a prefix has an error, the whole sequence has the same error.
proof fn lemma_prefix_error_stays(pool: Mempool, hashes: Seq<Felt>, k: int)
    requires
        0 <= k <= hashes.len(),
    ensures
        preflight_error(pool, hashes.take(k)) is Some ==> preflight_error(pool, hashes) == preflight_error(pool, hashes.take(k)),
    decreases hashes.len() - k,
{
    if k < hashes.len() {
        lemma_prefix_error_stays(pool, hashes, k + 1);
        assert(hashes.take(k + 1).drop_last() =~= hashes.take(k));
    } else {
        assert(hashes.take(k) =~= hashes);
    }
}


/// The hashes are pairwise distinct.
pub open spec fn all_distinct(hashes: Seq<Felt>) -> bool {
    forall|i: int, j: int| 0 <= i < j < hashes.len() ==> hashes[i] != hashes[j]
}

/// Each hash names a pooled transaction that is RECEIVED.
pub open spec fn all_received(pool: Mempool, hashes: Seq<Felt>) -> bool {
    forall|i: int| 0 <= i < hashes.len() ==> (pool.spec_get(#[trigger] hashes[i]) matches Some(e) && e.phase == MempoolPhase::Received)
}

/// A forced selection passes its checks exactly when its hashes are pairwise distinct and
/// each names a pooled transaction that is still RECEIVED: a candidate or pre-confirmed
/// transaction can never be forced (again).
pub proof fn lemma_preflight_admits_only_received(pool: Mempool, hashes: Seq<Felt>)
    ensures
        preflight_error(pool, hashes) is None <==> all_distinct(hashes) && all_received(pool, hashes),
    decreases hashes.len(),
{
    if hashes.len() > 0 {
        let d = hashes.drop_last();
        let h = hashes.last();
        lemma_preflight_admits_only_received(pool, d);
        assert forall|i: int| 0 <= i < d.len() implies d[i] == hashes[i] by {}
        if all_distinct(hashes) {
            assert(all_distinct(d));
            assert(!d.contains(h)) by {
                if d.contains(h) {
                    let k = choose|k: int| 0 <= k < d.len() && d[k] == h;
                    assert(hashes[k] == hashes[hashes.len() - 1]);
                }
            }
        }
        if all_received(pool, hashes) {
            assert(all_received(pool, d)) by {
                assert forall|i: int| 0 <= i < d.len() implies (pool.spec_get(#[trigger] d[i]) matches Some(e) && e.phase == MempoolPhase::Received) by {
                    assert(d[i] == hashes[i]);
                }
            }
            assert(pool.spec_get(hashes[hashes.len() - 1]) matches Some(e) && e.phase == MempoolPhase::Received);
        }
        if all_distinct(d) && !d.contains(h) {
            assert forall|i: int, j: int| 0 <= i < j < hashes.len() implies hashes[i] != hashes[j] by {
                if j == hashes.len() - 1 {
                    assert(d[i] == hashes[i]);
                    if hashes[i] == hashes[j] {
                        assert(d.contains(h));
                    }
                } else {
                    assert(d[i] == hashes[i] && d[j] == hashes[j]);
                }
            }
        }
        if all_received(pool, d) && (pool.spec_get(h) matches Some(e) && e.phase == MempoolPhase::Received) {
            assert forall|i: int| 0 <= i < hashes.len() implies (pool.spec_get(#[trigger] hashes[i]) matches Some(e) && e.phase == MempoolPhase::Received) by {
                if i < hashes.len() - 1 {
                    assert(d[i] == hashes[i]);
                }
            }
        }
    }
}

/// The first hash of a forced selection that is pooled but no longer RECEIVED (a candidate
/// or a pre-confirmed transaction), after distinct RECEIVED hashes and not repeating one of
/// them, gets the selection refused as `NotReceived` for that hash.
pub proof fn lemma_preflight_refuses_not_received(pool: Mempool, hashes: Seq<Felt>, i: int)
    requires
        0 <= i < hashes.len(),
        all_distinct(hashes.take(i)),
        all_received(pool, hashes.take(i)),
        !hashes.take(i).contains(hashes[i]),
        pool.spec_get(hashes[i]) matches Some(e) && e.phase != MempoolPhase::Received,
    ensures
        preflight_error(pool, hashes) == Some(MempoolError::NotReceived { transaction_hash: hashes[i] }),
{
    lemma_preflight_admits_only_received(pool, hashes.take(i));
    lemma_preflight_step(pool, hashes, i);
    lemma_prefix_error_stays(pool, hashes, i + 1);
}

/// The first problem of a forced selection decides its refusal: after distinct RECEIVED
/// hashes, a hash that repeats one of them is refused as a duplicate, one that is not pooled
/// as missing, and one that is pooled but no longer RECEIVED as not received.
pub proof fn lemma_preflight_first_problem(pool: Mempool, hashes: Seq<Felt>, i: int)
    requires
        0 <= i < hashes.len(),
        all_distinct(hashes.take(i)),
        all_received(pool, hashes.take(i)),
    ensures
        hashes.take(i).contains(hashes[i]) ==> preflight_error(pool, hashes)
            == Some(MempoolError::DuplicatedHash { transaction_hash: hashes[i] }),
        !hashes.take(i).contains(hashes[i]) && pool.spec_get(hashes[i]) is None
            ==> preflight_error(pool, hashes) == Some(MempoolError::NoTransaction),
        !hashes.take(i).contains(hashes[i]) && (pool.spec_get(hashes[i]) matches Some(e) && e.phase != MempoolPhase::Received)
            ==> preflight_error(pool, hashes) == Some(MempoolError::NotReceived { transaction_hash: hashes[i] }),
{
    lemma_preflight_admits_only_received(pool, hashes.take(i));
    lemma_preflight_step(pool, hashes, i);
    lemma_prefix_error_stays(pool, hashes, i + 1);
}

/// What an ordering policy's pick means for the selection round.
#[derive(Clone, Copy, Debug, PartialEq, Eq, Structural)]
pub enum PolicySelection {
    /// Process this transaction next.
    Transaction(Felt),
    /// End the chunk.
    Stop,
    /// Nothing left in this round: refresh the snapshot and ask again.
    RoundExhausted,
}

/// A pick from a policy consulted on a round view: a hash is a selection; no hash stops the
/// chunk, unless the view was empty, which exhausts the round.
pub open spec fn selection_of(pick: Option<Felt>, view_empty: bool) -> PolicySelection {
    match pick {
        Some(h) => PolicySelection::Transaction(h),
        None => if view_empty {
            PolicySelection::RoundExhausted
        } else {
            PolicySelection::Stop
        },
    }
}

pub fn policy_selection(pick: Option<Felt>, view_empty: bool) -> (r: PolicySelection)
    ensures
        r == selection_of(pick, view_empty),
{
    match pick {
        Some(h) => PolicySelection::Transaction(h),
        None => if view_empty {
            PolicySelection::RoundExhausted
        } else {
            PolicySelection::Stop
        },
    }
}

/// What the node does next while building a policy chunk.
#[derive(Clone, Copy, Debug, PartialEq, Eq, Structural)]
pub enum ChunkStep {
    /// Check eligibility of this transaction, execute it if eligible, and report back through
    /// [`PolicyChunk::process`].
    Process(Felt),
    /// Evict stale transactions, read the eligible hashes again and ask for the next step.
    Retry,
    /// Ask the ordering policy to pick from the round's hashes
    /// ([`PolicyChunk::round`], read through the pool) and hand its pick to
    /// [`PolicyChunk::apply_pick`].
    Consult,
    /// The chunk is complete.
    Done,
}

/// A round after dropping ineligible hashes and refreshing when due: `None` when the round
/// was exhausted and a refresh finds the same hashes again; else the round's hashes and
/// selection count.
pub open spec fn prepared_round(
    hashes: Seq<Felt>,
    selections: usize,
    exhausted: bool,
    table: Seq<(EntryKey, MempoolEntry)>,
    eligible: Seq<Felt>,
) -> Option<(Seq<Felt>, usize)> {
    let kept = retained(hashes, eligible);
    let due = kept.len() == 0 || selections >= POLICY_SELECTION_ROUND_SIZE || exhausted;
    let fresh = user_view(table, eligible);
    if due && exhausted && kept == fresh {
        None
    } else if due {
        Some((fresh, 0usize))
    } else {
        Some((kept, selections))
    }
}

/// The attempts stay within the limit, each attempt selected one transaction, and each
/// pre-confirmed or blocked transaction was selected.
#[verifier::opaque]
spec fn counts_ok(outcome: BuildOutcome, attempts: usize, limit: usize) -> bool {
    &&& attempts <= limit
    &&& outcome.selected@.len() == attempts
    &&& outcome.pre_confirmed@.len() + outcome.blocked@.len() <= outcome.selected@.len()
    &&& drawn_from_selected(outcome)
}

/// Builds one chunk of a block with a user ordering policy. System-lane transactions are
/// served first, in arrival order; user transactions come from selection rounds over a
/// snapshot of the eligible user hashes, refreshed every
/// [`POLICY_SELECTION_ROUND_SIZE`] selections or when the round runs dry.
pub struct PolicyChunk {
    outcome: BuildOutcome,
    round: PolicySelectionRound,
    attempts: usize,
    limit: usize,
}

impl PolicyChunk {
    pub closed spec fn wf(&self) -> bool {
        &&& self.round.selection_count() <= POLICY_SELECTION_ROUND_SIZE
        &&& counts_ok(self.outcome, self.attempts, self.limit)
    }

    /// Every processing attempt of a chunk counts against its limit: the chunk has handed at
    /// most `limit` transactions to processing (system or user lane, whatever became of
    /// them), and what it pre-confirmed or blocked is among those, in the order in which
    /// they were selected. Stale
    /// transactions that the node evicts are not attempts.
    pub proof fn lemma_attempts_within_limit(&self)
        requires
            self.wf(),
        ensures
            self.outcome_view().selected@.len() == self.attempts_view(),
            self.attempts_view() <= self.limit_view(),
            self.outcome_view().pre_confirmed@.len() + self.outcome_view().blocked@.len()
                <= self.outcome_view().selected@.len(),
            is_subsequence(self.outcome_view().pre_confirmed@, self.outcome_view().selected@),
            is_subsequence(failure_hashes(self.outcome_view().blocked@), self.outcome_view().selected@),
    {
        reveal(counts_ok);
    }

    pub closed spec fn outcome_view(&self) -> BuildOutcome {
        self.outcome
    }

    /// A selection round serves at most [`POLICY_SELECTION_ROUND_SIZE`] selections before a
    /// new snapshot is taken.
    pub proof fn lemma_round_size_is_bounded(&self)
        requires
            self.wf(),
        ensures
            self.round_view().selection_count() <= POLICY_SELECTION_ROUND_SIZE,
    {
    }

    pub closed spec fn round_view(&self) -> PolicySelectionRound {
        self.round
    }

    pub closed spec fn attempts_view(&self) -> usize {
        self.attempts
    }

    pub closed spec fn limit_view(&self) -> usize {
        self.limit
    }

    /// A chunk that processes at most `max_transactions` selections (no limit for `None`).
    pub fn new(max_transactions: Option<usize>) -> (r: Self)
        ensures
            r.wf(),
            r.attempts_view() == 0,
            r.limit_view() == (match max_transactions {
                Some(m) => m,
                None => usize::MAX,
            }),
            r.outcome_view().selected@.len() == 0,
            r.outcome_view().pre_confirmed@.len() == 0,
            r.outcome_view().rejected@.len() == 0,
            r.outcome_view().blocked@.len() == 0,
            r.outcome_view().swept_stale_hashes@.len() == 0,
            !r.outcome_view().block_full,
            r.round_view().hashes_view().len() == 0,
            r.round_view().selection_count() == 0,
            !r.round_view().is_exhausted(),
    {
        let limit = match max_transactions {
            Some(m) => m,
            None => usize::MAX,
        };
        let outcome = BuildOutcome::new();
        proof {
            reveal(counts_ok);
            lemma_subsequence_of_empty(outcome.selected@);
            assert(failure_hashes(outcome.blocked@) =~= Seq::<Felt>::empty());
        }
        PolicyChunk { outcome, round: PolicySelectionRound::new(), attempts: 0, limit }
    }

    pub fn outcome(&self) -> (r: &BuildOutcome)
        ensures
            *r == self.outcome_view(),
    {
        &self.outcome
    }

    pub fn round(&self) -> (r: &PolicySelectionRound)
        ensures
            *r == self.round_view(),
    {
        &self.round
    }

    /// Whether the chunk goes on after the node's eviction of stale transactions: the
    /// selection limit allows another attempt and the proposal has room. Checked before the
    /// eligible hashes are read.
    pub fn may_continue(&self, pool: &Mempool) -> (r: bool)
        ensures
            r == (self.attempts_view() < self.limit_view() && pool.remaining_capacity_view() > 0),
    {
        self.attempts < self.limit && pool.remaining_capacity() > 0
    }

    /// Whether the selection limit still allows another attempt.
    pub fn wants_more(&self) -> (r: bool)
        ensures
            r == (self.attempts_view() < self.limit_view()),
    {
        self.attempts < self.limit
    }

    /// Records transactions that the node evicted as stale.
    pub fn record_evicted(&mut self, failures: Vec<BuildFailure>)
        ensures
            final(self).wf() == old(self).wf(),
            final(self).outcome_view().rejected@ == old(self).outcome_view().rejected@ + failures@,
            final(self).outcome_view().selected@ == old(self).outcome_view().selected@,
            final(self).outcome_view().pre_confirmed@ == old(self).outcome_view().pre_confirmed@,
            final(self).outcome_view().blocked@ == old(self).outcome_view().blocked@,
            final(self).outcome_view().block_full == old(self).outcome_view().block_full,
            final(self).round_view() == old(self).round_view(),
            final(self).attempts_view() == old(self).attempts_view(),
            final(self).limit_view() == old(self).limit_view(),
    {
        proof {
            reveal(counts_ok);
        }
        let mut i: usize = 0;
        let ghost start = self.outcome.rejected@;
        while i < failures.len()
            invariant
                i <= failures@.len(),
                self.outcome.rejected@ == start + failures@.take(i as int),
                self.outcome.selected@ == old(self).outcome_view().selected@,
                self.outcome.pre_confirmed@ == old(self).outcome_view().pre_confirmed@,
                self.outcome.blocked@ == old(self).outcome_view().blocked@,
                self.outcome.block_full == old(self).outcome_view().block_full,
                self.round == old(self).round_view(),
                self.attempts == old(self).attempts_view(),
                self.limit == old(self).limit_view(),
            decreases failures@.len() - i,
        {
            let f = failures[i].duplicate();
            self.outcome.rejected.push(f);
            proof {
                assert(failures@.take(i + 1) =~= failures@.take(i as int).push(failures@[i as int]));
                assert(start + failures@.take(i + 1) =~= (start + failures@.take(i as int)).push(failures@[i as int]));
            }
            i = i + 1;
        }
        proof {
            assert(failures@.take(i as int) =~= failures@);
        }
    }
}


/// The step that a selection leads to, and the round afterwards (hashes, selection count,
/// exhausted flag), from a round with `view`, `sel` selections and flag `exhausted`.
pub open spec fn after_selection(
    view: Seq<Felt>,
    sel: usize,
    exhausted: bool,
    selection: PolicySelection,
) -> (Result<ChunkStep, MempoolError>, Seq<Felt>, int, bool) {
    match selection {
        PolicySelection::Transaction(h) => if view.contains(h) {
            (Ok(ChunkStep::Process(h)), view.remove(first_position(view, h)), sel + 1, false)
        } else {
            (Err(MempoolError::IneligibleSelection { transaction_hash: h }), view, sel as int, exhausted)
        },
        PolicySelection::Stop => (Ok(ChunkStep::Done), view, sel as int, exhausted),
        PolicySelection::RoundExhausted => (Ok(ChunkStep::Retry), view, sel as int, true),
    }
}

/// Between refreshes a selection round takes in no new hash: dropping ineligible hashes
/// and applying a policy's selection only ever remove hashes. So a successor that becomes
/// eligible during a round (nonce `n + 1` once nonce `n` executed) waits for the next
/// snapshot and cannot overtake an account head already in the round.
pub proof fn lemma_round_admits_no_new_hash(
    view: Seq<Felt>,
    sel: usize,
    exhausted: bool,
    selection: PolicySelection,
    eligible: Seq<Felt>,
    h: Felt,
)
    ensures
        retained(view, eligible).contains(h) ==> view.contains(h),
        after_selection(view, sel, exhausted, selection).1.contains(h) ==> view.contains(h),
{
    let keep = |x: Felt| eligible.contains(x);
    if retained(view, eligible).contains(h) {
        view.lemma_filter_contains_rev(keep, h);
    }
    let next = after_selection(view, sel, exhausted, selection).1;
    if next.contains(h) {
        match selection {
            PolicySelection::Transaction(t) => {
                if view.contains(t) {
                    lemma_first_position(view, t);
                    let p = first_position(view, t);
                    let k = choose|k: int| 0 <= k < next.len() && next[k] == h;
                    let ok = if k < p { k } else { k + 1 };
                    assert(next[k] == view[ok]);
                }
            },
            _ => {},
        }
    }
}

/// A policy's pick outside the selection round is refused, and the round stays as it was.
pub proof fn lemma_ineligible_pick_is_refused(view: Seq<Felt>, sel: usize, exhausted: bool, h: Felt)
    requires
        !view.contains(h),
    ensures
        after_selection(view, sel, exhausted, PolicySelection::Transaction(h))
            == (Err::<ChunkStep, MempoolError>(MempoolError::IneligibleSelection { transaction_hash: h }), view, sel as int, exhausted),
{
}

/// Whether two hash lists are equal.
fn same_hashes(a: &[Felt], b: &[Felt]) -> (r: bool)
    ensures
        r == (a@ == b@),
{
    if a.len() != b.len() {
        return false;
    }
    let mut i: usize = 0;
    while i < a.len()
        invariant
            i <= a@.len(),
            a@.len() == b@.len(),
            forall|j: int| 0 <= j < i ==> a@[j] == b@[j],
        decreases a@.len() - i,
    {
        if a[i] != b[i] {
            return false;
        }
        i = i + 1;
    }
    proof {
        assert(a@ =~= b@);
    }
    true
}

impl PolicyChunk {
    /// Applies a policy's selection to the round.
    pub fn apply_selection(&mut self, selection: PolicySelection) -> (r: Result<ChunkStep, MempoolError>)
        requires
            old(self).wf(),
            old(self).round_view().selection_count() < POLICY_SELECTION_ROUND_SIZE,
        ensures
            final(self).wf(),
            final(self).outcome_view() == old(self).outcome_view(),
            final(self).attempts_view() == old(self).attempts_view(),
            final(self).limit_view() == old(self).limit_view(),
            (r, final(self).round_view().hashes_view(), final(self).round_view().selection_count() as int, final(self).round_view().is_exhausted())
                == after_selection(old(self).round_view().hashes_view(), old(self).round_view().selection_count(), old(self).round_view().is_exhausted(), selection),
    {
        match selection {
            PolicySelection::Transaction(h) => {
                if !self.round.record_selection(h) {
                    return Err(MempoolError::IneligibleSelection { transaction_hash: h });
                }
                Ok(ChunkStep::Process(h))
            },
            PolicySelection::Stop => Ok(ChunkStep::Done),
            PolicySelection::RoundExhausted => {
                self.round.mark_exhausted();
                Ok(ChunkStep::Retry)
            },
        }
    }
}


/// The step decided from the selection round: `old_round` is prepared against `eligible`
/// (dropping ineligible hashes, refreshing when due); an exhausted round that a refresh
/// would not change ends the chunk; else the policy is to be consulted on the prepared round.
pub open spec fn round_step(
    old_round: PolicySelectionRound,
    new_round: PolicySelectionRound,
    table: Seq<(EntryKey, MempoolEntry)>,
    eligible: Seq<Felt>,
    r: ChunkStep,
) -> bool {
    match prepared_round(old_round.hashes_view(), old_round.selection_count(), old_round.is_exhausted(), table, eligible) {
        None => {
            &&& r == ChunkStep::Done
            &&& new_round.hashes_view() == retained(old_round.hashes_view(), eligible)
            &&& new_round.selection_count() == old_round.selection_count()
            &&& new_round.is_exhausted() == old_round.is_exhausted()
        },
        Some(prepared) => {
            &&& r == ChunkStep::Consult
            &&& new_round.hashes_view() == prepared.0
            &&& new_round.selection_count() == prepared.1
            &&& !new_round.is_exhausted()
        },
    }
}

impl PolicyChunk {
    /// Decides the next step, once stale transactions have been evicted and the eligible
    /// hashes read: stop when the block is full; else serve the oldest eligible system-lane
    /// transaction; else prepare the selection round (dropping ineligible hashes, refreshing
    /// when due) and ask for the ordering policy to be consulted on it.
    pub fn next_step(&mut self, pool: &Mempool, eligible_hashes: &[Felt]) -> (r: ChunkStep)
        requires
            old(self).wf(),
            pool.wf(),
        ensures
            final(self).wf(),
            final(self).outcome_view() == old(self).outcome_view(),
            final(self).attempts_view() == old(self).attempts_view(),
            final(self).limit_view() == old(self).limit_view(),
            pool.remaining_capacity_view() == 0 ==> r == ChunkStep::Done && final(self).round_view() == old(self).round_view(),
            pool.remaining_capacity_view() > 0 && system_entries(pool.table(), eligible_hashes@).len() > 0 ==> {
                &&& r matches ChunkStep::Process(h) && fifo_choice(system_entries(pool.table(), eligible_hashes@), Some(h))
                &&& final(self).round_view() == old(self).round_view()
            },
            pool.remaining_capacity_view() > 0 && system_entries(pool.table(), eligible_hashes@).len() == 0 ==> round_step(
                old(self).round_view(), final(self).round_view(), pool.table(), eligible_hashes@, r),
            r == ChunkStep::Consult ==> final(self).round_view().selection_count() < POLICY_SELECTION_ROUND_SIZE,
    {
        if pool.remaining_capacity() == 0 {
            return ChunkStep::Done;
        }
        match oldest_eligible_system_hash(pool, eligible_hashes) {
            Some(h) => {
                return ChunkStep::Process(h);
            },
            None => {},
        }
        let ghost r0 = self.round;
        self.round.retain_eligible(eligible_hashes);
        if self.round.should_refresh() {
            let fresh = eligible_user_hashes(pool, eligible_hashes);
            if self.round.exhausted() && same_hashes(self.round.user_hashes(), fresh.as_slice()) {
                proof {
                    assert(prepared_round(r0.hashes_view(), r0.selection_count(), r0.is_exhausted(), pool.table(), eligible_hashes@) is None);
                }
                return ChunkStep::Done;
            }
            self.round.refresh(fresh);
        }
        proof {
            assert(prepared_round(r0.hashes_view(), r0.selection_count(), r0.is_exhausted(), pool.table(), eligible_hashes@)
                == Some((self.round.hashes_view(), self.round.selection_count())));
        }
        ChunkStep::Consult
    }

    /// Applies the ordering policy's pick from the round's hashes: a pick in the round is to
    /// be processed, a pick outside it is refused, and no pick ends the chunk, or marks the
    /// round exhausted when the round was empty.
    pub fn apply_pick(&mut self, pick: Option<Felt>) -> (r: Result<ChunkStep, MempoolError>)
        requires
            old(self).wf(),
            old(self).round_view().selection_count() < POLICY_SELECTION_ROUND_SIZE,
        ensures
            final(self).wf(),
            final(self).outcome_view() == old(self).outcome_view(),
            final(self).attempts_view() == old(self).attempts_view(),
            final(self).limit_view() == old(self).limit_view(),
            (r, final(self).round_view().hashes_view(), final(self).round_view().selection_count() as int, final(self).round_view().is_exhausted())
                == after_selection(
                old(self).round_view().hashes_view(),
                old(self).round_view().selection_count(),
                old(self).round_view().is_exhausted(),
                selection_of(pick, old(self).round_view().hashes_view().len() == 0),
            ),
    {
        let view_empty = self.round.user_hashes().len() == 0;
        self.apply_selection(policy_selection(pick, view_empty))
    }
}


impl PolicyChunk {
    /// Records the processing of a transaction that [`PolicyChunk::next_step`] asked for.
    pub fn process(&mut self, pool: &mut Mempool, hash: Felt, result: ProcessingResult)
        requires
            old(pool).wf(),
            old(self).wf(),
            old(self).attempts_view() < old(self).limit_view(),
        ensures
            final(pool).wf(),
            final(self).wf(),
            outcome_records(old(self).outcome_view(), final(self).outcome_view(), hash, result),
            final(self).round_view() == old(self).round_view(),
            final(self).limit_view() == old(self).limit_view(),
            final(self).attempts_view() == old(self).attempts_view() + 1,
            final(pool).selection_counter_view() == crate::mempool::saturating_next(old(pool).selection_counter_view()),
            final(pool).proposal_view() == old(pool).proposal_view(),
            final(pool).config_view() == old(pool).config_view(),
            removes_transaction(result) ==> final(pool).entries_view() == crate::mempool::removed_by_hash(old(pool).entries_view(), hash),
            !removes_transaction(result) ==> final(pool).entries_view() == old(pool).entries_view(),
    {
        proof {
            reveal(counts_ok);
        }
        let ghost before = self.outcome;
        process_selected(&mut self.outcome, pool, hash, result);
        proof {
            lemma_records_keep_drawn(before, self.outcome, hash, result);
        }
        self.attempts = self.attempts + 1;
    }

    /// The chunk's outcome; the block is full when the proposal has no room left.
    pub fn finish(self, pool: &Mempool) -> (r: BuildOutcome)
        ensures
            r.selected@ == self.outcome_view().selected@,
            r.pre_confirmed@ == self.outcome_view().pre_confirmed@,
            r.rejected@ == self.outcome_view().rejected@,
            r.blocked@ == self.outcome_view().blocked@,
            r.swept_stale_hashes@ == self.outcome_view().swept_stale_hashes@,
            r.block_full == (pool.remaining_capacity_view() == 0),
    {
        let mut outcome = self.outcome;
        outcome.block_full = pool.remaining_capacity() == 0;
        outcome
    }
}

/// Checks the stale hashes to sweep before a forced selection, given the node's eligibility
/// decision for each of them: none may also be selected, and each must be stale. Gives the
/// failures to record, in order.
pub fn check_swept(
    transaction_hashes: &[Felt],
    swept_stale_hashes: &[Felt],
    eligibility: &[TransactionEligibility],
) -> (r: Result<Vec<BuildFailure>, MempoolError>)
    requires
        eligibility@.len() == swept_stale_hashes@.len(),
    ensures
        match swept_error(transaction_hashes@, swept_stale_hashes@, eligibility@) {
            Some(e) => r == Err::<Vec<BuildFailure>, MempoolError>(e),
            None => r matches Ok(failures) && failures@.len() == swept_stale_hashes@.len() && forall|i: int|
                0 <= i < failures@.len() ==> (#[trigger] failures@[i]).transaction_hash == swept_stale_hashes@[i]
                    && eligibility@[i] == TransactionEligibility::Stale(failures@[i].reason),
        },
{
    let mut failures: Vec<BuildFailure> = Vec::new();
    let mut i: usize = 0;
    while i < swept_stale_hashes.len()
        invariant
            i <= swept_stale_hashes@.len(),
            eligibility@.len() == swept_stale_hashes@.len(),
            swept_error(transaction_hashes@, swept_stale_hashes@.take(i as int), eligibility@.take(i as int)) is None,
            failures@.len() == i,
            forall|j: int| 0 <= j < i ==> (#[trigger] failures@[j]).transaction_hash == swept_stale_hashes@[j]
                && eligibility@[j] == TransactionEligibility::Stale(failures@[j].reason),
        decreases swept_stale_hashes@.len() - i,
    {
        let hash = swept_stale_hashes[i];
        proof {
            let hs = swept_stale_hashes@.take(i + 1);
            let es = eligibility@.take(i + 1);
            assert(hs.drop_last() =~= swept_stale_hashes@.take(i as int));
            assert(es.drop_last() =~= eligibility@.take(i as int));
            lemma_swept_prefix(transaction_hashes@, swept_stale_hashes@, eligibility@, i as int + 1);
        }
        if contains_felt(transaction_hashes, &hash) {
            return Err(MempoolError::SelectedAndSwept { transaction_hash: hash });
        }
        match &eligibility[i] {
            TransactionEligibility::Stale(reason) => {
                failures.push(BuildFailure { transaction_hash: hash, reason: reason.clone() });
            },
            _ => {
                return Err(MempoolError::NotStale { transaction_hash: hash });
            },
        }
        i = i + 1;
    }
    proof {
        assert(swept_stale_hashes@.take(i as int) =~= swept_stale_hashes@);
        assert(eligibility@.take(i as int) =~= eligibility@);
    }
    Ok(failures)
}

/// The first problem among the stale hashes to sweep: one that is also selected, or one that
/// is not stale.
pub open spec fn swept_error(selected: Seq<Felt>, swept: Seq<Felt>, eligibility: Seq<TransactionEligibility>) -> Option<MempoolError>
    decreases swept.len(),
{
    if swept.len() == 0 || eligibility.len() != swept.len() {
        None
    } else {
        match swept_error(selected, swept.drop_last(), eligibility.drop_last()) {
            Some(e) => Some(e),
            None => {
                let h = swept.last();
                if selected.contains(h) {
                    Some(MempoolError::SelectedAndSwept { transaction_hash: h })
                } else if eligibility.last() is Stale {
                    None
                } else {
                    Some(MempoolError::NotStale { transaction_hash: h })
                }
            },
        }
    }
}

proof fn lemma_swept_prefix(selected: Seq<Felt>, swept: Seq<Felt>, eligibility: Seq<TransactionEligibility>, k: int)
    requires
        0 <= k <= swept.len(),
        eligibility.len() == swept.len(),
    ensures
        swept_error(selected, swept.take(k), eligibility.take(k)) is Some ==> swept_error(selected, swept, eligibility)
            == swept_error(selected, swept.take(k), eligibility.take(k)),
    decreases swept.len() - k,
{
    if k < swept.len() {
        lemma_swept_prefix(selected, swept, eligibility, k + 1);
        assert(swept.take(k + 1).drop_last() =~= swept.take(k));
        assert(eligibility.take(k + 1).drop_last() =~= eligibility.take(k));
    } else {
        assert(swept.take(k) =~= swept);
        assert(eligibility.take(k) =~= eligibility);
    }
}

/// Whether the node's eligibility decision for the swept hash at position `k` is needed,
/// `k` being the number of decisions `read` so far: it is, unless an earlier swept hash is
/// already refused (selected too, or not stale) or this hash is also selected. Reading the
/// decisions in order while this holds reads exactly those that [`check_swept`] looks at.
pub fn needs_swept_eligibility(transaction_hashes: &[Felt], swept_stale_hashes: &[Felt], read: &[TransactionEligibility]) -> (r: bool)
    requires
        read@.len() < swept_stale_hashes@.len(),
    ensures
        r == (swept_error(transaction_hashes@, swept_stale_hashes@.take(read@.len() as int), read@) is None
            && !transaction_hashes@.contains(swept_stale_hashes@[read@.len() as int])),
{
    let k = read.len();
    let prefix = vstd::slice::slice_subrange(swept_stale_hashes, 0, k);
    proof {
        assert(prefix@ =~= swept_stale_hashes@.take(k as int));
    }
    match check_swept(transaction_hashes, prefix, read) {
        Ok(_) => !contains_felt(transaction_hashes, &swept_stale_hashes[k]),
        Err(_) => false,
    }
}

/// The decisions that were not needed do not matter: two eligibility lists that agree on the
/// decisions read until [`needs_swept_eligibility`] said no more were needed lead to the same
/// verdict on the swept hashes.
pub proof fn lemma_unread_eligibility_is_unused(
    selected: Seq<Felt>,
    swept: Seq<Felt>,
    read: Seq<TransactionEligibility>,
    first: Seq<TransactionEligibility>,
    second: Seq<TransactionEligibility>,
)
    requires
        read.len() <= swept.len(),
        first.len() == swept.len(),
        second.len() == swept.len(),
        first.take(read.len() as int) == read,
        second.take(read.len() as int) == read,
        read.len() < swept.len() ==> (swept_error(selected, swept.take(read.len() as int), read) is Some
            || selected.contains(swept[read.len() as int])),
    ensures
        swept_error(selected, swept, first) == swept_error(selected, swept, second),
{
    let k = read.len() as int;
    if k == swept.len() {
        assert(first =~= read);
        assert(second =~= read);
    } else if swept_error(selected, swept.take(k), read) is Some {
        lemma_swept_prefix(selected, swept, first, k);
        lemma_swept_prefix(selected, swept, second, k);
    } else {
        lemma_swept_prefix(selected, swept, first, k + 1);
        lemma_swept_prefix(selected, swept, second, k + 1);
        assert(swept.take(k + 1).drop_last() =~= swept.take(k));
        assert(first.take(k + 1).drop_last() =~= read);
        assert(second.take(k + 1).drop_last() =~= read);
        assert(swept.take(k + 1).last() == swept[k]);
    }
}

/// Builds a chunk from a caller-chosen list of hashes, processed in order while the
/// proposal has room.
pub struct ForcedChunk {
    outcome: BuildOutcome,
    hashes: Vec<Felt>,
    next: usize,
}

impl ForcedChunk {
    pub closed spec fn outcome_view(&self) -> BuildOutcome {
        self.outcome
    }

    pub closed spec fn hashes_view(&self) -> Seq<Felt> {
        self.hashes@
    }

    pub closed spec fn next_view(&self) -> usize {
        self.next
    }

    /// The chunk has processed exactly the first `next` of its hashes, in order; what it
    /// pre-confirmed or blocked it selected; the swept hashes head its rejected ones.
    pub closed spec fn wf(&self) -> bool {
        &&& self.next <= self.hashes@.len()
        &&& self.outcome.selected@ == self.hashes@.take(self.next as int)
        &&& self.outcome.pre_confirmed@.len() + self.outcome.blocked@.len() <= self.outcome.selected@.len()
        &&& drawn_from_selected(self.outcome)
        &&& self.outcome.swept_stale_hashes@.len() <= self.outcome.rejected@.len()
        &&& failure_hashes(self.outcome.rejected@).take(self.outcome.swept_stale_hashes@.len() as int)
            == self.outcome.swept_stale_hashes@
    }

    /// A forced chunk processes the given hashes in the given order and nothing else: what it
    /// has selected is a prefix of them, and what it pre-confirmed or blocked is a
    /// subsequence of that prefix; the swept stale hashes head its rejected transactions.
    /// Once it is done (every hash processed, or no room left in `pool`), the prefix is all
    /// of the given hashes unless the block is full.
    pub proof fn lemma_processes_given_prefix(&self, pool: Mempool)
        requires
            self.wf(),
        ensures
            self.next_view() <= self.hashes_view().len(),
            self.outcome_view().selected@ == self.hashes_view().take(self.next_view() as int),
            self.outcome_view().pre_confirmed@.len() + self.outcome_view().blocked@.len()
                <= self.outcome_view().selected@.len(),
            is_subsequence(self.outcome_view().pre_confirmed@, self.outcome_view().selected@),
            is_subsequence(failure_hashes(self.outcome_view().blocked@), self.outcome_view().selected@),
            self.outcome_view().swept_stale_hashes@.len() <= self.outcome_view().rejected@.len(),
            failure_hashes(self.outcome_view().rejected@).take(self.outcome_view().swept_stale_hashes@.len() as int)
                == self.outcome_view().swept_stale_hashes@,
            self.next_view() >= self.hashes_view().len() || pool.remaining_capacity_view() == 0 ==> {
                ||| self.outcome_view().selected@ == self.hashes_view()
                ||| pool.remaining_capacity_view() == 0
            },
    {
        if self.next_view() >= self.hashes_view().len() {
            assert(self.hashes_view().take(self.next_view() as int) =~= self.hashes_view());
        }
    }

    /// Starts a forced chunk: checks both hash lists, removes the swept stale transactions
    /// from the pool and records them as rejected. `swept_failures` are the failures that
    /// [`check_swept`] returned.
    pub fn start(pool: &mut Mempool, transaction_hashes: Vec<Felt>, swept_failures: Vec<BuildFailure>) -> (r: ForcedChunk)
        requires
            old(pool).wf(),
        ensures
            final(pool).wf(),
            r.wf(),
            r.hashes_view() == transaction_hashes@,
            r.next_view() == 0,
            r.outcome_view().rejected@ == swept_failures@,
            r.outcome_view().swept_stale_hashes@ == swept_failures@.map_values(|f: BuildFailure| f.transaction_hash),
            r.outcome_view().selected@.len() == 0,
            r.outcome_view().pre_confirmed@.len() == 0,
            r.outcome_view().blocked@.len() == 0,
            final(pool).entries_view() == old(pool).entries_view().filter(
                |e: MempoolEntry| !swept_failures@.map_values(|f: BuildFailure| f.transaction_hash).contains(e.transaction_hash),
            ),
            final(pool).proposal_view() == old(pool).proposal_view(),
            final(pool).selection_counter_view() == old(pool).selection_counter_view(),
            final(pool).config_view() == old(pool).config_view(),
            final(pool).next_arrival_view() == old(pool).next_arrival_view(),
            final(pool).registry_view() == old(pool).registry_view(),
    {
        let mut outcome = BuildOutcome::new();
        let ghost es0 = pool.entries_view();
        let ghost hs = swept_failures@.map_values(|f: BuildFailure| f.transaction_hash);
        proof {
            let pred = |e: MempoolEntry| !hs.take(0).contains(e.transaction_hash);
            assert forall|i: int| 0 <= i < es0.len() implies pred(#[trigger] es0[i]) by {}
            crate::mempool::lemma_filter_keeps_all(es0, pred);
        }
        let mut k: usize = 0;
        while k < swept_failures.len()
            invariant
                pool.wf(),
                k <= swept_failures@.len(),
                hs == swept_failures@.map_values(|f: BuildFailure| f.transaction_hash),
                pool.entries_view() == es0.filter(|e: MempoolEntry| !hs.take(k as int).contains(e.transaction_hash)),
                outcome.rejected@ == swept_failures@.take(k as int),
                outcome.swept_stale_hashes@ == hs.take(k as int),
                outcome.selected@.len() == 0,
                outcome.pre_confirmed@.len() == 0,
                outcome.blocked@.len() == 0,
                pool.proposal_view() == old(pool).proposal_view(),
                pool.selection_counter_view() == old(pool).selection_counter_view(),
                pool.config_view() == old(pool).config_view(),
                pool.next_arrival_view() == old(pool).next_arrival_view(),
                pool.registry_view() == old(pool).registry_view(),
            decreases swept_failures@.len() - k,
        {
            let failure = swept_failures[k].duplicate();
            let h = failure.transaction_hash;
            proof {
                assert(h == hs[k as int]);
                pool.lemma_wf(h);
                crate::mempool::lemma_remove_one_more(pool.entries_view(), es0, hs, k as int);
            }
            pool.remove_entry(&h);
            outcome.swept_stale_hashes.push(h);
            outcome.rejected.push(failure);
            proof {
                assert(swept_failures@.take(k + 1) =~= swept_failures@.take(k as int).push(swept_failures@[k as int]));
                assert(hs.take(k + 1) =~= hs.take(k as int).push(h));
            }
            k = k + 1;
        }
        proof {
            assert(swept_failures@.take(k as int) =~= swept_failures@);
            assert(hs.take(k as int) =~= hs);
        }
        proof {
            assert(outcome.selected@ =~= transaction_hashes@.take(0));
            lemma_subsequence_of_empty(outcome.selected@);
            assert(outcome.pre_confirmed@ =~= Seq::<Felt>::empty());
            assert(failure_hashes(outcome.blocked@) =~= Seq::<Felt>::empty());
            assert(failure_hashes(outcome.rejected@).take(outcome.swept_stale_hashes@.len() as int) =~= outcome.swept_stale_hashes@);
        }
        ForcedChunk { outcome, hashes: transaction_hashes, next: 0 }
    }

    /// The next hash to process, or `Done` when all were processed or the block is full.
    pub fn next_step(&self, pool: &Mempool) -> (r: ChunkStep)
        ensures
            self.next_view() >= self.hashes_view().len() || pool.remaining_capacity_view() == 0 ==> r == ChunkStep::Done,
            self.next_view() < self.hashes_view().len() && pool.remaining_capacity_view() > 0 ==> r == ChunkStep::Process(
                self.hashes_view()[self.next_view() as int],
            ),
    {
        if self.next >= self.hashes.len() || pool.remaining_capacity() == 0 {
            ChunkStep::Done
        } else {
            ChunkStep::Process(self.hashes[self.next])
        }
    }

    /// Records the processing of the hash that [`ForcedChunk::next_step`] asked for.
    pub fn process(&mut self, pool: &mut Mempool, result: ProcessingResult)
        requires
            old(pool).wf(),
            old(self).wf(),
            old(self).next_view() < old(self).hashes_view().len(),
        ensures
            final(pool).wf(),
            final(self).wf(),
            outcome_records(old(self).outcome_view(), final(self).outcome_view(), old(self).hashes_view()[old(self).next_view() as int], result),
            final(self).hashes_view() == old(self).hashes_view(),
            final(self).next_view() == old(self).next_view() + 1,
            final(pool).proposal_view() == old(pool).proposal_view(),
            final(pool).config_view() == old(pool).config_view(),
            removes_transaction(result) ==> final(pool).entries_view() == crate::mempool::removed_by_hash(
                old(pool).entries_view(),
                old(self).hashes_view()[old(self).next_view() as int],
            ),
            !removes_transaction(result) ==> final(pool).entries_view() == old(pool).entries_view(),
    {
        let count = self.hashes.len();
        let hash = self.hashes[self.next];
        let ghost before = self.outcome;
        process_selected(&mut self.outcome, pool, hash, result);
        proof {
            lemma_records_keep_drawn(before, self.outcome, hash, result);
            let sw = before.swept_stale_hashes@.len() as int;
            assert(failure_hashes(self.outcome.rejected@).take(sw)
                =~= failure_hashes(self.outcome.rejected@).take(before.rejected@.len() as int).take(sw));
            assert(self.next < count);
            assert(self.hashes@.take(self.next + 1) =~= self.hashes@.take(self.next as int).push(hash));
        }
        self.next = self.next + 1;
    }

    /// The chunk's outcome; the block is full when the proposal has no room left.
    pub fn finish(self, pool: &Mempool) -> (r: BuildOutcome)
        ensures
            r.selected@ == self.outcome_view().selected@,
            r.pre_confirmed@ == self.outcome_view().pre_confirmed@,
            r.rejected@ == self.outcome_view().rejected@,
            r.blocked@ == self.outcome_view().blocked@,
            r.swept_stale_hashes@ == self.outcome_view().swept_stale_hashes@,
            r.block_full == (pool.remaining_capacity_view() == 0),
    {
        let mut outcome = self.outcome;
        outcome.block_full = pool.remaining_capacity() == 0;
        outcome
    }
}


/// Why a forced selection is refused: a problem with the selected hashes, then with the
/// swept hashes, then with sweeping them.
pub open spec fn forced_error(
    pool: Mempool,
    selected: Seq<Felt>,
    swept: Seq<Felt>,
    eligibility: Seq<TransactionEligibility>,
) -> Option<MempoolError> {
    match preflight_error(pool, selected) {
        Some(e) => Some(e),
        None => match preflight_error(pool, swept) {
            Some(e) => Some(e),
            None => swept_error(selected, swept, eligibility),
        },
    }
}

/// The open proposal as block building sees it.
#[derive(Debug, PartialEq, Eq)]
pub struct BlockBuilderProgress {
    pub pre_confirmed_transaction_hashes: Vec<Felt>,
    pub remaining_block_capacity: usize,
}

/// Entry point of block building over a pool: reports progress and starts chunks.
///
/// System-lane transactions are selected FIFO before user ordering policies are consulted.
/// User ordering policies choose from a fixed eligible-head snapshot for up to
/// [`POLICY_SELECTION_ROUND_SIZE`] selections; account successors exposed by execution enter
/// the next selection round. Capacity, eligibility and lifecycle rules stay with the builder,
/// whatever a policy returns.
#[derive(Debug)]
pub struct BlockBuilder;

impl BlockBuilder {
    pub fn new() -> (r: Self) {
        BlockBuilder
    }

    /// The hashes of the open proposal and the room left in the block.
    pub fn progress(&self, pool: &Mempool) -> (r: BlockBuilderProgress)
        ensures
            r.pre_confirmed_transaction_hashes@ == pool.proposal_view(),
            r.remaining_block_capacity == pool.remaining_capacity_view(),
    {
        let hashes = pool.proposal_hashes();
        let mut copy: Vec<Felt> = Vec::new();
        let mut i: usize = 0;
        while i < hashes.len()
            invariant
                i <= hashes@.len(),
                copy@ == hashes@.take(i as int),
            decreases hashes@.len() - i,
        {
            copy.push(hashes[i]);
            proof {
                assert(hashes@.take(i + 1) =~= hashes@.take(i as int).push(hashes@[i as int]));
            }
            i = i + 1;
        }
        proof {
            assert(hashes@.take(i as int) =~= hashes@);
        }
        BlockBuilderProgress { pre_confirmed_transaction_hashes: copy, remaining_block_capacity: pool.remaining_capacity() }
    }

    /// Starts a chunk chosen by an ordering policy, with at most `max_transactions`
    /// selections.
    pub fn build_policy_chunk(&self, max_transactions: Option<usize>) -> (r: PolicyChunk)
        ensures
            r.wf(),
            r.attempts_view() == 0,
            r.limit_view() == (match max_transactions {
                Some(m) => m,
                None => usize::MAX,
            }),
            r.round_view().hashes_view().len() == 0,
            r.round_view().selection_count() == 0,
            !r.round_view().is_exhausted(),
            r.outcome_view().selected@.len() == 0,
            r.outcome_view().pre_confirmed@.len() == 0,
            r.outcome_view().rejected@.len() == 0,
            r.outcome_view().blocked@.len() == 0,
            r.outcome_view().swept_stale_hashes@.len() == 0,
            !r.outcome_view().block_full,
    {
        PolicyChunk::new(max_transactions)
    }

    /// Starts a chunk of caller-chosen hashes. Both hash lists must be free of repeats and
    /// name RECEIVED transactions; the swept hashes must be stale (as `swept_eligibility`
    /// says, position by position) and not selected. On success the swept transactions have
    /// left the pool and are recorded as rejected.
    pub fn build_forced_chunk(
        &self,
        pool: &mut Mempool,
        forced: ForcedHashSelection,
        swept_eligibility: &[TransactionEligibility],
    ) -> (r: Result<ForcedChunk, MempoolError>)
        requires
            old(pool).wf(),
            swept_eligibility@.len() == forced.swept_stale_hashes@.len(),
        ensures
            final(pool).wf(),
            final(pool).proposal_view() == old(pool).proposal_view(),
            final(pool).config_view() == old(pool).config_view(),
            final(pool).selection_counter_view() == old(pool).selection_counter_view(),
            final(pool).next_arrival_view() == old(pool).next_arrival_view(),
            final(pool).registry_view() == old(pool).registry_view(),
            match forced_error(*old(pool), forced.transaction_hashes@, forced.swept_stale_hashes@, swept_eligibility@) {
                Some(e) => r == Err::<ForcedChunk, MempoolError>(e) && final(pool).entries_view() == old(pool).entries_view(),
                None => r matches Ok(chunk) && {
                    &&& chunk.wf()
                    &&& chunk.hashes_view() == forced.transaction_hashes@
                    &&& chunk.next_view() == 0
                    &&& chunk.outcome_view().swept_stale_hashes@ == forced.swept_stale_hashes@
                    &&& chunk.outcome_view().rejected@.map_values(|f: BuildFailure| f.transaction_hash) == forced.swept_stale_hashes@
                    &&& forall|i: int| 0 <= i < chunk.outcome_view().rejected@.len() ==> swept_eligibility@[i]
                        == TransactionEligibility::Stale((#[trigger] chunk.outcome_view().rejected@[i]).reason)
                    &&& chunk.outcome_view().selected@.len() == 0
                    &&& chunk.outcome_view().pre_confirmed@.len() == 0
                    &&& chunk.outcome_view().blocked@.len() == 0
                    &&& final(pool).entries_view() == old(pool).entries_view().filter(
                        |e: MempoolEntry| !forced.swept_stale_hashes@.contains(e.transaction_hash),
                    )
                },
            },
    {
        match preflight_forced_hashes(pool, forced.transaction_hashes.as_slice()) {
            Ok(()) => {},
            Err(e) => {
                return Err(e);
            },
        }
        match preflight_forced_hashes(pool, forced.swept_stale_hashes.as_slice()) {
            Ok(()) => {},
            Err(e) => {
                return Err(e);
            },
        }
        let failures = match check_swept(
            forced.transaction_hashes.as_slice(),
            forced.swept_stale_hashes.as_slice(),
            swept_eligibility,
        ) {
            Ok(f) => f,
            Err(e) => {
                return Err(e);
            },
        };
        proof {
            assert(failures@.map_values(|f: BuildFailure| f.transaction_hash) =~= forced.swept_stale_hashes@);
        }
        Ok(ForcedChunk::start(pool, forced.transaction_hashes, failures))
    }
}

impl Default for BlockBuilder {
    fn default() -> (r: Self) {
        BlockBuilder::new()
    }
}

} // verus!
