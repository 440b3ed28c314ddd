//! Ordering policies: the eligible view they choose from, the built-in policies and the
//! name-to-policy registry.
use vstd::prelude::*;

use crate::comparator::{lemma_ranks, ranks_above, ranks_at_least, starknet_prefers};
use crate::config::{fifo_name, random_name, starknet_name, MempoolConfig, MempoolOrdering};
use crate::entry::MempoolEntry;
use crate::felt::Felt;
use crate::index_map::{table_get, table_lookup, EntryKey};
use indexmap::IndexMap;
use crate::splitmix::{mixed_index, splitmix64};

verus! {

/// The transactions of `hashes` that are pooled, in the order of `hashes`.
pub open spec fn present_entries(table: Seq<(EntryKey, MempoolEntry)>, hashes: Seq<Felt>) -> Seq<MempoolEntry>
    decreases hashes.len(),
{
    if hashes.len() == 0 {
        Seq::empty()
    } else {
        let rest = present_entries(table, hashes.drop_last());
        match table_lookup(table, hashes.last().spec_key()) {
            Some(e) => rest.push(e),
            None => rest,
        }
    }
}

/// Immutable transaction set exposed to an ordering policy: the hashes the builder found
/// eligible, read through the pool.
pub struct EligibleTransactions<'a> {
    entries: &'a IndexMap<(u128, u128), MempoolEntry>,
    hashes: &'a [Felt],
}

impl<'a> EligibleTransactions<'a> {
    /// The pool's entry table the view reads through.
    pub closed spec fn table_view(&self) -> Seq<(EntryKey, MempoolEntry)> {
        crate::index_map::table_pairs(*self.entries)
    }

    /// The pooled entry with hash `h`, if any.
    pub open spec fn lookup(&self, h: Felt) -> Option<MempoolEntry> {
        table_lookup(self.table_view(), h.spec_key())
    }

    pub closed spec fn hash_seq(&self) -> Seq<Felt> {
        self.hashes@
    }

    /// The pooled entries of the view, in the view's order.
    pub open spec fn entry_seq(&self) -> Seq<MempoolEntry> {
        present_entries(self.table_view(), self.hash_seq())
    }

    pub(crate) fn new(entries: &'a IndexMap<(u128, u128), MempoolEntry>, hashes: &'a [Felt]) -> (r: Self)
        ensures
            r.table_view() == crate::index_map::table_pairs(*entries),
            r.hash_seq() == hashes@,
    {
        EligibleTransactions { entries, hashes }
    }

    pub fn is_empty(&self) -> (r: bool)
        ensures
            r == (self.hash_seq().len() == 0),
    {
        self.hashes.len() == 0
    }

    pub fn len(&self) -> (r: usize)
        ensures
            r == self.hash_seq().len(),
    {
        self.hashes.len()
    }

    pub fn hashes(&self) -> (r: &'a [Felt])
        ensures
            r@ == self.hash_seq(),
    {
        self.hashes
    }

    /// The pooled entry of the hash at position `index`, if the position exists and the hash
    /// is pooled.
    pub fn get(&self, index: usize) -> (r: Option<MempoolEntry>)
        ensures
            index < self.hash_seq().len() ==> r == self.lookup(self.hash_seq()[index as int]),
            index >= self.hash_seq().len() ==> r is None,
    {
        if index < self.hashes.len() {
            table_get(self.entries, &self.hashes[index].key())
        } else {
            None
        }
    }

    /// The pooled entries of the view, in order (hashes that are not pooled are skipped).
    pub fn entries(&self) -> (r: Vec<MempoolEntry>)
        ensures
            r@ == self.entry_seq(),
    {
        let mut out: Vec<MempoolEntry> = Vec::new();
        let mut i: usize = 0;
        while i < self.hashes.len()
            invariant
                i <= self.hashes@.len(),
                out@ == present_entries(self.table_view(), self.hashes@.take(i as int)),
            decreases self.hashes@.len() - i,
        {
            let found = table_get(self.entries, &self.hashes[i].key());
            proof {
                assert(self.hashes@.take(i + 1).drop_last() == self.hashes@.take(i as int));
            }
            match found {
                Some(e) => out.push(e),
                None => {},
            }
            i = i + 1;
        }
        proof {
            assert(self.hashes@.take(i as int) == self.hashes@);
        }
        out
    }
}

/// Deterministic block/proposal information supplied to every ordering policy invocation.
#[derive(Clone, Copy, Debug, PartialEq, Eq, Structural)]
pub struct SelectionContext {
    pub block_number: u64,
    pub current_l2_gas_price: u128,
    pub proposal_selection_counter: u64,
    pub random_seed: u64,
}

/// Extension point for transaction ordering.
///
/// Implementations must be deterministic for the supplied transactions and context. The
/// block builder rejects hashes outside `eligible`, whatever a policy returns.
pub trait TransactionOrderingPolicy: Send + Sync {
    fn select(&self, eligible: &EligibleTransactions, context: &SelectionContext) -> Option<Felt>;
}

/// Position `i` of `es` holds the first entry with the smallest arrival position.
pub open spec fn is_first_earliest(es: Seq<MempoolEntry>, i: int) -> bool {
    &&& 0 <= i < es.len()
    &&& forall|j: int| 0 <= j < es.len() ==> es[i].arrival_id <= #[trigger] es[j].arrival_id
    &&& forall|j: int| 0 <= j < i ==> es[i].arrival_id < #[trigger] es[j].arrival_id
}

/// Position `i` of `es` holds the last entry that the Starknet order ranks highest.
pub open spec fn is_last_best(es: Seq<MempoolEntry>, i: int, price: u128) -> bool {
    &&& 0 <= i < es.len()
    &&& forall|j: int| 0 <= j < es.len() ==> ranks_at_least(es[i], #[trigger] es[j], price)
    &&& forall|j: int| i < j < es.len() ==> ranks_above(es[i], #[trigger] es[j], price)
}

/// What the FIFO policy picks from `es`: the hash of the earliest arrival.
pub open spec fn fifo_choice(es: Seq<MempoolEntry>, r: Option<Felt>) -> bool {
    match r {
        None => es.len() == 0,
        Some(h) => exists|i: int| is_first_earliest(es, i) && es[i].transaction_hash == h,
    }
}

/// What the Starknet policy picks from `es`: the hash of the last highest-ranked entry.
pub open spec fn starknet_choice(es: Seq<MempoolEntry>, price: u128, r: Option<Felt>) -> bool {
    match r {
        None => es.len() == 0,
        Some(h) => exists|i: int| is_last_best(es, i, price) && es[i].transaction_hash == h,
    }
}

/// What the random policy picks: nothing from an empty view, else the pooled entry at the
/// position that the seeded mix of seed, block number and selection counter designates.
pub open spec fn random_choice(table: Seq<(EntryKey, MempoolEntry)>, hashes: Seq<Felt>, context: SelectionContext, r: Option<Felt>) -> bool {
    if hashes.len() == 0 {
        r is None
    } else {
        let idx = mixed_index(context.random_seed, context.block_number, context.proposal_selection_counter, hashes.len());
        match table_lookup(table, hashes[idx].spec_key()) {
            Some(e) => r == Some(e.transaction_hash),
            None => r is None,
        }
    }
}

/// What a policy of `kind` may pick from `eligible` in `context`; a caller-supplied policy
/// may pick anything (the block builder checks its pick).
pub open spec fn policy_choice(
    kind: PolicyKind,
    table: Seq<(EntryKey, MempoolEntry)>,
    hashes: Seq<Felt>,
    context: SelectionContext,
    r: Option<Felt>,
) -> bool {
    match kind {
        PolicyKind::Fifo => fifo_choice(present_entries(table, hashes), r),
        PolicyKind::Starknet => starknet_choice(present_entries(table, hashes), context.current_l2_gas_price, r),
        PolicyKind::Random => random_choice(table, hashes, context, r),
        PolicyKind::Custom => true,
    }
}

/// The pick of the built-in policy of `kind`: the one [`policy_choice`] allows.
pub open spec fn builtin_choice(
    kind: PolicyKind,
    table: Seq<(EntryKey, MempoolEntry)>,
    hashes: Seq<Felt>,
    context: SelectionContext,
) -> Option<Felt> {
    choose|r: Option<Felt>| policy_choice(kind, table, hashes, context, r)
}

/// A pick that a built-in policy allows is its pick.
pub proof fn lemma_builtin_choice(
    kind: PolicyKind,
    table: Seq<(EntryKey, MempoolEntry)>,
    hashes: Seq<Felt>,
    context: SelectionContext,
    r: Option<Felt>,
)
    requires
        kind != PolicyKind::Custom,
        policy_choice(kind, table, hashes, context, r),
    ensures
        r == builtin_choice(kind, table, hashes, context),
{
    let c = builtin_choice(kind, table, hashes, context);
    assert(policy_choice(kind, table, hashes, context, c));
    lemma_builtin_choice_is_unique(kind, table, hashes, context, r, c);
}

/// The built-in policies are deterministic: on the same eligible view and selection context
/// they can only pick one transaction, so a replay picks the same sequence.
pub proof fn lemma_builtin_choice_is_unique(
    kind: PolicyKind,
    table: Seq<(EntryKey, MempoolEntry)>,
    hashes: Seq<Felt>,
    context: SelectionContext,
    first: Option<Felt>,
    second: Option<Felt>,
)
    requires
        kind != PolicyKind::Custom,
        policy_choice(kind, table, hashes, context, first),
        policy_choice(kind, table, hashes, context, second),
    ensures
        first == second,
{
    let es = present_entries(table, hashes);
    let price = context.current_l2_gas_price;
    match kind {
        PolicyKind::Fifo => {
            if first is Some && second is Some {
                let i = choose|i: int| is_first_earliest(es, i) && es[i].transaction_hash == first->0;
                let j = choose|j: int| is_first_earliest(es, j) && es[j].transaction_hash == second->0;
                if i < j {
                    assert(es[j].arrival_id < es[i].arrival_id);
                } else if j < i {
                    assert(es[i].arrival_id < es[j].arrival_id);
                }
            }
        },
        PolicyKind::Starknet => {
            if first is Some && second is Some {
                let i = choose|i: int| is_last_best(es, i, price) && es[i].transaction_hash == first->0;
                let j = choose|j: int| is_last_best(es, j, price) && es[j].transaction_hash == second->0;
                lemma_ranks(es[i], es[j], es[j], price);
                lemma_ranks(es[j], es[i], es[i], price);
                if i < j {
                    assert(ranks_above(es[i], es[j], price));
                    assert(ranks_at_least(es[j], es[i], price));
                } else if j < i {
                    assert(ranks_above(es[j], es[i], price));
                    assert(ranks_at_least(es[i], es[j], price));
                }
            }
        },
        _ => {},
    }
}

/// First-in-first-out: the earliest arrival among the eligible transactions.
#[derive(Clone, Copy, Debug)]
pub struct FifoOrderingPolicy;

/// Starknet fee priority: see [`starknet_comparator`].
#[derive(Clone, Copy, Debug)]
pub struct StarknetOrderingPolicy;

/// Seeded pseudo-random choice, reproducible from the selection context.
#[derive(Clone, Copy, Debug)]
pub struct RandomOrderingPolicy;

pub fn fifo_select(eligible: &EligibleTransactions) -> (r: Option<Felt>)
    ensures
        fifo_choice(eligible.entry_seq(), r),
{
    let es = eligible.entries();
    if es.len() == 0 {
        return None;
    }
    let mut best: usize = 0;
    let mut i: usize = 1;
    while i < es.len()
        invariant
            1 <= i <= es@.len(),
            best < i,
            is_first_earliest(es@.take(i as int), best as int),
        decreases es@.len() - i,
    {
        if es[i].arrival_id < es[best].arrival_id {
            best = i;
        }
        proof {
            let t = es@.take(i + 1);
            assert forall|j: int| 0 <= j < t.len() implies t[best as int].arrival_id <= #[trigger] t[j].arrival_id by {
                if j < i {
                    assert(t[j] == es@.take(i as int)[j]);
                }
            }
            assert forall|j: int| 0 <= j < best implies t[best as int].arrival_id < #[trigger] t[j].arrival_id by {
                assert(t[j] == es@.take(i as int)[j]);
            }
        }
        i = i + 1;
    }
    proof {
        assert(es@.take(i as int) == es@);
    }
    Some(es[best].transaction_hash)
}

pub fn starknet_select(eligible: &EligibleTransactions, context: &SelectionContext) -> (r: Option<Felt>)
    ensures
        starknet_choice(eligible.entry_seq(), context.current_l2_gas_price, r),
{
    let es = eligible.entries();
    let price = context.current_l2_gas_price;
    if es.len() == 0 {
        return None;
    }
    let mut best: usize = 0;
    let mut i: usize = 1;
    while i < es.len()
        invariant
            1 <= i <= es@.len(),
            best < i,
            price == context.current_l2_gas_price,
            is_last_best(es@.take(i as int), best as int, price),
        decreases es@.len() - i,
    {
        let old_best = best;
        let keep = starknet_prefers(&es[best], &es[i], price);
        if !keep {
            best = i;
        }
        proof {
            let prev = es@.take(i as int);
            let t = es@.take(i + 1);
            assert forall|j: int| 0 <= j < t.len() implies ranks_at_least(t[best as int], #[trigger] t[j], price) by {
                lemma_ranks(es@[old_best as int], es@[i as int], es@[i as int], price);
                lemma_ranks(es@[i as int], es@[old_best as int], es@[i as int], price);
                if j < i {
                    assert(t[j] == prev[j]);
                    lemma_ranks(es@[best as int], es@[old_best as int], prev[j], price);
                    lemma_ranks(es@[old_best as int], prev[j], prev[j], price);
                } else {
                    lemma_ranks(es@[best as int], es@[i as int], es@[i as int], price);
                }
            }
            assert forall|j: int| best < j < t.len() implies ranks_above(t[best as int], #[trigger] t[j], price) by {
                if j < i {
                    assert(t[j] == prev[j]);
                }
            }
        }
        i = i + 1;
    }
    proof {
        assert(es@.take(i as int) == es@);
    }
    Some(es[best].transaction_hash)
}

pub fn random_select(eligible: &EligibleTransactions, context: &SelectionContext) -> (r: Option<Felt>)
    ensures
        random_choice(eligible.table_view(), eligible.hash_seq(), *context, r),
{
    if eligible.is_empty() {
        return None;
    }
    let idx = crate::splitmix::mixed_position(context.random_seed, context.block_number, context.proposal_selection_counter, eligible.len());
    match eligible.get(idx) {
        Some(e) => Some(e.transaction_hash),
        None => None,
    }
}

impl TransactionOrderingPolicy for FifoOrderingPolicy {
    fn select(&self, eligible: &EligibleTransactions, context: &SelectionContext) -> (r: Option<Felt>)
        ensures
            r == builtin_choice(PolicyKind::Fifo, eligible.table_view(), eligible.hash_seq(), *context),
    {
        let r = fifo_select(eligible);
        proof {
            lemma_builtin_choice(PolicyKind::Fifo, eligible.table_view(), eligible.hash_seq(), *context, r);
        }
        r
    }
}

impl TransactionOrderingPolicy for StarknetOrderingPolicy {
    fn select(&self, eligible: &EligibleTransactions, context: &SelectionContext) -> (r: Option<Felt>)
        ensures
            r == builtin_choice(PolicyKind::Starknet, eligible.table_view(), eligible.hash_seq(), *context),
    {
        let r = starknet_select(eligible, context);
        proof {
            lemma_builtin_choice(PolicyKind::Starknet, eligible.table_view(), eligible.hash_seq(), *context, r);
        }
        r
    }
}

impl TransactionOrderingPolicy for RandomOrderingPolicy {
    fn select(&self, eligible: &EligibleTransactions, context: &SelectionContext) -> (r: Option<Felt>)
        ensures
            r == builtin_choice(PolicyKind::Random, eligible.table_view(), eligible.hash_seq(), *context),
    {
        let r = random_select(eligible, context);
        proof {
            lemma_builtin_choice(PolicyKind::Random, eligible.table_view(), eligible.hash_seq(), *context, r);
        }
        r
    }
}


/// Which policy a registered name stands for.
#[derive(Clone, Copy, Debug, PartialEq, Eq, Structural)]
pub enum PolicyKind {
    Fifo,
    Starknet,
    Random,
    Custom,
}

/// A registered policy: one of the built-in ones, or one supplied by the caller.
pub enum RegisteredPolicy {
    Fifo(FifoOrderingPolicy),
    Starknet(StarknetOrderingPolicy),
    Random(RandomOrderingPolicy),
    Custom(Box<dyn TransactionOrderingPolicy>),
}

impl RegisteredPolicy {
    pub open spec fn kind(&self) -> PolicyKind {
        match self {
            RegisteredPolicy::Fifo(_) => PolicyKind::Fifo,
            RegisteredPolicy::Starknet(_) => PolicyKind::Starknet,
            RegisteredPolicy::Random(_) => PolicyKind::Random,
            RegisteredPolicy::Custom(_) => PolicyKind::Custom,
        }
    }

    /// The policy as a trait object.
    pub fn as_policy(&self) -> &dyn TransactionOrderingPolicy {
        match self {
            RegisteredPolicy::Fifo(p) => p,
            RegisteredPolicy::Starknet(p) => p,
            RegisteredPolicy::Random(p) => p,
            RegisteredPolicy::Custom(p) => &**p,
        }
    }

    /// Runs the policy: a built-in policy picks as [`builtin_choice`] says; a caller-supplied
    /// policy picks whatever its own code returns.
    pub fn select(&self, eligible: &EligibleTransactions, context: &SelectionContext) -> (r: Option<Felt>)
        ensures
            self.kind() != PolicyKind::Custom ==> r == builtin_choice(self.kind(), eligible.table_view(), eligible.hash_seq(), *context),
            policy_choice(self.kind(), eligible.table_view(), eligible.hash_seq(), *context, r),
    {
        let r = match self {
            RegisteredPolicy::Fifo(_) => fifo_select(eligible),
            RegisteredPolicy::Starknet(_) => starknet_select(eligible, context),
            RegisteredPolicy::Random(_) => random_select(eligible, context),
            RegisteredPolicy::Custom(p) => p.select(eligible, context),
        };
        proof {
            if self.kind() != PolicyKind::Custom {
                lemma_builtin_choice(self.kind(), eligible.table_view(), eligible.hash_seq(), *context, r);
            }
        }
        r
    }
}

/// Name-to-policy lookup used by block building. Each name is registered at most once.
pub struct OrderingPolicyRegistry {
    policies: Vec<(MempoolOrdering, RegisteredPolicy)>,
}

impl OrderingPolicyRegistry {
    /// The registered names, in registration order.
    pub closed spec fn names_view(&self) -> Seq<Seq<char>> {
        self.policies@.map_values(|p: (MempoolOrdering, RegisteredPolicy)| p.0@)
    }

    /// No name is registered twice.
    pub closed spec fn wf(&self) -> bool {
        forall|i: int, j: int|
            0 <= i < self.policies@.len() && 0 <= j < self.policies@.len()
                && self.policies@[i].0@ == self.policies@[j].0@ ==> i == j
    }

    pub closed spec fn has_policy(&self, name: Seq<char>) -> bool {
        exists|i: int| 0 <= i < self.policies@.len() && self.policies@[i].0@ == name
    }

    /// The kind of policy registered under `name`, if any.
    pub closed spec fn policy_kind(&self, name: Seq<char>) -> Option<PolicyKind> {
        if self.has_policy(name) {
            Some(self.registered(name).kind())
        } else {
            None
        }
    }

    /// The policy registered under `name` (meaningful when `has_policy(name)`).
    pub closed spec fn registered(&self, name: Seq<char>) -> RegisteredPolicy {
        self.policies@[choose|i: int| 0 <= i < self.policies@.len() && self.policies@[i].0@ == name].1
    }

    /// The names the registry lists are exactly the names it resolves, each to a policy.
    pub proof fn lemma_names(&self, name: Seq<char>)
        ensures
            self.has_policy(name) == self.names_view().contains(name),
            self.has_policy(name) == (self.policy_kind(name) is Some),
    {
        if self.has_policy(name) {
            let i = choose|i: int| 0 <= i < self.policies@.len() && self.policies@[i].0@ == name;
            assert(self.names_view()[i] == name);
        }
        if self.names_view().contains(name) {
            let i = choose|i: int| 0 <= i < self.names_view().len() && self.names_view()[i] == name;
            assert(self.policies@[i].0@ == name);
        }
    }

    /// A registry without any policy.
    pub fn empty() -> (r: Self)
        ensures
            r.wf(),
            r.names_view() == Seq::<Seq<char>>::empty(),
            forall|n: Seq<char>| !r.has_policy(n),
    {
        OrderingPolicyRegistry { policies: Vec::new() }
    }

    fn find(&self, name: &MempoolOrdering) -> (r: Option<usize>)
        ensures
            r matches Some(i) ==> i < self.policies@.len() && self.policies@[i as int].0@ == name@,
            r is None ==> !self.has_policy(name@),
    {
        let mut i: usize = 0;
        while i < self.policies.len()
            invariant
                i <= self.policies@.len(),
                forall|j: int| 0 <= j < i ==> self.policies@[j].0@ != name@,
            decreases self.policies@.len() - i,
        {
            if self.policies[i].0.same_as(name) {
                return Some(i);
            }
            i = i + 1;
        }
        None
    }

    fn put(&mut self, name: MempoolOrdering, policy: RegisteredPolicy)
        requires
            old(self).wf(),
        ensures
            final(self).wf(),
            final(self).has_policy(name@),
            final(self).policy_kind(name@) == Some(policy.kind()),
            forall|n: Seq<char>| n != name@ ==> final(self).has_policy(n) == old(self).has_policy(n)
                && final(self).policy_kind(n) == old(self).policy_kind(n),
            final(self).registered(name@) == policy,
            forall|n: Seq<char>| n != name@ && old(self).has_policy(n) ==> final(self).registered(n) == old(self).registered(n),
            old(self).has_policy(name@) ==> final(self).names_view() == old(self).names_view(),
            !old(self).has_policy(name@) ==> final(self).names_view() == old(self).names_view().push(name@),
    {
        let ghost kind = policy.kind();
        let ghost nm = name@;
        match self.find(&name) {
            Some(i) => {
                self.policies.set(i, (name, policy));
                proof {
                    assert(self.policies@[i as int].0@ == nm);
                    assert(self.names_view() =~= old(self).names_view());
                    assert forall|n: Seq<char>| n != nm implies self.has_policy(n) == old(self).has_policy(n)
                        && self.policy_kind(n) == old(self).policy_kind(n) by {
                        if self.has_policy(n) {
                            let k = choose|k: int| 0 <= k < self.policies@.len() && self.policies@[k].0@ == n;
                            assert(old(self).policies@[k].0@ == n);
                        }
                        if old(self).has_policy(n) {
                            let k = choose|k: int| 0 <= k < old(self).policies@.len() && old(self).policies@[k].0@ == n;
                            assert(self.policies@[k].0@ == n);
                        }
                    }
                }
            },
            None => {
                self.policies.push((name, policy));
                proof {
                    let last = self.policies@.len() - 1;
                    assert(self.policies@[last].0@ == nm);
                    assert(self.names_view() =~= old(self).names_view().push(nm));
                    assert forall|n: Seq<char>| n != nm implies self.has_policy(n) == old(self).has_policy(n)
                        && self.policy_kind(n) == old(self).policy_kind(n) by {
                        if self.has_policy(n) {
                            let k = choose|k: int| 0 <= k < self.policies@.len() && self.policies@[k].0@ == n;
                            assert(old(self).policies@[k].0@ == n);
                        }
                        if old(self).has_policy(n) {
                            let k = choose|k: int| 0 <= k < old(self).policies@.len() && old(self).policies@[k].0@ == n;
                            assert(self.policies@[k].0@ == n);
                        }
                    }
                }
            },
        }
    }

    /// Registers `policy` under `name`, replacing what was registered under that name.
    pub fn register<P: TransactionOrderingPolicy + 'static>(&mut self, name: MempoolOrdering, policy: P)
        requires
            old(self).wf(),
        ensures
            final(self).wf(),
            final(self).policy_kind(name@) == Some(PolicyKind::Custom),
            final(self).registered(name@) == RegisteredPolicy::Custom(Box::new(policy)),
            forall|n: Seq<char>| n != name@ ==> final(self).has_policy(n) == old(self).has_policy(n)
                && final(self).policy_kind(n) == old(self).policy_kind(n),
            forall|n: Seq<char>| n != name@ && old(self).has_policy(n) ==> final(self).registered(n) == old(self).registered(n),
    {
        self.put(name, RegisteredPolicy::Custom(Box::new(policy)));
    }

    pub fn contains(&self, name: &MempoolOrdering) -> (r: bool)
        ensures
            r == self.has_policy(name@),
    {
        self.find(name).is_some()
    }

    /// The registered policy for `name`, if any.
    pub fn resolve_registered(&self, name: &MempoolOrdering) -> (r: Option<&RegisteredPolicy>)
        requires
            self.wf(),
        ensures
            r is Some <==> self.has_policy(name@),
            r matches Some(p) ==> self.policy_kind(name@) == Some(p.kind()) && *p == self.registered(name@),
    {
        match self.find(name) {
            Some(i) => {
                proof {
                    let k = choose|k: int| 0 <= k < self.policies@.len() && self.policies@[k].0@ == name@;
                    assert(k == i);
                }
                Some(&self.policies[i].1)
            },
            None => None,
        }
    }

    /// The registered policy for `name` as a trait object, if any.
    pub fn resolve(&self, name: &MempoolOrdering) -> (r: Option<&dyn TransactionOrderingPolicy>)
        requires
            self.wf(),
        ensures
            r is Some <==> self.has_policy(name@),
    {
        match self.resolve_registered(name) {
            Some(p) => Some(p.as_policy()),
            None => None,
        }
    }

    /// The registered names, in registration order.
    pub fn names(&self) -> (r: Vec<MempoolOrdering>)
        ensures
            r@.map_values(|n: MempoolOrdering| n@) == self.names_view(),
    {
        let mut out: Vec<MempoolOrdering> = Vec::new();
        let mut i: usize = 0;
        while i < self.policies.len()
            invariant
                i <= self.policies@.len(),
                out@.len() == i,
                forall|j: int| 0 <= j < i ==> (#[trigger] out@[j])@ == self.policies@[j].0@,
            decreases self.policies@.len() - i,
        {
            out.push(self.policies[i].0.duplicate());
            i = i + 1;
        }
        proof {
            assert(out@.map_values(|n: MempoolOrdering| n@) =~= self.names_view());
        }
        out
    }
}

impl Default for OrderingPolicyRegistry {
    /// The built-in policies under their built-in names.
    fn default() -> (r: Self)
        ensures
            r.wf(),
            r.policy_kind(fifo_name()) == Some(PolicyKind::Fifo),
            r.policy_kind(starknet_name()) == Some(PolicyKind::Starknet),
            r.policy_kind(random_name()) == Some(PolicyKind::Random),
            forall|n: Seq<char>| r.has_policy(n) <==> (n == fifo_name() || n == starknet_name() || n == random_name()),
            r.names_view() == seq![fifo_name(), starknet_name(), random_name()],
    {
        let mut registry = OrderingPolicyRegistry::empty();
        registry.put(MempoolOrdering::fifo(), RegisteredPolicy::Fifo(FifoOrderingPolicy));
        registry.put(MempoolOrdering::starknet(), RegisteredPolicy::Starknet(StarknetOrderingPolicy));
        registry.put(MempoolOrdering::random(), RegisteredPolicy::Random(RandomOrderingPolicy));
        proof {
            assert(fifo_name() != starknet_name());
            assert(fifo_name() != random_name());
            assert(starknet_name() != random_name());
        }
        registry
    }
}


/// Adapter that runs the built-in policy named in a configuration, with that
/// configuration's seed.
#[derive(Debug)]
pub struct ConfiguredOrderingPolicy {
    ordering: MempoolOrdering,
    random_seed: u64,
}

impl ConfiguredOrderingPolicy {
    pub closed spec fn ordering_view(&self) -> Seq<char> {
        self.ordering@
    }

    pub closed spec fn seed_view(&self) -> u64 {
        self.random_seed
    }

    pub fn new(ordering: MempoolOrdering, random_seed: u64) -> (r: Self)
        ensures
            r.ordering_view() == ordering@,
            r.seed_view() == random_seed,
    {
        ConfiguredOrderingPolicy { ordering, random_seed }
    }

    pub fn from_config(config: &MempoolConfig) -> (r: Self)
        ensures
            r.ordering_view() == config.ordering@,
            r.seed_view() == config.random_seed,
    {
        ConfiguredOrderingPolicy::new(config.ordering.duplicate(), config.random_seed)
    }

    /// The built-in policy this adapter runs: by its configured name, `Custom` standing for a
    /// name that is not built in.
    pub open spec fn kind(&self) -> PolicyKind {
        if self.ordering_view() == fifo_name() {
            PolicyKind::Fifo
        } else if self.ordering_view() == starknet_name() {
            PolicyKind::Starknet
        } else if self.ordering_view() == random_name() {
            PolicyKind::Random
        } else {
            PolicyKind::Custom
        }
    }
}

impl TransactionOrderingPolicy for ConfiguredOrderingPolicy {
    fn select(&self, eligible: &EligibleTransactions, context: &SelectionContext) -> (r: Option<Felt>)
        ensures
            eligible.hash_seq().len() == 0 ==> r is None,
            eligible.hash_seq().len() > 0 && self.kind() == PolicyKind::Custom ==> r is None,
            eligible.hash_seq().len() > 0 && self.kind() != PolicyKind::Custom ==> r == builtin_choice(
                self.kind(),
                eligible.table_view(),
                eligible.hash_seq(),
                SelectionContext { random_seed: self.seed_view(), ..*context },
            ),
            eligible.hash_seq().len() > 0 && self.kind() != PolicyKind::Custom ==> policy_choice(
                self.kind(),
                eligible.table_view(),
                eligible.hash_seq(),
                SelectionContext { random_seed: self.seed_view(), ..*context },
                r,
            ),
    {
        if eligible.is_empty() {
            return None;
        }
        let seeded = SelectionContext { random_seed: self.random_seed, ..*context };
        let r = if self.ordering.same_as(&MempoolOrdering::fifo()) {
            fifo_select(eligible)
        } else if self.ordering.same_as(&MempoolOrdering::starknet()) {
            starknet_select(eligible, &seeded)
        } else if self.ordering.same_as(&MempoolOrdering::random()) {
            random_select(eligible, &seeded)
        } else {
            None
        };
        proof {
            if self.kind() != PolicyKind::Custom {
                lemma_builtin_choice(self.kind(), eligible.table_view(), eligible.hash_seq(), seeded, r);
            }
        }
        r
    }
}

} // verus!
