//! Names of ordering policies and the pool's configuration.
use vstd::prelude::*;

verus! {

/// A character allowed in a policy name: lowercase ASCII letter, digit, `-` or `_`.
pub open spec fn is_policy_name_char(c: char) -> bool {
    ('a' <= c && c <= 'z') || ('0' <= c && c <= '9') || c == '-' || c == '_'
}

/// A valid policy name is non-empty and made of allowed characters only.
pub open spec fn is_policy_name(s: Seq<char>) -> bool {
    s.len() > 0 && forall|i: int| 0 <= i < s.len() ==> is_policy_name_char(#[trigger] s[i])
}

/// The name under which an ordering policy is registered and configured.
#[derive(Debug, PartialEq, Eq, Hash)]
pub struct MempoolOrdering(String);

impl View for MempoolOrdering {
    type V = Seq<char>;

    closed spec fn view(&self) -> Seq<char> {
        self.0@
    }
}

/// Name of the built-in first-in-first-out policy.
pub const FIFO: &'static str = "fifo";

/// Name of the built-in policy that mirrors Starknet's fee-priority queue.
pub const STARKNET: &'static str = "starknet";

/// Name of the built-in seeded pseudo-random policy.
pub const RANDOM: &'static str = "random";

pub open spec fn fifo_name() -> Seq<char> {
    seq!['f', 'i', 'f', 'o']
}

pub open spec fn starknet_name() -> Seq<char> {
    seq!['s', 't', 'a', 'r', 'k', 'n', 'e', 't']
}

pub open spec fn random_name() -> Seq<char> {
    seq!['r', 'a', 'n', 'd', 'o', 'm']
}

/// One of the names of the built-in policies.
pub open spec fn is_builtin_name(s: Seq<char>) -> bool {
    s == fifo_name() || s == starknet_name() || s == random_name()
}

/// The built-in names are valid policy names, so a configuration that names a built-in
/// policy reads back as the same name.
pub proof fn lemma_builtin_names_are_valid(name: Seq<char>)
    requires
        is_builtin_name(name),
    ensures
        is_policy_name(name),
{
    assert forall|i: int| 0 <= i < name.len() implies is_policy_name_char(#[trigger] name[i]) by {
        if name == fifo_name() {
            assert(fifo_name()[i] == name[i]);
        } else if name == starknet_name() {
            assert(starknet_name()[i] == name[i]);
        } else {
            assert(random_name()[i] == name[i]);
        }
    }
}

impl MempoolOrdering {
    pub fn fifo() -> (r: Self)
        ensures
            r@ == fifo_name(),
    {
        proof {
            reveal_strlit("fifo");
        }
        MempoolOrdering(FIFO.to_owned())
    }

    pub fn starknet() -> (r: Self)
        ensures
            r@ == starknet_name(),
    {
        proof {
            reveal_strlit("starknet");
        }
        MempoolOrdering(STARKNET.to_owned())
    }

    pub fn random() -> (r: Self)
        ensures
            r@ == random_name(),
    {
        proof {
            reveal_strlit("random");
        }
        MempoolOrdering(RANDOM.to_owned())
    }

    pub fn as_str(&self) -> (r: &str)
        ensures
            r@ == self@,
    {
        self.0.as_str()
    }

    /// Whether two names are the same.
    pub fn same_as(&self, other: &MempoolOrdering) -> (r: bool)
        ensures
            r == (self@ == other@),
    {
        self.0 == other.0
    }

    /// Accepts a policy name made only of lowercase ASCII letters, digits, `-` and `_`.
    pub fn parse(value: &str) -> (r: Result<MempoolOrdering, String>)
        ensures
            r is Ok <==> is_policy_name(value@),
            r matches Ok(name) ==> name@ == value@,
    {
        let mut all_allowed = true;
        let ghost chars = value@;
        for c in it: value.chars()
            invariant
                it.seq() == chars,
                all_allowed <==> forall|j: int| 0 <= j < it.index() ==> is_policy_name_char(#[trigger] chars[j]),
        {
            let allowed = ('a' <= c && c <= 'z') || ('0' <= c && c <= '9') || c == '-' || c == '_';
            all_allowed = all_allowed && allowed;
        }
        if value.is_empty() || !all_allowed {
            return Err(
                "policy names must contain only lowercase ASCII letters, digits, '-' or '_'".to_owned(),
            );
        }
        Ok(MempoolOrdering(value.to_owned()))
    }

    /// A name with the same characters.
    pub fn duplicate(&self) -> (r: Self)
        ensures
            r@ == self@,
    {
        MempoolOrdering(self.0.clone())
    }
}


impl Default for MempoolOrdering {
    fn default() -> (r: Self)
        ensures
            r@ == fifo_name(),
    {
        MempoolOrdering::fifo()
    }
}

impl Clone for MempoolOrdering {
    fn clone(&self) -> (r: Self)
        ensures
            r@ == self@,
    {
        self.duplicate()
    }
}

/// Default number of transactions a block may hold.
pub const DEFAULT_MAX_TRANSACTIONS_PER_BLOCK: usize = 500;

/// How the pool orders and limits the transactions of a block.
#[derive(Debug, PartialEq, Eq)]
pub struct MempoolConfig {
    pub ordering: MempoolOrdering,
    pub random_seed: u64,
    pub max_transactions_per_block: usize,
}

impl MempoolConfig {
    /// The same configuration.
    pub open spec fn same_as(self, other: MempoolConfig) -> bool {
        &&& self.ordering@ == other.ordering@
        &&& self.random_seed == other.random_seed
        &&& self.max_transactions_per_block == other.max_transactions_per_block
    }

    pub fn duplicate(&self) -> (r: Self)
        ensures
            r.same_as(*self),
    {
        MempoolConfig {
            ordering: self.ordering.duplicate(),
            random_seed: self.random_seed,
            max_transactions_per_block: self.max_transactions_per_block,
        }
    }
}

impl Clone for MempoolConfig {
    fn clone(&self) -> (r: Self)
        ensures
            r.same_as(*self),
    {
        self.duplicate()
    }
}

impl Default for MempoolConfig {
    /// FIFO ordering, seed 0 and 500 transactions per block.
    fn default() -> (r: Self)
        ensures
            r.ordering@ == fifo_name(),
            r.random_seed == 0,
            r.max_transactions_per_block == DEFAULT_MAX_TRANSACTIONS_PER_BLOCK,
    {
        MempoolConfig {
            ordering: MempoolOrdering::fifo(),
            random_seed: 0,
            max_transactions_per_block: DEFAULT_MAX_TRANSACTIONS_PER_BLOCK,
        }
    }
}

/// A partial configuration change: only the fields that are `Some` change.
#[derive(Debug, PartialEq, Eq)]
pub struct MempoolConfigUpdate {
    pub ordering: Option<MempoolOrdering>,
    pub random_seed: Option<u64>,
    pub max_transactions_per_block: Option<usize>,
}

impl Default for MempoolConfigUpdate {
    /// An update that changes nothing.
    fn default() -> (r: Self)
        ensures
            r.ordering is None,
            r.random_seed is None,
            r.max_transactions_per_block is None,
    {
        MempoolConfigUpdate { ordering: None, random_seed: None, max_transactions_per_block: None }
    }
}

} // verus!
