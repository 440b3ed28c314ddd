//! Decisions of the forking-origin forwarder: which origin responses may show L1
//! acceptance, how block tags of forwarded requests are pinned to the forked block, and the
//! simulated L1-acceptance boundary with its cache of transaction block numbers.
use vstd::prelude::*;

use crate::block_cache::{
    cache_capacity, cache_contains, cache_get, cache_has, cache_len, cache_new, cache_pairs, cache_put,
    after_put, touched, cache_position, BlockNumberCache, CacheKey,
};
use crate::felt::Felt;
use crate::json::{
    as_str, as_u64, felt_from_json, felt_of_json, first_member, get_member, has_member, member_felt,
    member_of, member_position, member_value, replace_member_value, str_of, take_member_value, u64_of,
    JsonNumber, JsonValue,
};

verus! {

/// Whether two strings are equal.
pub fn text_eq(a: &str, b: &str) -> (r: bool)
    ensures
        r == (a@ == b@),
{
    a.to_owned() == b.to_owned()
}

/// The origin responses whose statuses are rewritten once blocks are accepted on L1.
#[derive(Clone, Copy, Debug, PartialEq, Eq, Structural)]
pub enum AcceptanceResponseKind {
    Block,
    BlockWithReceipts,
    TransactionReceipt,
    TransactionStatus,
    MessagesStatus,
}

/// The response kind of a JSON-RPC method, if its response carries an acceptance status.
pub open spec fn kind_of_method(method: Seq<char>) -> Option<AcceptanceResponseKind> {
    if method == "starknet_getBlockWithTxHashes"@ || method == "starknet_getBlockWithTxs"@ {
        Some(AcceptanceResponseKind::Block)
    } else if method == "starknet_getBlockWithReceipts"@ {
        Some(AcceptanceResponseKind::BlockWithReceipts)
    } else if method == "starknet_getTransactionReceipt"@ {
        Some(AcceptanceResponseKind::TransactionReceipt)
    } else if method == "starknet_getTransactionStatus"@ {
        Some(AcceptanceResponseKind::TransactionStatus)
    } else if method == "starknet_getMessagesStatus"@ {
        Some(AcceptanceResponseKind::MessagesStatus)
    } else {
        None
    }
}

impl AcceptanceResponseKind {
    pub fn from_method(method: &str) -> (r: Option<AcceptanceResponseKind>)
        ensures
            r == kind_of_method(method@),
    {
        if text_eq(method, "starknet_getBlockWithTxHashes") || text_eq(method, "starknet_getBlockWithTxs") {
            Some(AcceptanceResponseKind::Block)
        } else if text_eq(method, "starknet_getBlockWithReceipts") {
            Some(AcceptanceResponseKind::BlockWithReceipts)
        } else if text_eq(method, "starknet_getTransactionReceipt") {
            Some(AcceptanceResponseKind::TransactionReceipt)
        } else if text_eq(method, "starknet_getTransactionStatus") {
            Some(AcceptanceResponseKind::TransactionStatus)
        } else if text_eq(method, "starknet_getMessagesStatus") {
            Some(AcceptanceResponseKind::MessagesStatus)
        } else {
            None
        }
    }
}


/// Which methods' answers carry an acceptance status, and of what kind: both block methods
/// (with transaction hashes or with full transactions) answer with a block, the
/// block-with-receipts method with a block of receipts, and the receipt, transaction-status
/// and messages-status methods with those; no other method is intercepted.
pub proof fn lemma_response_kind_by_method(method: Seq<char>)
    ensures
        kind_of_method(method) == Some(AcceptanceResponseKind::Block)
            <==> method == "starknet_getBlockWithTxHashes"@ || method == "starknet_getBlockWithTxs"@,
        kind_of_method(method) == Some(AcceptanceResponseKind::BlockWithReceipts)
            <==> method == "starknet_getBlockWithReceipts"@,
        kind_of_method(method) == Some(AcceptanceResponseKind::TransactionReceipt)
            <==> method == "starknet_getTransactionReceipt"@,
        kind_of_method(method) == Some(AcceptanceResponseKind::TransactionStatus)
            <==> method == "starknet_getTransactionStatus"@,
        kind_of_method(method) == Some(AcceptanceResponseKind::MessagesStatus)
            <==> method == "starknet_getMessagesStatus"@,
{
    reveal_strlit("starknet_getBlockWithTxHashes");
    reveal_strlit("starknet_getBlockWithTxs");
    reveal_strlit("starknet_getBlockWithReceipts");
    reveal_strlit("starknet_getTransactionReceipt");
    reveal_strlit("starknet_getTransactionStatus");
    reveal_strlit("starknet_getMessagesStatus");
    assert("starknet_getTransactionReceipt"@.len() != "starknet_getBlockWithTxHashes"@.len());
    assert("starknet_getTransactionReceipt"@.len() != "starknet_getBlockWithTxs"@.len());
    assert("starknet_getTransactionReceipt"@.len() != "starknet_getBlockWithReceipts"@.len());
    assert("starknet_getTransactionStatus"@.len() != "starknet_getBlockWithTxs"@.len());
    assert("starknet_getTransactionStatus"@.len() != "starknet_getTransactionReceipt"@.len());
    assert("starknet_getMessagesStatus"@.len() != "starknet_getBlockWithTxs"@.len());
    assert("starknet_getBlockWithReceipts"@[21] != "starknet_getBlockWithTxHashes"@[21]);
    assert("starknet_getTransactionStatus"@[12] != "starknet_getBlockWithTxHashes"@[12]);
    assert("starknet_getTransactionStatus"@[12] != "starknet_getBlockWithReceipts"@[12]);
}

/// The finality status that origin responses report for blocks accepted on L2.
pub const ACCEPTED_ON_L2: &'static str = "ACCEPTED_ON_L2";

/// The finality status shown once a block is covered by the simulated L1 acceptance.
pub const ACCEPTED_ON_L1: &'static str = "ACCEPTED_ON_L1";

/// The block number that replaces a block tag in a forwarded request, if the tag is
/// replaced: `latest` and `pre_confirmed` become the forked block; `l1_accepted` becomes the
/// simulated L1 boundary, or the forked block when there is none.
pub open spec fn tag_replacement(tag: Option<Seq<char>>, fork_block_number: u64, accepted_on_l1_through: Option<u64>) -> Option<u64> {
    match tag {
        Some(t) => if t == "latest"@ || t == "pre_confirmed"@ {
            Some(fork_block_number)
        } else if t == "l1_accepted"@ {
            Some(
                match accepted_on_l1_through {
                    Some(n) => n,
                    None => fork_block_number,
                },
            )
        } else {
            None
        },
        None => None,
    }
}

/// Forwarded requests are pinned to the forked block: whatever the simulated L1 boundary,
/// `latest` and `pre_confirmed` name the forked block itself; only `l1_accepted` reads the
/// boundary, naming it when there is one and the forked block otherwise; a parameter that
/// is not one of these tags is left alone.
pub proof fn lemma_tags_pin_to_fork(tag: Option<Seq<char>>, fork_block_number: u64, accepted_on_l1_through: Option<u64>)
    ensures
        tag_replacement(Some("latest"@), fork_block_number, accepted_on_l1_through) == Some(fork_block_number),
        tag_replacement(Some("pre_confirmed"@), fork_block_number, accepted_on_l1_through) == Some(fork_block_number),
        tag_replacement(Some("l1_accepted"@), fork_block_number, Some(fork_block_number)) == Some(fork_block_number),
        tag_replacement(Some("l1_accepted"@), fork_block_number, None) == Some(fork_block_number),
        accepted_on_l1_through matches Some(n) ==> tag_replacement(Some("l1_accepted"@), fork_block_number, accepted_on_l1_through) == Some(n),
        tag_replacement(tag, fork_block_number, accepted_on_l1_through) != tag_replacement(tag, fork_block_number, None)
            ==> tag == Some("l1_accepted"@),
        tag_replacement(tag, fork_block_number, accepted_on_l1_through) is Some
            ==> tag == Some("latest"@) || tag == Some("pre_confirmed"@) || tag == Some("l1_accepted"@),
{
    reveal_strlit("latest");
    reveal_strlit("pre_confirmed");
    reveal_strlit("l1_accepted");
    assert("l1_accepted"@.len() != "latest"@.len());
    assert("l1_accepted"@.len() != "pre_confirmed"@.len());
}

/// See [`tag_replacement`]; `tag` is the parameter as a string, `None` when it is not one.
pub fn block_tag_replacement(tag: Option<&str>, fork_block_number: u64, accepted_on_l1_through: Option<u64>) -> (r: Option<u64>)
    ensures
        r == tag_replacement(
            match tag {
                Some(t) => Some(t@),
                None => None,
            },
            fork_block_number,
            accepted_on_l1_through,
        ),
{
    match tag {
        Some(t) => if text_eq(t, "latest") || text_eq(t, "pre_confirmed") {
            Some(fork_block_number)
        } else if text_eq(t, "l1_accepted") {
            Some(
                match accepted_on_l1_through {
                    Some(n) => n,
                    None => fork_block_number,
                },
            )
        } else {
            None
        },
        None => None,
    }
}

/// Position `i` holds the first positional parameter that is a replaceable block tag.
pub open spec fn is_first_tag(params: Seq<JsonValue>, fork_block_number: u64, accepted_on_l1_through: Option<u64>, i: int) -> bool {
    &&& 0 <= i < params.len()
    &&& tag_replacement(str_of(params[i]), fork_block_number, accepted_on_l1_through) is Some
    &&& forall|j: int| 0 <= j < i ==> tag_replacement(str_of(#[trigger] params[j]), fork_block_number, accepted_on_l1_through) is None
}

/// For positional parameters: the first parameter that is a replaceable block tag, with its
/// replacement. Only that one is replaced.
pub fn array_block_id_replacement(params: &[JsonValue], fork_block_number: u64, accepted_on_l1_through: Option<u64>) -> (r: Option<(usize, u64)>)
    ensures
        r is None <==> forall|i: int| 0 <= i < params@.len() ==> tag_replacement(str_of(#[trigger] params@[i]), fork_block_number, accepted_on_l1_through) is None,
        r matches Some((i, n)) ==> {
            &&& is_first_tag(params@, fork_block_number, accepted_on_l1_through, i as int)
            &&& tag_replacement(str_of(params@[i as int]), fork_block_number, accepted_on_l1_through) == Some(n)
        },
{
    let mut i: usize = 0;
    while i < params.len()
        invariant
            i <= params@.len(),
            forall|j: int| 0 <= j < i ==> tag_replacement(str_of(#[trigger] params@[j]), fork_block_number, accepted_on_l1_through) is None,
        decreases params@.len() - i,
    {
        match block_tag_replacement(as_str(&params[i]), fork_block_number, accepted_on_l1_through) {
            Some(n) => {
                return Some((i, n));
            },
            None => {},
        }
        i = i + 1;
    }
    None
}

/// The parameters of a JSON-RPC call: absent, positional, or named.
#[derive(Debug, PartialEq)]
pub enum RequestParams {
    Absent,
    Array(Vec<JsonValue>),
    Object(Vec<(String, JsonValue)>),
}

/// `v` is the block id `{"block_number": n}`.
pub open spec fn is_block_number_id(v: JsonValue, n: u64) -> bool {
    match v {
        JsonValue::Object(members) => {
            &&& members@.len() == 1
            &&& members@[0].0@ == "block_number"@
            &&& members@[0].1 == JsonValue::Number(JsonNumber::Unsigned(n))
        },
        _ => false,
    }
}

/// The block id `{"block_number": n}`.
pub fn block_number_id(n: u64) -> (r: JsonValue)
    ensures
        is_block_number_id(r, n),
{
    let mut members: Vec<(String, JsonValue)> = Vec::new();
    members.push(("block_number".to_owned(), JsonValue::Number(JsonNumber::Unsigned(n))));
    JsonValue::Object(members)
}

/// The parameters with their block tag pinned: the first positional parameter that is a
/// replaceable tag, or the named `block_id` when it is one, becomes
/// `{"block_number": n}` with `n` as [`tag_replacement`] gives it; all else stays.
pub open spec fn origin_block_id_set(old: RequestParams, new: RequestParams, fork_block_number: u64, accepted_on_l1_through: Option<u64>) -> bool {
    match old {
        RequestParams::Absent => new == RequestParams::Absent,
        RequestParams::Array(ps) => if exists|i: int| is_first_tag(ps@, fork_block_number, accepted_on_l1_through, i) {
            let i = choose|i: int| is_first_tag(ps@, fork_block_number, accepted_on_l1_through, i);
            new matches RequestParams::Array(qs) && {
                &&& qs@.len() == ps@.len()
                &&& is_block_number_id(qs@[i], tag_replacement(str_of(ps@[i]), fork_block_number, accepted_on_l1_through)->0)
                &&& forall|j: int| 0 <= j < ps@.len() && j != i ==> qs@[j] == ps@[j]
            }
        } else {
            new == old
        },
        RequestParams::Object(ms) => match member_value(ms@, "block_id"@) {
            Some(v) => match tag_replacement(str_of(v), fork_block_number, accepted_on_l1_through) {
                Some(n) => new matches RequestParams::Object(ms2) && {
                    let p = first_member(ms@, "block_id"@);
                    &&& ms2@.len() == ms@.len()
                    &&& ms2@[p].0 == ms@[p].0
                    &&& is_block_number_id(ms2@[p].1, n)
                    &&& forall|j: int| 0 <= j < ms@.len() && j != p ==> ms2@[j] == ms@[j]
                },
                None => new == old,
            },
            None => new == old,
        },
    }
}

/// Pins the block tag of a forwarded call's parameters to the forked block (or, for
/// `l1_accepted`, to the simulated L1 boundary): see [`origin_block_id_set`].
pub fn with_origin_block_id(params: RequestParams, fork_block_number: u64, accepted_on_l1_through: Option<u64>) -> (r: RequestParams)
    ensures
        origin_block_id_set(params, r, fork_block_number, accepted_on_l1_through),
{
    match params {
        RequestParams::Absent => RequestParams::Absent,
        RequestParams::Array(ps) => match array_block_id_replacement(ps.as_slice(), fork_block_number, accepted_on_l1_through) {
            Some((i, n)) => {
                let ghost old = ps@;
                let mut ps = ps;
                ps.set(i, block_number_id(n));
                proof {
                    let c = choose|k: int| is_first_tag(old, fork_block_number, accepted_on_l1_through, k);
                    assert(is_first_tag(old, fork_block_number, accepted_on_l1_through, c));
                    if c < i {
                        assert(tag_replacement(str_of(old[c]), fork_block_number, accepted_on_l1_through) is None);
                    } else if c > i {
                        assert(tag_replacement(str_of(old[i as int]), fork_block_number, accepted_on_l1_through) is None);
                    }
                }
                RequestParams::Array(ps)
            },
            None => {
                proof {
                    assert forall|i: int| !is_first_tag(ps@, fork_block_number, accepted_on_l1_through, i) by {
                        if 0 <= i < ps@.len() {
                            assert(tag_replacement(str_of(ps@[i]), fork_block_number, accepted_on_l1_through) is None);
                        }
                    }
                }
                RequestParams::Array(ps)
            },
        },
        RequestParams::Object(ms) => match member_position(&ms, "block_id") {
            Some(p) => match block_tag_replacement(as_str(&ms[p].1), fork_block_number, accepted_on_l1_through) {
                Some(n) => RequestParams::Object(replace_member_value(ms, p, block_number_id(n))),
                None => RequestParams::Object(ms),
            },
            None => RequestParams::Object(ms),
        },
    }
}

/// The positional parameter or named `transaction_hash` that names the transaction of a
/// call, if any.
pub fn transaction_hash_param(params: &RequestParams) -> (r: Option<&JsonValue>)
    ensures
        match params {
            RequestParams::Array(ps) => match r {
                Some(v) => ps@.len() > 0 && *v == ps@[0],
                None => ps@.len() == 0,
            },
            RequestParams::Object(ms) => match r {
                Some(v) => member_value(ms@, "transaction_hash"@) == Some(*v),
                None => member_value(ms@, "transaction_hash"@) is None,
            },
            RequestParams::Absent => r is None,
        },
{
    match params {
        RequestParams::Array(ps) => if ps.len() > 0 {
            Some(&ps[0])
        } else {
            None
        },
        RequestParams::Object(ms) => match member_position(ms, "transaction_hash") {
            Some(p) => Some(&ms[p].1),
            None => None,
        },
        RequestParams::Absent => None,
    }
}

/// How an origin response's statuses are rewritten for the simulated L1 acceptance.
#[derive(Clone, Copy, Debug, PartialEq, Eq, Structural)]
pub enum StatusPromotion {
    /// The response stays as it is.
    Unchanged,
    /// The block's `status` is promoted.
    Status,
    /// The block's `status` and the `finality_status` of each receipt in it are promoted.
    StatusAndReceipts,
    /// The `finality_status` is promoted.
    FinalityStatus,
}

/// The rewrite for a response of `kind` about block `block_number` under the boundary
/// `accepted_on_l1_through`: nothing for an unknown block or one past the boundary.
pub open spec fn promotion_for(kind: AcceptanceResponseKind, block_number: Option<u64>, accepted_on_l1_through: u64) -> StatusPromotion {
    match block_number {
        Some(n) => if n > accepted_on_l1_through {
            StatusPromotion::Unchanged
        } else {
            match kind {
                AcceptanceResponseKind::Block => StatusPromotion::Status,
                AcceptanceResponseKind::BlockWithReceipts => StatusPromotion::StatusAndReceipts,
                AcceptanceResponseKind::TransactionReceipt | AcceptanceResponseKind::TransactionStatus => StatusPromotion::FinalityStatus,
                AcceptanceResponseKind::MessagesStatus => StatusPromotion::Unchanged,
            }
        },
        None => StatusPromotion::Unchanged,
    }
}

pub fn status_promotion(kind: AcceptanceResponseKind, block_number: Option<u64>, accepted_on_l1_through: u64) -> (r: StatusPromotion)
    ensures
        r == promotion_for(kind, block_number, accepted_on_l1_through),
{
    match block_number {
        Some(n) => if n > accepted_on_l1_through {
            StatusPromotion::Unchanged
        } else {
            match kind {
                AcceptanceResponseKind::Block => StatusPromotion::Status,
                AcceptanceResponseKind::BlockWithReceipts => StatusPromotion::StatusAndReceipts,
                AcceptanceResponseKind::TransactionReceipt => StatusPromotion::FinalityStatus,
                AcceptanceResponseKind::TransactionStatus => StatusPromotion::FinalityStatus,
                AcceptanceResponseKind::MessagesStatus => StatusPromotion::Unchanged,
            }
        },
        None => StatusPromotion::Unchanged,
    }
}

/// A transaction-status response without a block number needs the transaction's block,
/// looked up by its hash.
pub fn needs_transaction_lookup(kind: AcceptanceResponseKind, response_block_number: Option<u64>) -> (r: bool)
    ensures
        r == (response_block_number is None && kind == AcceptanceResponseKind::TransactionStatus),
{
    response_block_number.is_none() && kind == AcceptanceResponseKind::TransactionStatus
}

/// A status field is promoted only when it reads `ACCEPTED_ON_L2`.
pub fn promotes_status(current: Option<&str>) -> (r: bool)
    ensures
        r == (match current {
            Some(s) => s@ == "ACCEPTED_ON_L2"@,
            None => false,
        }),
{
    match current {
        Some(s) => text_eq(s, ACCEPTED_ON_L2),
        None => false,
    }
}

/// The transaction a call names: its first positional parameter or its `transaction_hash`
/// member, read as a field element.
pub open spec fn call_transaction_hash(params: RequestParams) -> Option<Felt> {
    match params {
        RequestParams::Array(ps) => if ps@.len() > 0 {
            felt_of_json(ps@[0])
        } else {
            None
        },
        RequestParams::Object(ms) => match member_value(ms@, "transaction_hash"@) {
            Some(v) => felt_of_json(v),
            None => None,
        },
        RequestParams::Absent => None,
    }
}

/// The hash of the transaction a call names, if its parameter encodes a field element.
pub fn transaction_hash_from_params(params: &RequestParams) -> (r: Option<Felt>)
    ensures
        r == call_transaction_hash(*params),
{
    match transaction_hash_param(params) {
        Some(v) => felt_from_json(v),
        None => None,
    }
}

/// The transaction hash of each message status of an origin answer, in order; an answer
/// that is not an array has no statuses.
pub open spec fn status_hashes_of(value: JsonValue) -> Seq<Option<Felt>> {
    match value {
        JsonValue::Array(ss) => Seq::new(ss@.len(), |k: int| member_felt(ss@[k], "transaction_hash"@)),
        _ => Seq::empty(),
    }
}

/// The transaction hash of each message status of an origin answer, in order.
pub fn message_status_hashes(value: &JsonValue) -> (r: Vec<Option<Felt>>)
    ensures
        r@ == status_hashes_of(*value),
{
    let mut out: Vec<Option<Felt>> = Vec::new();
    match value {
        JsonValue::Array(statuses) => {
            let mut k: usize = 0;
            while k < statuses.len()
                invariant
                    k <= statuses@.len(),
                    out@ =~= status_hashes_of(*value).take(k as int),
                    *value == JsonValue::Array(*statuses),
                decreases statuses@.len() - k,
            {
                let hash = match get_member(&statuses[k], "transaction_hash") {
                    Some(h) => felt_from_json(h),
                    None => None,
                };
                out.push(hash);
                k = k + 1;
            }
        },
        _ => {},
    }
    out
}

/// A message status is promoted when its transaction's block is within the boundary.
pub fn covered_by_boundary(block_number: Option<u64>, accepted_on_l1_through: u64) -> (r: bool)
    ensures
        r == (match block_number {
            Some(n) => n <= accepted_on_l1_through,
            None => false,
        }),
{
    match block_number {
        Some(n) => n <= accepted_on_l1_through,
        None => false,
    }
}

/// The block number an origin response names in its `block_number` member, if it is an
/// unsigned integer.
pub fn block_number_from_response(value: &JsonValue) -> (r: Option<u64>)
    ensures
        r == (match member_of(*value, "block_number"@) {
            Some(v) => u64_of(v),
            None => None,
        }),
{
    match get_member(value, "block_number") {
        Some(v) => as_u64(v),
        None => None,
    }
}

/// `new` is `old` with its `field` member promoted: when `old` is an object whose first
/// `field` member is the string `ACCEPTED_ON_L2`, that member becomes `ACCEPTED_ON_L1`;
/// anything else stays as it is.
pub open spec fn status_promoted(old: JsonValue, field: Seq<char>, new: JsonValue) -> bool {
    match old {
        JsonValue::Object(ms) => if member_value(ms@, field) matches Some(v) && str_of(v) == Some("ACCEPTED_ON_L2"@) {
            new matches JsonValue::Object(ms2) && {
                let p = first_member(ms@, field);
                &&& ms2@.len() == ms@.len()
                &&& ms2@[p].0 == ms@[p].0
                &&& str_of(ms2@[p].1) == Some("ACCEPTED_ON_L1"@)
                &&& forall|j: int| 0 <= j < ms@.len() && j != p ==> ms2@[j] == ms@[j]
            }
        } else {
            new == old
        },
        _ => new == old,
    }
}

/// Promotes the `field` member of `value` from `ACCEPTED_ON_L2` to `ACCEPTED_ON_L1`.
pub fn promote_status(value: JsonValue, field: &str) -> (r: JsonValue)
    ensures
        status_promoted(value, field@, r),
{
    match value {
        JsonValue::Object(members) => match member_position(&members, field) {
            Some(p) => if promotes_status(as_str(&members[p].1)) {
                proof {
                    reveal_strlit("ACCEPTED_ON_L1");
                }
                let promoted = JsonValue::Str(ACCEPTED_ON_L1.to_owned());
                JsonValue::Object(replace_member_value(members, p, promoted))
            } else {
                JsonValue::Object(members)
            },
            None => JsonValue::Object(members),
        },
        other => other,
    }
}

/// `new` is the transaction `old` of a block with its receipt's `finality_status` promoted,
/// when it has a `receipt` member.
pub open spec fn receipt_promoted(old: JsonValue, new: JsonValue) -> bool {
    match old {
        JsonValue::Object(fs) => if has_member(fs@, "receipt"@) {
            new matches JsonValue::Object(fs2) && {
                let p = first_member(fs@, "receipt"@);
                &&& fs2@.len() == fs@.len()
                &&& fs2@[p].0 == fs@[p].0
                &&& status_promoted(fs@[p].1, "finality_status"@, fs2@[p].1)
                &&& forall|j: int| 0 <= j < fs@.len() && j != p ==> fs2@[j] == fs@[j]
            }
        } else {
            new == old
        },
        _ => new == old,
    }
}

/// Promotes the receipt of one transaction of a block.
fn promote_receipt(transaction: JsonValue) -> (r: JsonValue)
    ensures
        receipt_promoted(transaction, r),
{
    match transaction {
        JsonValue::Object(fields) => match member_position(&fields, "receipt") {
            Some(p) => {
                let (fields, receipt) = take_member_value(fields, p);
                let promoted = promote_status(receipt, "finality_status");
                let fields = replace_member_value(fields, p, promoted);
                JsonValue::Object(fields)
            },
            None => JsonValue::Object(fields),
        },
        other => other,
    }
}

/// Promotes the receipt of each transaction, keeping the transactions in order.
fn promote_each_receipt(transactions: Vec<JsonValue>) -> (r: Vec<JsonValue>)
    ensures
        r@.len() == transactions@.len(),
        forall|k: int| 0 <= k < transactions@.len() ==> receipt_promoted(transactions@[k], #[trigger] r@[k]),
{
    let ghost all = transactions@;
    let mut rest = transactions;
    let mut out: Vec<JsonValue> = Vec::new();
    while rest.len() > 0
        invariant
            out@.len() <= all.len(),
            rest@ == all.skip(out@.len() as int),
            forall|k: int| 0 <= k < out@.len() ==> receipt_promoted(all[k], #[trigger] out@[k]),
        decreases rest@.len(),
    {
        let ghost k = out@.len() as int;
        let transaction = rest.remove(0);
        proof {
            assert(transaction == all[k]);
            assert(rest@ =~= all.skip(k + 1));
        }
        out.push(promote_receipt(transaction));
    }
    out
}

/// `new` is the block `old` with the `finality_status` of the receipt of each transaction
/// in its `transactions` array promoted.
pub open spec fn receipts_promoted(old: JsonValue, new: JsonValue) -> bool {
    match old {
        JsonValue::Object(ms) => match member_value(ms@, "transactions"@) {
            Some(JsonValue::Array(ts)) => new matches JsonValue::Object(ms2) && {
                let p = first_member(ms@, "transactions"@);
                &&& ms2@.len() == ms@.len()
                &&& ms2@[p].0 == ms@[p].0
                &&& ms2@[p].1 matches JsonValue::Array(ts2) && ts2@.len() == ts@.len()
                    && forall|k: int| 0 <= k < ts@.len() ==> receipt_promoted(ts@[k], #[trigger] ts2@[k])
                &&& forall|j: int| 0 <= j < ms@.len() && j != p ==> ms2@[j] == ms@[j]
            },
            _ => new == old,
        },
        _ => new == old,
    }
}

/// Promotes the receipts of the transactions of a block.
fn promote_receipts(block: JsonValue) -> (r: JsonValue)
    ensures
        receipts_promoted(block, r),
{
    match block {
        JsonValue::Object(members) => match member_position(&members, "transactions") {
            Some(p) => {
                let is_array = match &members[p].1 {
                    JsonValue::Array(_) => true,
                    _ => false,
                };
                if is_array {
                    let (members, transactions) = take_member_value(members, p);
                    match transactions {
                        JsonValue::Array(ts) => {
                            let promoted = JsonValue::Array(promote_each_receipt(ts));
                            JsonValue::Object(replace_member_value(members, p, promoted))
                        },
                        other => JsonValue::Object(replace_member_value(members, p, other)),
                    }
                } else {
                    JsonValue::Object(members)
                }
            },
            None => JsonValue::Object(members),
        },
        other => other,
    }
}

/// What a rewrite does to a response.
pub open spec fn rewritten(old: JsonValue, promotion: StatusPromotion, new: JsonValue) -> bool {
    match promotion {
        StatusPromotion::Unchanged => new == old,
        StatusPromotion::Status => status_promoted(old, "status"@, new),
        StatusPromotion::StatusAndReceipts => exists|mid: JsonValue|
            #[trigger] status_promoted(old, "status"@, mid) && receipts_promoted(mid, new),
        StatusPromotion::FinalityStatus => status_promoted(old, "finality_status"@, new),
    }
}

/// Rewrites a response of `kind` about block `block_number` (the response's own, or the
/// block of the transaction it is about) for the boundary `accepted_on_l1_through`: see
/// [`promotion_for`] and [`rewritten`].
pub fn intercept_status(value: JsonValue, kind: AcceptanceResponseKind, block_number: Option<u64>, accepted_on_l1_through: u64) -> (r: JsonValue)
    ensures
        rewritten(value, promotion_for(kind, block_number, accepted_on_l1_through), r),
{
    match status_promotion(kind, block_number, accepted_on_l1_through) {
        StatusPromotion::Unchanged => value,
        StatusPromotion::Status => promote_status(value, "status"),
        StatusPromotion::StatusAndReceipts => {
            let ghost old = value;
            let mid = promote_status(value, "status");
            let ghost m = mid;
            let r = promote_receipts(mid);
            proof {
                assert(status_promoted(old, "status"@, m) && receipts_promoted(m, r));
            }
            r
        },
        StatusPromotion::FinalityStatus => promote_status(value, "finality_status"),
    }
}

/// `new` differs from `old` only in the values of members named in `keys`: an object keeps
/// its members, their keys and their order; anything else is unchanged.
pub open spec fn changes_only(old: JsonValue, new: JsonValue, keys: Set<Seq<char>>) -> bool {
    match old {
        JsonValue::Object(ms) => new matches JsonValue::Object(ms2) && {
            &&& ms2@.len() == ms@.len()
            &&& forall|j: int| 0 <= j < ms@.len() ==> (#[trigger] ms2@[j]).0 == ms@[j].0
                && (ms2@[j].1 != ms@[j].1 ==> keys.contains(ms@[j].0@))
        },
        _ => new == old,
    }
}

proof fn lemma_promoted_changes_only(old: JsonValue, field: Seq<char>, new: JsonValue)
    requires
        status_promoted(old, field, new),
    ensures
        changes_only(old, new, set![field]),
{
    if let JsonValue::Object(ms) = old {
        if has_member(ms@, field) {
            crate::json::lemma_first_member(ms@, field);
        }
    }
}

proof fn lemma_receipts_change_only(old: JsonValue, new: JsonValue)
    requires
        receipts_promoted(old, new),
    ensures
        changes_only(old, new, set!["transactions"@]),
{
    if let JsonValue::Object(ms) = old {
        if has_member(ms@, "transactions"@) {
            crate::json::lemma_first_member(ms@, "transactions"@);
        }
    }
}

/// Rewriting a response for the simulated L1 acceptance changes nothing but the status
/// fields it promotes: an object keeps its members, keys and order, and only its `status`,
/// `finality_status` and `transactions` members can differ (the latter only in the
/// `finality_status` of each receipt); any other value is returned as it was.
pub proof fn lemma_interception_changes_only_statuses(old: JsonValue, promotion: StatusPromotion, new: JsonValue)
    requires
        rewritten(old, promotion, new),
    ensures
        changes_only(old, new, set!["status"@, "finality_status"@, "transactions"@]),
{
    let all = set!["status"@, "finality_status"@, "transactions"@];
    match promotion {
        StatusPromotion::Unchanged => {},
        StatusPromotion::Status => {
            lemma_promoted_changes_only(old, "status"@, new);
        },
        StatusPromotion::FinalityStatus => {
            lemma_promoted_changes_only(old, "finality_status"@, new);
        },
        StatusPromotion::StatusAndReceipts => {
            let mid = choose|mid: JsonValue| #[trigger] status_promoted(old, "status"@, mid) && receipts_promoted(mid, new);
            lemma_promoted_changes_only(old, "status"@, mid);
            lemma_receipts_change_only(mid, new);
            if let JsonValue::Object(ms) = old {
                if let JsonValue::Object(mm) = mid {
                    if let JsonValue::Object(ms2) = new {
                        assert forall|j: int| 0 <= j < ms@.len() implies (#[trigger] ms2@[j]).0 == ms@[j].0
                            && (ms2@[j].1 != ms@[j].1 ==> all.contains(ms@[j].0@)) by {
                            assert(mm@[j].0 == ms@[j].0);
                            assert(ms2@[j].0 == mm@[j].0);
                        }
                    }
                }
            }
        },
    }
}

/// `new` is the message-status array `old` with the `finality_status` of each status
/// promoted whose position is marked in `covered`.
pub open spec fn messages_promoted(old: JsonValue, covered: Seq<bool>, new: JsonValue) -> bool {
    match old {
        JsonValue::Array(ss) => new matches JsonValue::Array(ss2) && {
            &&& ss2@.len() == ss@.len()
            &&& forall|k: int| 0 <= k < ss@.len() ==> if k < covered.len() && covered[k] {
                status_promoted(ss@[k], "finality_status"@, #[trigger] ss2@[k])
            } else {
                ss2@[k] == ss@[k]
            }
        },
        _ => new == old,
    }
}

/// Promotes the message statuses whose transactions lie within the simulated L1 boundary;
/// `covered[k]` says so for the status at position `k`.
pub fn promote_message_statuses(value: JsonValue, covered: &[bool]) -> (r: JsonValue)
    ensures
        messages_promoted(value, covered@, r),
{
    match value {
        JsonValue::Array(statuses) => {
            let ghost all = statuses@;
            let total = statuses.len();
            let mut rest = statuses;
            let mut out: Vec<JsonValue> = Vec::new();
            let mut k: usize = 0;
            while rest.len() > 0
                invariant
                    k == out@.len(),
                    total == all.len(),
                    k <= all.len(),
                    rest@ == all.skip(k as int),
                    forall|j: int| 0 <= j < k ==> if j < covered@.len() && covered@[j] {
                        status_promoted(all[j], "finality_status"@, #[trigger] out@[j])
                    } else {
                        out@[j] == all[j]
                    },
                decreases rest@.len(),
            {
                let status = rest.remove(0);
                proof {
                    assert(status == all[k as int]);
                    assert(rest@ =~= all.skip(k + 1));
                }
                if k < covered.len() && covered[k] {
                    out.push(promote_status(status, "finality_status"));
                } else {
                    out.push(status);
                }
                k = k + 1;
            }
            JsonValue::Array(out)
        },
        other => other,
    }
}

/// The boundary after accepting `block_number` on L1: it never moves back.
pub open spec fn raised(current: Option<u64>, block_number: u64) -> Option<u64> {
    match current {
        Some(c) => Some(if c >= block_number { c } else { block_number }),
        None => Some(block_number),
    }
}

pub fn raised_boundary(current: Option<u64>, block_number: u64) -> (r: Option<u64>)
    ensures
        r == raised(current, block_number),
{
    match current {
        Some(c) => Some(if c >= block_number { c } else { block_number }),
        None => Some(block_number),
    }
}

/// The simulated L1 boundary only moves forward: after accepting `block_number` it covers
/// that block and everything it covered before; accepting the same block again changes
/// nothing; and the order in which blocks are accepted does not matter.
pub proof fn lemma_boundary_only_moves_forward(current: Option<u64>, a: u64, b: u64)
    ensures
        raised(current, a) matches Some(n) && n >= a && (current matches Some(c) ==> n >= c),
        raised(raised(current, a), a) == raised(current, a),
        raised(raised(current, a), b) == raised(raised(current, b), a),
{
}

/// A block id as the origin understands it.
#[derive(Clone, Copy, Debug, PartialEq, Eq, Structural)]
pub enum OriginBlockId {
    Hash(Felt),
    Number(u64),
    Latest,
    PreConfirmed,
    L1Accepted,
}

/// The block id to fetch from the origin for a block that is to be accepted on L1: the
/// `latest` and `pre_confirmed` tags stand for the forked block.
pub fn starting_block_id(block_id: OriginBlockId, fork_block_number: u64) -> (r: OriginBlockId)
    ensures
        r == (match block_id {
            OriginBlockId::Latest | OriginBlockId::PreConfirmed => OriginBlockId::Number(fork_block_number),
            other => other,
        }),
{
    match block_id {
        OriginBlockId::Latest => OriginBlockId::Number(fork_block_number),
        OriginBlockId::PreConfirmed => OriginBlockId::Number(fork_block_number),
        other => other,
    }
}

/// Whether an origin answer is rewritten: for a method whose response carries an acceptance
/// status, once a simulated L1 boundary is set, the response kind and that boundary.
pub fn interception(method: &str, accepted_on_l1_through: Option<u64>) -> (r: Option<(AcceptanceResponseKind, u64)>)
    ensures
        r == (match (kind_of_method(method@), accepted_on_l1_through) {
            (Some(kind), Some(boundary)) => Some((kind, boundary)),
            _ => None,
        }),
{
    match (AcceptanceResponseKind::from_method(method), accepted_on_l1_through) {
        (Some(kind), Some(boundary)) => Some((kind, boundary)),
        _ => None,
    }
}

/// Where the number of a confirmed origin block comes from.
#[derive(Clone, Copy, Debug, PartialEq, Eq, Structural)]
pub enum BlockNumberSource {
    /// Known without asking the origin.
    Known(u64),
    /// The origin's `l1_accepted` block, never past the forked block (see [`clamp_to_fork`]).
    OriginL1Accepted,
    /// The origin's block with this id.
    OriginBlock(OriginBlockId),
}

/// The source of a block's number: `l1_accepted` is the simulated L1 boundary when one is
/// set, and the origin's own `l1_accepted` block otherwise; any other id is asked of the
/// origin.
pub fn block_number_source(block_id: OriginBlockId, accepted_on_l1_through: Option<u64>) -> (r: BlockNumberSource)
    ensures
        r == (match block_id {
            OriginBlockId::L1Accepted => match accepted_on_l1_through {
                Some(n) => BlockNumberSource::Known(n),
                None => BlockNumberSource::OriginL1Accepted,
            },
            other => BlockNumberSource::OriginBlock(other),
        }),
{
    match block_id {
        OriginBlockId::L1Accepted => match accepted_on_l1_through {
            Some(n) => BlockNumberSource::Known(n),
            None => BlockNumberSource::OriginL1Accepted,
        },
        other => BlockNumberSource::OriginBlock(other),
    }
}

/// The status of a block fetched from the origin.
#[derive(Clone, Copy, Debug, PartialEq, Eq, Structural)]
pub enum OriginBlockStatus {
    PreConfirmed,
    AcceptedOnL2,
    AcceptedOnL1,
}

/// Why an origin block cannot be accepted on L1.
#[derive(Clone, Copy, Debug, PartialEq, Eq, Structural)]
pub enum AcceptanceRefusal {
    /// The block lies past the forked block.
    NoBlock,
    /// The block is already accepted on L1, at the origin or by the simulation.
    AlreadyAccepted,
    /// Only blocks accepted on L2 can be accepted on L1.
    NotAcceptedOnL2,
}

/// The decision on accepting a fetched origin block on L1.
pub open spec fn acceptance_decision(
    block_number: u64,
    status: OriginBlockStatus,
    fork_block_number: u64,
    accepted_on_l1_through: Option<u64>,
) -> Result<u64, AcceptanceRefusal> {
    if block_number > fork_block_number {
        Err(AcceptanceRefusal::NoBlock)
    } else if accepted_on_l1_through matches Some(n) && block_number <= n {
        Err(AcceptanceRefusal::AlreadyAccepted)
    } else {
        match status {
            OriginBlockStatus::AcceptedOnL2 => Ok(block_number),
            OriginBlockStatus::AcceptedOnL1 => Err(AcceptanceRefusal::AlreadyAccepted),
            _ => Err(AcceptanceRefusal::NotAcceptedOnL2),
        }
    }
}

/// Accepting an origin block on L1: a block past the forked one does not exist for the
/// fork, and is the only one refused as `NoBlock`; a block at or before the forked one that
/// the origin reports ACCEPTED_ON_L2 and the boundary does not yet cover is accepted, and the
/// boundary moves to it; nothing else is accepted. A covered block, or one the origin already
/// reports ACCEPTED_ON_L1, is already accepted; a pre-confirmed one is not accepted on L2.
pub proof fn lemma_acceptance(
    block_number: u64,
    status: OriginBlockStatus,
    fork_block_number: u64,
    accepted_on_l1_through: Option<u64>,
)
    ensures
        (acceptance_decision(block_number, status, fork_block_number, accepted_on_l1_through)
            == Err::<u64, AcceptanceRefusal>(AcceptanceRefusal::NoBlock)) <==> block_number > fork_block_number,
        block_number <= fork_block_number && status == OriginBlockStatus::AcceptedOnL2
            && !(accepted_on_l1_through matches Some(n) && block_number <= n)
            ==> acceptance_decision(block_number, status, fork_block_number, accepted_on_l1_through)
                == Ok::<u64, AcceptanceRefusal>(block_number),
        acceptance_decision(fork_block_number, OriginBlockStatus::AcceptedOnL2, fork_block_number, None)
            == Ok::<u64, AcceptanceRefusal>(fork_block_number),
        block_number <= fork_block_number && (accepted_on_l1_through matches Some(n) && block_number <= n)
            ==> acceptance_decision(block_number, status, fork_block_number, accepted_on_l1_through)
                == Err::<u64, AcceptanceRefusal>(AcceptanceRefusal::AlreadyAccepted),
        block_number <= fork_block_number && !(accepted_on_l1_through matches Some(n) && block_number <= n)
            && status == OriginBlockStatus::AcceptedOnL1
            ==> acceptance_decision(block_number, status, fork_block_number, accepted_on_l1_through)
                == Err::<u64, AcceptanceRefusal>(AcceptanceRefusal::AlreadyAccepted),
        block_number <= fork_block_number && !(accepted_on_l1_through matches Some(n) && block_number <= n)
            && status == OriginBlockStatus::PreConfirmed
            ==> acceptance_decision(block_number, status, fork_block_number, accepted_on_l1_through)
                == Err::<u64, AcceptanceRefusal>(AcceptanceRefusal::NotAcceptedOnL2),
        acceptance_decision(block_number, status, fork_block_number, accepted_on_l1_through) matches Ok(n) ==> {
            &&& n == block_number
            &&& block_number <= fork_block_number
            &&& status == OriginBlockStatus::AcceptedOnL2
            &&& !(accepted_on_l1_through matches Some(m) && block_number <= m)
        },
{
}

pub fn accept_origin_block(
    block_number: u64,
    status: OriginBlockStatus,
    fork_block_number: u64,
    accepted_on_l1_through: Option<u64>,
) -> (r: Result<u64, AcceptanceRefusal>)
    ensures
        r == acceptance_decision(block_number, status, fork_block_number, accepted_on_l1_through),
{
    if block_number > fork_block_number {
        return Err(AcceptanceRefusal::NoBlock);
    }
    match accepted_on_l1_through {
        Some(n) => {
            if block_number <= n {
                return Err(AcceptanceRefusal::AlreadyAccepted);
            }
        },
        None => {},
    }
    match status {
        OriginBlockStatus::AcceptedOnL2 => Ok(block_number),
        OriginBlockStatus::AcceptedOnL1 => Err(AcceptanceRefusal::AlreadyAccepted),
        _ => Err(AcceptanceRefusal::NotAcceptedOnL2),
    }
}

/// The `l1_accepted` block number the forwarder reports from the origin's answer: never past
/// the forked block.
pub fn clamp_to_fork(origin_l1_accepted: u64, fork_block_number: u64) -> (r: u64)
    ensures
        r == (if origin_l1_accepted <= fork_block_number { origin_l1_accepted } else { fork_block_number }),
{
    if origin_l1_accepted <= fork_block_number {
        origin_l1_accepted
    } else {
        fork_block_number
    }
}

/// How many transaction block numbers the forwarder remembers.
pub const TRANSACTION_BLOCK_NUMBER_CACHE_CAPACITY: usize = 1024;

/// The simulated L1 acceptance of the forked origin: the boundary up to which origin blocks
/// count as accepted on L1, and a bounded cache of the blocks of origin transactions.
pub struct OriginAcceptance {
    accepted_on_l1_through: Option<u64>,
    transaction_block_numbers: BlockNumberCache,
}

/// No key occurs twice and the cache holds at most `cap` pairs.
pub open spec fn cache_ok(s: Seq<(CacheKey, u64)>, cap: nat) -> bool {
    &&& s.len() <= cap
    &&& forall|i: int, j: int| 0 <= i < s.len() && 0 <= j < s.len() && s[i].0 == s[j].0 ==> i == j
}

impl OriginAcceptance {
    pub closed spec fn boundary(&self) -> Option<u64> {
        self.accepted_on_l1_through
    }

    /// The cached `(transaction, block number)` pairs, least recently used first.
    pub closed spec fn cached(&self) -> Seq<(CacheKey, u64)> {
        cache_pairs(self.transaction_block_numbers)
    }

    pub closed spec fn capacity(&self) -> nat {
        cache_capacity(self.transaction_block_numbers)
    }

    pub open spec fn wf(&self) -> bool {
        &&& cache_ok(self.cached(), self.capacity())
        &&& self.capacity() == TRANSACTION_BLOCK_NUMBER_CACHE_CAPACITY
    }

    /// No boundary and an empty cache.
    pub fn new() -> (r: Self)
        ensures
            r.wf(),
            r.boundary() is None,
            r.cached() == Seq::<(CacheKey, u64)>::empty(),
    {
        OriginAcceptance {
            accepted_on_l1_through: None,
            transaction_block_numbers: cache_new(TRANSACTION_BLOCK_NUMBER_CACHE_CAPACITY),
        }
    }

    pub fn accepted_on_l1_through(&self) -> (r: Option<u64>)
        ensures
            r == self.boundary(),
    {
        self.accepted_on_l1_through
    }

    /// Accepts origin blocks up to `block_number` on L1; the boundary never moves back.
    pub fn set_accepted_on_l1_through(&mut self, block_number: u64)
        requires
            old(self).wf(),
        ensures
            final(self).wf(),
            final(self).boundary() == raised(old(self).boundary(), block_number),
            final(self).cached() == old(self).cached(),
    {
        self.accepted_on_l1_through = raised_boundary(self.accepted_on_l1_through, block_number);
    }

    /// The cached block of a transaction, which becomes the most recently used entry.
    pub fn cached_block_number(&mut self, transaction_hash: &Felt) -> (r: Option<u64>)
        requires
            old(self).wf(),
        ensures
            final(self).wf(),
            final(self).boundary() == old(self).boundary(),
            cache_has(old(self).cached(), transaction_hash.spec_key()) ==> {
                let p = cache_position(old(self).cached(), transaction_hash.spec_key());
                &&& r == Some(old(self).cached()[p].1)
                &&& final(self).cached() == touched(old(self).cached(), p)
            },
            !cache_has(old(self).cached(), transaction_hash.spec_key()) ==> r is None && final(self).cached() == old(self).cached(),
    {
        let ghost s = self.cached();
        let r = cache_get(&mut self.transaction_block_numbers, &transaction_hash.key());
        proof {
            if cache_has(s, transaction_hash.spec_key()) {
                let p = cache_position(s, transaction_hash.spec_key());
                let t = touched(s, p);
                assert forall|i: int, j: int| 0 <= i < t.len() && 0 <= j < t.len() && t[i].0 == t[j].0 implies i == j by {
                    let oi = if i == t.len() - 1 { p } else if i < p { i } else { i + 1 };
                    let oj = if j == t.len() - 1 { p } else if j < p { j } else { j + 1 };
                    assert(t[i] == s[oi]);
                    assert(t[j] == s[oj]);
                }
            }
        }
        r
    }

    /// Remembers the block of a transaction as the most recently used entry, evicting the
    /// least recently used one when the cache is full.
    pub fn remember_block_number(&mut self, transaction_hash: &Felt, block_number: u64)
        requires
            old(self).wf(),
        ensures
            final(self).wf(),
            final(self).boundary() == old(self).boundary(),
            final(self).cached() == after_put(old(self).cached(), old(self).capacity(), transaction_hash.spec_key(), block_number),
    {
        let ghost s = self.cached();
        let k = transaction_hash.key();
        cache_put(&mut self.transaction_block_numbers, k, block_number);
        proof {
            let t = self.cached();
            if cache_has(s, k) {
                let p = cache_position(s, k);
                assert forall|i: int, j: int| 0 <= i < t.len() && 0 <= j < t.len() && t[i].0 == t[j].0 implies i == j by {
                    if i < t.len() - 1 && j < t.len() - 1 {
                        let oi = if i < p { i } else { i + 1 };
                        let oj = if j < p { j } else { j + 1 };
                        assert(t[i] == s[oi]);
                        assert(t[j] == s[oj]);
                    } else if i < t.len() - 1 {
                        let oi = if i < p { i } else { i + 1 };
                        assert(t[i] == s[oi]);
                        assert(s[p].0 == k);
                    } else if j < t.len() - 1 {
                        let oj = if j < p { j } else { j + 1 };
                        assert(t[j] == s[oj]);
                        assert(s[p].0 == k);
                    }
                }
            } else if s.len() == self.capacity() {
                assert forall|i: int, j: int| 0 <= i < t.len() && 0 <= j < t.len() && t[i].0 == t[j].0 implies i == j by {
                    if i < t.len() - 1 && j < t.len() - 1 {
                        assert(t[i] == s[i + 1]);
                        assert(t[j] == s[j + 1]);
                    } else if i < t.len() - 1 {
                        assert(t[i] == s[i + 1]);
                    } else if j < t.len() - 1 {
                        assert(t[j] == s[j + 1]);
                    }
                }
            } else {
                assert forall|i: int, j: int| 0 <= i < t.len() && 0 <= j < t.len() && t[i].0 == t[j].0 implies i == j by {
                    if i < t.len() - 1 && j < t.len() - 1 {
                        assert(t[i] == s[i]);
                        assert(t[j] == s[j]);
                    } else if i < t.len() - 1 {
                        assert(t[i] == s[i]);
                    } else if j < t.len() - 1 {
                        assert(t[j] == s[j]);
                    }
                }
            }
        }
    }

    /// Whether the block of a transaction is cached.
    pub fn is_cached(&self, transaction_hash: &Felt) -> (r: bool)
        ensures
            r == cache_has(self.cached(), transaction_hash.spec_key()),
    {
        cache_contains(&self.transaction_block_numbers, &transaction_hash.key())
    }

    /// How many transaction blocks are cached.
    pub fn cached_count(&self) -> (r: usize)
        ensures
            r == self.cached().len(),
    {
        cache_len(&self.transaction_block_numbers)
    }
}

/// The cache of transaction blocks never holds more than its capacity of 1024 pairs, and
/// never two pairs for one transaction.
pub proof fn lemma_block_number_cache_is_bounded(acceptance: OriginAcceptance)
    requires
        acceptance.wf(),
    ensures
        acceptance.cached().len() <= TRANSACTION_BLOCK_NUMBER_CACHE_CAPACITY,
        forall|i: int, j: int| 0 <= i < acceptance.cached().len() && 0 <= j < acceptance.cached().len()
            && acceptance.cached()[i].0 == acceptance.cached()[j].0 ==> i == j,
{
}

impl Default for OriginAcceptance {
    fn default() -> (r: Self)
        ensures
            r.wf(),
            r.boundary() is None,
            r.cached() == Seq::<(CacheKey, u64)>::empty(),
    {
        OriginAcceptance::new()
    }
}

} // verus!
