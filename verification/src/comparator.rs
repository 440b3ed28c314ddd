//! The Starknet fee-priority order between two pooled transactions.
use vstd::prelude::*;

use std::cmp::Ordering;

use crate::entry::MempoolEntry;
use crate::felt::Felt;

verus! {

/// Three-way comparison of two integers.
pub open spec fn order_of(x: int, y: int) -> Ordering {
    if x < y {
        Ordering::Less
    } else if x > y {
        Ordering::Greater
    } else {
        Ordering::Equal
    }
}

/// The reverse of an ordering.
pub open spec fn flipped(o: Ordering) -> Ordering {
    match o {
        Ordering::Less => Ordering::Greater,
        Ordering::Equal => Ordering::Equal,
        Ordering::Greater => Ordering::Less,
    }
}

/// An entry is in the priority branch when its maximal L2 gas price covers the current one.
pub open spec fn is_priority(entry: MempoolEntry, current_l2_gas_price: u128) -> bool {
    entry.max_l2_gas_price >= current_l2_gas_price
}

/// The order in which the Starknet policy prefers entries (`Greater`: `left` is preferred).
///
/// Priority entries beat fallback entries. Among priority entries the larger tip wins, then
/// the larger transaction hash. Among fallback entries the earlier arrival wins.
pub open spec fn starknet_order(left: MempoolEntry, right: MempoolEntry, current_l2_gas_price: u128) -> Ordering {
    let lp = is_priority(left, current_l2_gas_price);
    let rp = is_priority(right, current_l2_gas_price);
    if lp && !rp {
        Ordering::Greater
    } else if !lp && rp {
        Ordering::Less
    } else if lp {
        if left.tip != right.tip {
            order_of(left.tip_value(), right.tip_value())
        } else {
            order_of(left.transaction_hash.value(), right.transaction_hash.value())
        }
    } else {
        order_of(right.arrival_value(), left.arrival_value())
    }
}

/// Compares two entries for the Starknet policy; `Greater` means `left` should be selected
/// before `right`, as `Iterator::max_by` expects.
pub fn starknet_comparator(left: &MempoolEntry, right: &MempoolEntry, current_l2_gas_price: u128) -> (r: Ordering)
    ensures
        r == starknet_order(*left, *right, current_l2_gas_price),
{
    let left_priority = left.max_l2_gas_price >= current_l2_gas_price;
    let right_priority = right.max_l2_gas_price >= current_l2_gas_price;
    if left_priority && !right_priority {
        Ordering::Greater
    } else if !left_priority && right_priority {
        Ordering::Less
    } else if left_priority {
        if left.tip < right.tip {
            Ordering::Less
        } else if left.tip > right.tip {
            Ordering::Greater
        } else {
            proof {
                crate::felt::lemma_value_order(left.transaction_hash, right.transaction_hash);
            }
            if left.transaction_hash.less_than(&right.transaction_hash) {
                Ordering::Less
            } else if right.transaction_hash.less_than(&left.transaction_hash) {
                Ordering::Greater
            } else {
                Ordering::Equal
            }
        }
    } else if right.arrival_id < left.arrival_id {
        Ordering::Less
    } else if right.arrival_id > left.arrival_id {
        Ordering::Greater
    } else {
        Ordering::Equal
    }
}

/// Swapping the operands reverses the Starknet order.
pub proof fn lemma_starknet_order_antisymmetric(a: MempoolEntry, b: MempoolEntry, price: u128)
    ensures
        starknet_order(a, b, price) == flipped(starknet_order(b, a, price)),
{
}

/// The Starknet order is transitive: a preferred-or-equal chain stays preferred-or-equal,
/// and becomes strict as soon as one step is strict.
pub proof fn lemma_starknet_order_transitive(a: MempoolEntry, b: MempoolEntry, c: MempoolEntry, price: u128)
    ensures
        starknet_order(a, b, price) != Ordering::Less && starknet_order(b, c, price) != Ordering::Less
            ==> starknet_order(a, c, price) != Ordering::Less,
        starknet_order(a, b, price) == Ordering::Greater && starknet_order(b, c, price) != Ordering::Less
            ==> starknet_order(a, c, price) == Ordering::Greater,
        starknet_order(a, b, price) != Ordering::Less && starknet_order(b, c, price) == Ordering::Greater
            ==> starknet_order(a, c, price) == Ordering::Greater,
{
}

/// Two entries are tied only when they are both priority entries with the same tip and hash,
/// or both fallback entries with the same arrival position.
pub proof fn lemma_starknet_order_equal(a: MempoolEntry, b: MempoolEntry, price: u128)
    ensures
        starknet_order(a, b, price) == Ordering::Equal <==> (
            if is_priority(a, price) {
                is_priority(b, price) && a.tip == b.tip && a.transaction_hash == b.transaction_hash
            } else {
                !is_priority(b, price) && a.arrival_id == b.arrival_id
            }
        ),
{
    crate::felt::lemma_value_order(a.transaction_hash, b.transaction_hash);
}


/// `left` ranks strictly above `right` in the Starknet order.
pub open spec fn ranks_above(left: MempoolEntry, right: MempoolEntry, price: u128) -> bool {
    starknet_order(left, right, price) == Ordering::Greater
}

/// `left` ranks at least as high as `right` in the Starknet order.
pub open spec fn ranks_at_least(left: MempoolEntry, right: MempoolEntry, price: u128) -> bool {
    starknet_order(left, right, price) != Ordering::Less
}

/// Whether the Starknet policy prefers `left` over `right`.
pub fn starknet_prefers(left: &MempoolEntry, right: &MempoolEntry, price: u128) -> (r: bool)
    ensures
        r == ranks_above(*left, *right, price),
{
    match starknet_comparator(left, right, price) {
        Ordering::Greater => true,
        _ => false,
    }
}

/// The rank relations are the two halves of a total preorder.
pub proof fn lemma_ranks(a: MempoolEntry, b: MempoolEntry, c: MempoolEntry, price: u128)
    ensures
        ranks_at_least(a, b, price) == !ranks_above(b, a, price),
        ranks_above(a, b, price) ==> ranks_at_least(a, b, price),
        ranks_at_least(a, b, price) && ranks_at_least(b, c, price) ==> ranks_at_least(a, c, price),
        ranks_above(a, b, price) && ranks_at_least(b, c, price) ==> ranks_above(a, c, price),
        ranks_at_least(a, b, price) && ranks_above(b, c, price) ==> ranks_above(a, c, price),
{
    lemma_starknet_order_antisymmetric(a, b, price);
    lemma_starknet_order_transitive(a, b, c, price);
}

} // verus!
