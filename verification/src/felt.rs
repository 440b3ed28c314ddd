//! Field elements as they appear in transaction hashes, account addresses and nonces.
use vstd::prelude::*;

verus! {

/// A 256-bit unsigned value split into its high and low 128-bit halves.
///
/// Starknet field elements are smaller than 2^252, so every field element has exactly one
/// representation here; the numeric order of the represented values is the order of
/// `(hi, lo)` compared lexicographically.
#[derive(Clone, Copy, Debug, PartialEq, Eq, Structural, Hash)]
pub struct Felt {
    pub hi: u128,
    pub lo: u128,
}

/// 2^128, the weight of the high half.
pub open spec fn two_pow_128() -> int {
    0x1_0000_0000_0000_0000_0000_0000_0000_0000int
}

impl Felt {
    /// The number this element stands for.
    pub open spec fn value(self) -> int {
        self.hi * two_pow_128() + self.lo
    }

    /// The key under which collections store this element.
    pub open spec fn spec_key(self) -> (u128, u128) {
        (self.hi, self.lo)
    }

    pub fn from_u64(value: u64) -> (r: Felt)
        ensures
            r.hi == 0,
            r.lo == value,
            r.value() == value,
    {
        Felt { hi: 0, lo: value as u128 }
    }

    pub fn key(&self) -> (r: (u128, u128))
        ensures
            r == self.spec_key(),
    {
        (self.hi, self.lo)
    }

    pub fn from_key(key: (u128, u128)) -> (r: Felt)
        ensures
            r.spec_key() == key,
    {
        Felt { hi: key.0, lo: key.1 }
    }

    /// Whether `self` is numerically smaller than `other`.
    pub fn less_than(&self, other: &Felt) -> (r: bool)
        ensures
            r == (self.value() < other.value()),
    {
        proof {
            lemma_value_order(*self, *other);
        }
        self.hi < other.hi || (self.hi == other.hi && self.lo < other.lo)
    }
}

/// The numeric order of two elements is the lexicographic order of their halves, and equal
/// values have equal representations.
pub proof fn lemma_value_order(a: Felt, b: Felt)
    ensures
        (a.value() < b.value()) == (a.hi < b.hi || (a.hi == b.hi && a.lo < b.lo)),
        (a.value() == b.value()) == (a == b),
{
    let p = two_pow_128();
    if a.hi < b.hi {
        assert(a.hi * p + p <= b.hi * p) by (nonlinear_arith)
            requires a.hi < b.hi, p > 0;
    } else if a.hi > b.hi {
        assert(b.hi * p + p <= a.hi * p) by (nonlinear_arith)
            requires a.hi > b.hi, p > 0;
    }
}

} // verus!
