//! Amounts of money and account identities.
use vstd::prelude::*;

verus! {

/// An amount of money. Ledger arithmetic on it is checked: it never wraps.
pub type Money = u64;

/// The identity of an account, and of the replica that owns it.
pub type Actor = u64;

} // verus!
