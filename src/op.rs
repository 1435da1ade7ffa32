//! The unit of replication.
use vstd::prelude::*;

use crate::money::{Actor, Money};
use crate::transfer::{Transfer, TransferView};

verus! {

/// An AT2 operation.
#[derive(Debug)]
pub enum Op {
    /// Move money between two accounts.
    Transfer(Transfer),
    /// Open a new account.
    OpenAccount {
        /// The account's owner.
        owner: Actor,
        /// The account's starting balance, normally 0.
        balance: Money,
    },
}

/// The mathematical value of an `Op`.
pub enum OpView {
    Transfer(TransferView),
    OpenAccount { owner: Actor, balance: Money },
}

impl View for Op {
    type V = OpView;

    open spec fn view(&self) -> OpView {
        match self {
            Op::Transfer(t) => OpView::Transfer(t@),
            Op::OpenAccount { owner, balance } => OpView::OpenAccount {
                owner: *owner,
                balance: *balance,
            },
        }
    }
}

impl Clone for Op {
    fn clone(&self) -> (r: Op)
        ensures
            r@ == self@,
    {
        match self {
            Op::Transfer(t) => Op::Transfer(t.clone()),
            Op::OpenAccount { owner, balance } => Op::OpenAccount {
                owner: *owner,
                balance: *balance,
            },
        }
    }
}

} // verus!
