//! AT2 (Asynchronous Trustworthy Transfers) as a replicated data type.
//!
//! Each `Bank` replica records the history of every account it has heard
//! of, and may originate outgoing transfers for one account only: its own.
//! A Byzantine reliable broadcast layer drives the replicas through
//! `Bank::new`, `Bank::validate` and `Bank::apply`.
pub mod money;
pub use money::{Actor, Money};

pub mod transfer;
pub use transfer::{Transfer, TransferView};

pub mod op;
pub use op::{Op, OpView};

pub mod bank;
pub use bank::{Bank, BankView, ValidationError, ValidationErrorView};

pub mod laws;
