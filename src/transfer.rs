//! A movement of money between two accounts, with its proof of funds.
use vstd::prelude::*;

use crate::money::{Actor, Money};

verus! {

/// The mathematical value of a `Transfer`.
///
/// The proof-of-funds transfers are kept in the order in which the sender
/// listed them, so two transfers are the same value exactly when all four
/// parts agree. `Bank::transfer` lists the sender's frontier, which holds
/// no repeats (`BankView::wf`) and whose order is that in which the
/// sender's replica received them; every replica then compares the very
/// list that travelled with the transfer.
pub struct TransferView {
    pub from: Actor,
    pub to: Actor,
    pub amount: Money,
    pub deps: Seq<TransferView>,
}

/// A transfer of `amount` from `from` to `to`.
///
/// `deps` lists the transfers previously received by `from` that are cited
/// as proof of funds; it is fixed when the transfer is built.
#[derive(Debug)]
pub struct Transfer {
    pub from: Actor,
    pub to: Actor,
    pub amount: Money,
    pub deps: Vec<Transfer>,
}

/// The value of `t` with only its first `n` proof-of-funds entries.
pub open spec fn view_prefix(t: Transfer, n: nat) -> TransferView
    decreases t, n,
{
    if n == 0 || n > t.deps@.len() {
        TransferView { from: t.from, to: t.to, amount: t.amount, deps: Seq::empty() }
    } else {
        let d = t.deps@[n - 1];
        let prev = view_prefix(t, (n - 1) as nat);
        TransferView { deps: prev.deps.push(view_prefix(d, d.deps@.len())), ..prev }
    }
}

impl View for Transfer {
    type V = TransferView;

    open spec fn view(&self) -> TransferView {
        view_prefix(*self, self.deps@.len())
    }
}

/// The proof-of-funds entries of a transfer's value are the values of its entries.
pub proof fn lemma_view_prefix(t: Transfer, n: nat)
    requires
        n <= t.deps@.len(),
    ensures
        view_prefix(t, n).from == t.from,
        view_prefix(t, n).to == t.to,
        view_prefix(t, n).amount == t.amount,
        view_prefix(t, n).deps.len() == n,
        forall|i: int| 0 <= i < n ==> #[trigger] view_prefix(t, n).deps[i] == t.deps@[i]@,
    decreases n,
{
    if n > 0 {
        lemma_view_prefix(t, (n - 1) as nat);
    }
}

/// The parts of a transfer's value are the parts of the transfer.
pub proof fn lemma_view(t: Transfer)
    ensures
        t@.from == t.from,
        t@.to == t.to,
        t@.amount == t.amount,
        t@.deps.len() == t.deps@.len(),
        forall|i: int| 0 <= i < t.deps@.len() ==> #[trigger] t@.deps[i] == t.deps@[i]@,
{
    lemma_view_prefix(t, t.deps@.len());
}

impl Transfer {
    /// Whether `self` and `other` are the same transfer.
    pub fn same(&self, other: &Transfer) -> (r: bool)
        ensures
            r == (self@ == other@),
        decreases self,
    {
        proof {
            lemma_view(*self);
            lemma_view(*other);
        }
        if self.from != other.from || self.to != other.to || self.amount != other.amount
            || self.deps.len() != other.deps.len() {
            return false;
        }
        let mut i: usize = 0;
        while i < self.deps.len()
            invariant
                i <= self.deps@.len(),
                self.deps@.len() == other.deps@.len(),
                self@.deps.len() == self.deps@.len(),
                other@.deps.len() == other.deps@.len(),
                forall|j: int| 0 <= j < self.deps@.len() ==> #[trigger] self@.deps[j] == self.deps@[j]@,
                forall|j: int| 0 <= j < other.deps@.len() ==> #[trigger] other@.deps[j] == other.deps@[j]@,
                self@.from == other@.from && self@.to == other@.to && self@.amount == other@.amount,
                forall|j: int| 0 <= j < i ==> self.deps@[j]@ == other.deps@[j]@,
            decreases self.deps@.len() - i,
        {
            if !self.deps[i].same(&other.deps[i]) {
                proof {
                    assert(self@.deps[i as int] != other@.deps[i as int]);
                }
                return false;
            }
            i = i + 1;
        }
        proof {
            assert(self@.deps =~= other@.deps);
        }
        true
    }
}

/// A copy of each transfer of `v`, in order.
pub fn clone_all(v: &Vec<Transfer>) -> (r: Vec<Transfer>)
    ensures
        r@.len() == v@.len(),
        forall|j: int| 0 <= j < v@.len() ==> #[trigger] r@[j]@ == v@[j]@,
    decreases v@, 0nat,
{
    let mut r: Vec<Transfer> = Vec::new();
    let mut i: usize = 0;
    while i < v.len()
        invariant
            i <= v@.len(),
            r@.len() == i,
            forall|j: int| 0 <= j < i ==> #[trigger] r@[j]@ == v@[j]@,
        decreases v@.len() - i,
    {
        r.push(v[i].clone());
        i = i + 1;
    }
    r
}

impl Clone for Transfer {
    fn clone(&self) -> (r: Transfer)
        ensures
            r@ == self@,
        decreases self.deps@, 1nat,
    {
        let deps = clone_all(&self.deps);
        let r = Transfer { from: self.from, to: self.to, amount: self.amount, deps };
        proof {
            lemma_view(r);
            lemma_view(*self);
            assert(r@.deps =~= self@.deps);
        }
        r
    }
}

} // verus!
