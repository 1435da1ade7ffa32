//! The `Bank`: one replica's view of the AT2 ledger.
//!
//! Every replica records the history of all accounts it knows, but
//! originates outgoing transfers for its own account (`id`) only.
use std::collections::BTreeMap;

use vstd::prelude::*;

use crate::money::{Actor, Money};
use crate::op::{Op, OpView};
use crate::transfer::{clone_all, lemma_view, Transfer, TransferView};

verus! {

broadcast use vstd::laws_cmp::group_laws_cmp;

/// The values of a sequence of transfers.
pub open spec fn views(s: Seq<Transfer>) -> Seq<TransferView> {
    s.map_values(|t: Transfer| t@)
}

/// Whether `a` sends or receives money in `t`.
pub open spec fn involves(t: TransferView, a: Actor) -> bool {
    t.from == a || t.to == a
}

/// The predicate "`a` sends or receives money in the transfer".
pub open spec fn involving(a: Actor) -> spec_fn(TransferView) -> bool {
    |t: TransferView| involves(t, a)
}

/// The total amount that `a` receives over `log`.
pub open spec fn incoming(log: Seq<TransferView>, a: Actor) -> int
    decreases log.len(),
{
    if log.len() == 0 {
        0
    } else {
        incoming(log.drop_last(), a) + if log.last().to == a {
            log.last().amount as int
        } else {
            0
        }
    }
}

/// The total amount that `a` sends over `log`.
pub open spec fn outgoing(log: Seq<TransferView>, a: Actor) -> int
    decreases log.len(),
{
    if log.len() == 0 {
        0
    } else {
        outgoing(log.drop_last(), a) + if log.last().from == a {
            log.last().amount as int
        } else {
            0
        }
    }
}

/// `s` without the elements that occur in `gone`, in the order of `s`.
pub open spec fn without(s: Seq<TransferView>, gone: Seq<TransferView>) -> Seq<TransferView> {
    s.filter(absent_from(gone))
}

/// The predicate "the transfer does not occur in `gone`".
pub open spec fn absent_from(gone: Seq<TransferView>) -> spec_fn(TransferView) -> bool {
    |d: TransferView| !gone.contains(d)
}

/// The mathematical value of a `Bank`.
pub struct BankView {
    /// The account this replica may originate transfers for.
    pub id: Actor,
    /// The starting balance of each open account.
    pub initial_balances: Map<Actor, Money>,
    /// Every transfer applied so far, each once, in order of application.
    pub log: Seq<TransferView>,
    /// The proof-of-funds frontier of `id`: received and not yet cited.
    pub deps: Seq<TransferView>,
}

/// The mathematical value of a `ValidationError`.
pub enum ValidationErrorView {
    NotInitiatedByAccountOwner { source: Actor, owner: Actor },
    FromAccountDoesNotExist(Actor),
    ToAccountDoesNotExist(Actor),
    InsufficientFunds { balance: Money, transfer_amount: Money },
    MissingDependentOps(Seq<TransferView>),
    OwnerAlreadyHasAnAccount,
    AccountNotFound(Actor),
    InvariantViolation(Actor),
}

impl BankView {
    /// The state of a new replica for `id`.
    pub open spec fn empty(id: Actor) -> BankView {
        BankView { id, initial_balances: Map::empty(), log: Seq::empty(), deps: Seq::empty() }
    }

    /// Whether `a` has an open account.
    pub open spec fn known(self, a: Actor) -> bool {
        self.initial_balances.contains_key(a)
    }

    /// Every applied transfer in which `a` sends or receives money.
    pub open spec fn history(self, a: Actor) -> Seq<TransferView> {
        self.log.filter(involving(a))
    }

    /// Whether `t` is in the recorded history of `a`.
    pub open spec fn in_history(self, a: Actor, t: TransferView) -> bool {
        self.log.contains(t) && involves(t, a)
    }

    /// The predicate "the transfer is not in the recorded history of `a`".
    pub open spec fn unrecorded(self, a: Actor) -> spec_fn(TransferView) -> bool {
        |d: TransferView| !self.in_history(a, d)
    }

    /// The entries of `deps` that are not in the recorded history of `a`.
    pub open spec fn missing(self, a: Actor, deps: Seq<TransferView>) -> Seq<TransferView> {
        deps.filter(self.unrecorded(a))
    }

    /// The frontier after receiving `t`: `t` joins it when `id` is the
    /// recipient.
    pub open spec fn received(self, t: TransferView) -> Seq<TransferView> {
        if t.to == self.id && !self.deps.contains(t) {
            self.deps.push(t)
        } else {
            self.deps
        }
    }

    /// The state after applying `op`.
    ///
    /// A transfer that is already in the log changes nothing: redelivery is
    /// a no-op. A new transfer joins the log. When `id` receives it, it
    /// joins the frontier; when `id` sends it, the transfers that it cites
    /// leave the frontier. Opening an account records its starting balance.
    pub open spec fn applied(self, op: OpView) -> BankView {
        match op {
            OpView::Transfer(t) => if self.log.contains(t) {
                self
            } else {
                BankView {
                    log: self.log.push(t),
                    deps: if t.from == self.id {
                        without(self.received(t), t.deps)
                    } else {
                        self.received(t)
                    },
                    ..self
                }
            },
            OpView::OpenAccount { owner, balance } => BankView {
                initial_balances: self.initial_balances.insert(owner, balance),
                ..self
            },
        }
    }

    /// The verdict on `op` from `source`; the first failing check wins.
    pub open spec fn validation(self, source: Actor, op: OpView) -> Result<
        (),
        ValidationErrorView,
    > {
        match op {
            OpView::Transfer(t) => {
                if source != t.from {
                    Err(ValidationErrorView::NotInitiatedByAccountOwner { source, owner: t.from })
                } else if !self.known(t.from) {
                    Err(ValidationErrorView::FromAccountDoesNotExist(t.from))
                } else if !self.known(t.to) {
                    Err(ValidationErrorView::ToAccountDoesNotExist(t.to))
                } else if !self.balance_in_range(t.from) {
                    Err(ValidationErrorView::InvariantViolation(t.from))
                } else if self.balance(t.from) < t.amount {
                    Err(
                        ValidationErrorView::InsufficientFunds {
                            balance: self.balance(t.from) as Money,
                            transfer_amount: t.amount,
                        },
                    )
                } else if self.missing(t.from, t.deps).len() > 0 {
                    Err(ValidationErrorView::MissingDependentOps(self.missing(t.from, t.deps)))
                } else {
                    Ok(())
                }
            },
            OpView::OpenAccount { owner, balance: _ } => {
                if source != owner {
                    Err(ValidationErrorView::NotInitiatedByAccountOwner { source, owner })
                } else if self.known(owner) {
                    Err(ValidationErrorView::OwnerAlreadyHasAnAccount)
                } else {
                    Ok(())
                }
            },
        }
    }

    /// The balance of `a`: its starting balance, plus what it received,
    /// minus what it sent.
    pub open spec fn balance(self, a: Actor) -> int {
        self.initial_balances[a] as int + incoming(self.log, a) - outgoing(self.log, a)
    }

    /// Whether the balance of `a` is a valid amount of money.
    pub open spec fn balance_in_range(self, a: Actor) -> bool {
        0 <= self.balance(a) <= Money::MAX
    }

    /// The ledger's internal invariant: each applied transfer is recorded
    /// once, and the proof-of-funds frontier holds distinct transfers
    /// received by `id`.
    pub open spec fn wf(self) -> bool {
        &&& self.log.no_duplicates()
        &&& self.deps.no_duplicates()
        &&& forall|i: int|
            0 <= i < self.deps.len() ==> #[trigger] self.in_history(self.id, self.deps[i])
                && self.deps[i].to == self.id
    }
}

/// AT2 `Bank` for one account (`Actor`).
#[derive(Debug)]
pub struct Bank {
    /// The account this replica may originate transfers for.
    id: Actor,
    /// The dependencies of the next outgoing transfer of `id`.
    deps: Vec<Transfer>,
    /// The starting balance of each open account.
    initial_balances: BTreeMap<Actor, Money>,
    /// Every applied transfer, each once, in order of application.
    log: Vec<Transfer>,
}

impl View for Bank {
    type V = BankView;

    closed spec fn view(&self) -> BankView {
        BankView {
            id: self.id,
            initial_balances: self.initial_balances@,
            log: views(self.log@),
            deps: views(self.deps@),
        }
    }
}

/// An AT2 validation error.
#[derive(Debug)]
pub enum ValidationError {
    /// The actor that initiated the operation does not own the account.
    NotInitiatedByAccountOwner {
        /// The initiating actor.
        source: Actor,
        /// The account owner.
        owner: Actor,
    },
    /// The sending account does not exist.
    FromAccountDoesNotExist(Actor),
    /// The receiving account does not exist.
    ToAccountDoesNotExist(Actor),
    /// The sender's balance does not cover the transfer.
    InsufficientFunds {
        /// The sender's balance.
        balance: Money,
        /// The amount of the transfer.
        transfer_amount: Money,
    },
    /// Proof-of-funds transfers not yet seen in the sender's history.
    MissingDependentOps(Vec<Transfer>),
    /// The owner already has an account.
    OwnerAlreadyHasAnAccount,
    /// No account is open for this actor.
    AccountNotFound(Actor),
    /// The recorded history gives this actor a balance outside the range
    /// of `Money`.
    InvariantViolation(Actor),
}

impl View for ValidationError {
    type V = ValidationErrorView;

    open spec fn view(&self) -> ValidationErrorView {
        match self {
            ValidationError::NotInitiatedByAccountOwner { source, owner } =>
                ValidationErrorView::NotInitiatedByAccountOwner { source: *source, owner: *owner },
            ValidationError::FromAccountDoesNotExist(a) =>
                ValidationErrorView::FromAccountDoesNotExist(*a),
            ValidationError::ToAccountDoesNotExist(a) => ValidationErrorView::ToAccountDoesNotExist(
                *a,
            ),
            ValidationError::InsufficientFunds { balance, transfer_amount } =>
                ValidationErrorView::InsufficientFunds {
                balance: *balance,
                transfer_amount: *transfer_amount,
            },
            ValidationError::MissingDependentOps(m) => ValidationErrorView::MissingDependentOps(
                views(m@),
            ),
            ValidationError::OwnerAlreadyHasAnAccount =>
                ValidationErrorView::OwnerAlreadyHasAnAccount,
            ValidationError::AccountNotFound(a) => ValidationErrorView::AccountNotFound(*a),
            ValidationError::InvariantViolation(a) => ValidationErrorView::InvariantViolation(*a),
        }
    }
}

/// The value of a verdict.
pub open spec fn verdict(r: Result<(), ValidationError>) -> Result<(), ValidationErrorView> {
    match r {
        Ok(()) => Ok(()),
        Err(e) => Err(e@),
    }
}

/// Whether some transfer of `v` is the same as `t`.
fn listed(v: &Vec<Transfer>, t: &Transfer) -> (r: bool)
    ensures
        r == views(v@).contains(t@),
{
    let mut i: usize = 0;
    while i < v.len()
        invariant
            i <= v@.len(),
            forall|j: int| 0 <= j < i ==> v@[j]@ != t@,
        decreases v@.len() - i,
    {
        if v[i].same(t) {
            proof {
                assert(views(v@)[i as int] == t@);
            }
            return true;
        }
        i = i + 1;
    }
    proof {
        if views(v@).contains(t@) {
            let j = choose|j: int| 0 <= j < views(v@).len() && views(v@)[j] == t@;
            assert(v@[j]@ == t@);
        }
    }
    false
}

/// The transfers of `v` that do not occur in `gone`, in order.
fn unlisted(v: &Vec<Transfer>, gone: &Vec<Transfer>) -> (r: Vec<Transfer>)
    ensures
        views(r@) == without(views(v@), views(gone@)),
{
    let mut r: Vec<Transfer> = Vec::new();
    let mut i: usize = 0;
    while i < v.len()
        invariant
            i <= v@.len(),
            views(r@) == views(v@).take(i as int).filter(absent_from(views(gone@))),
        decreases v@.len() - i,
    {
        let d = &v[i];
        proof {
            let s = views(v@);
            assert(s.take(i + 1) =~= s.take(i as int).push(d@));
            s.take(i as int).lemma_filter_push(d@, absent_from(views(gone@)));
        }
        if !listed(gone, d) {
            let ghost before = views(r@);
            let c = d.clone();
            r.push(c);
            proof {
                assert(views(r@) =~= before.push(c@));
            }
        }
        i = i + 1;
    }
    proof {
        assert(views(v@).take(v@.len() as int) =~= views(v@));
    }
    r
}

/// Pushing a new element keeps a sequence free of duplicates.
proof fn lemma_push_no_duplicates(s: Seq<TransferView>, x: TransferView)
    requires
        s.no_duplicates(),
        !s.contains(x),
    ensures
        s.push(x).no_duplicates(),
{
    assert forall|i: int, j: int|
        0 <= i < s.push(x).len() && 0 <= j < s.push(x).len() && i != j implies s.push(x)[i]
        != s.push(x)[j] by {
        if i == s.len() {
            assert(s[j] == s.push(x)[j]);
        } else if j == s.len() {
            assert(s[i] == s.push(x)[i]);
        }
    }
}

/// Filtering keeps a sequence free of duplicates.
proof fn lemma_filter_no_duplicates(s: Seq<TransferView>, p: spec_fn(TransferView) -> bool)
    requires
        s.no_duplicates(),
    ensures
        s.filter(p).no_duplicates(),
    decreases s.len(),
{
    if s.len() > 0 {
        let r = s.drop_last();
        assert(s =~= r.push(s.last()));
        assert(r.no_duplicates());
        lemma_filter_no_duplicates(r, p);
        r.lemma_filter_push(s.last(), p);
        if p(s.last()) {
            if r.filter(p).contains(s.last()) {
                r.lemma_filter_contains_rev(p, s.last());
                let k = choose|k: int| 0 <= k < r.len() && r[k] == s.last();
                assert(s[k] == s[s.len() - 1]);
            }
            lemma_push_no_duplicates(r.filter(p), s.last());
        }
    }
}

/// Applying an operation keeps the ledger's invariant.
pub proof fn lemma_applied_wf(b: BankView, op: OpView)
    requires
        b.wf(),
    ensures
        b.applied(op).wf(),
{
    match op {
        OpView::Transfer(t) => {
            if b.log.contains(t) {
                assert(b.applied(op) == b);
            } else {
                let n = b.applied(op);
                if !b.log.contains(t) {
                    lemma_push_no_duplicates(b.log, t);
                }
                assert(n.log.contains(t)) by {
                    if !b.log.contains(t) {
                        assert(n.log[b.log.len() as int] == t);
                    }
                }
                assert forall|x: TransferView| b.log.contains(x) implies n.log.contains(x) by {
                    if !b.log.contains(t) {
                        let k = choose|k: int| 0 <= k < b.log.len() && b.log[k] == x;
                        assert(n.log[k] == x);
                    }
                }
                let d1 = b.received(t);
                if t.to == b.id && !b.deps.contains(t) {
                    lemma_push_no_duplicates(b.deps, t);
                }
                assert forall|i: int| 0 <= i < d1.len() implies n.in_history(b.id, d1[i]) && d1[i].to
                    == b.id by {
                    if i < b.deps.len() {
                        assert(d1[i] == b.deps[i]);
                        assert(b.in_history(b.id, b.deps[i]));
                        assert(b.log.contains(b.deps[i]));
                    } else {
                        assert(d1[i] == t);
                    }
                }
                if t.from == b.id {
                    lemma_filter_no_duplicates(d1, absent_from(t.deps));
                }
                assert forall|i: int| 0 <= i < n.deps.len() implies #[trigger] n.in_history(
                    n.id,
                    n.deps[i],
                ) && n.deps[i].to == n.id by {
                    if t.from == b.id {
                        assert(n.deps == without(d1, t.deps));
                        assert(n.deps.contains(n.deps[i]));
                        d1.lemma_filter_contains_rev(absent_from(t.deps), n.deps[i]);
                        let k = choose|k: int| 0 <= k < d1.len() && d1[k] == n.deps[i];
                        assert(n.in_history(b.id, d1[k]));
                    } else {
                        assert(n.in_history(b.id, d1[i]));
                    }
                }
            }
        },
        OpView::OpenAccount { owner, balance } => {
            let n = b.applied(op);
            assert forall|i: int| 0 <= i < n.deps.len() implies #[trigger] n.in_history(
                n.id,
                n.deps[i],
            ) && n.deps[i].to == n.id by {
                assert(b.in_history(b.id, b.deps[i]));
            }
        },
    }
}

impl Bank {
    /// The ledger's internal invariant.
    pub open spec fn wf(&self) -> bool {
        self@.wf()
    }

    /// An empty replica for `id`.
    pub fn new(id: Actor) -> (r: Bank)
        ensures
            r@ == BankView::empty(id),
            r.wf(),
            r@.consistent(),
    {
        let r = Bank { id, deps: Vec::new(), initial_balances: BTreeMap::new(), log: Vec::new() };
        proof {
            assert(r@.log =~= Seq::empty());
            assert(r@.deps =~= Seq::empty());
        }
        r
    }

    /// Builds an operation that opens an account for `owner` with a
    /// starting balance of `balance`; it checks nothing.
    pub fn open_account(&self, owner: Actor, balance: Money) -> (r: Op)
        ensures
            r@ == (OpView::OpenAccount { owner, balance }),
    {
        Op::OpenAccount { owner, balance }
    }

    /// Every applied transfer in which `actor` sends or receives money,
    /// in order of application.
    pub fn history(&self, actor: &Actor) -> (r: Vec<Transfer>)
        ensures
            views(r@) == self@.history(*actor),
    {
        let a = *actor;
        let mut r: Vec<Transfer> = Vec::new();
        let mut i: usize = 0;
        while i < self.log.len()
            invariant
                i <= self.log@.len(),
                views(r@) == views(self.log@).take(i as int).filter(involving(a)),
            decreases self.log@.len() - i,
        {
            let t = &self.log[i];
            proof {
                lemma_view(*t);
                let s = views(self.log@);
                assert(s.take(i + 1) =~= s.take(i as int).push(t@));
                s.take(i as int).lemma_filter_push(t@, involving(a));
            }
            if t.from == a || t.to == a {
                let ghost before = views(r@);
                let c = t.clone();
                r.push(c);
                proof {
                    assert(views(r@) =~= before.push(c@));
                }
            }
            i = i + 1;
        }
        proof {
            assert(views(self.log@).take(self.log@.len() as int) =~= views(self.log@));
        }
        r
    }

    /// The present balance of `actor`: its starting balance, plus what it
    /// received, minus what it sent. This walks the whole history.
    pub fn balance(&self, actor: &Actor) -> (r: Result<Money, ValidationError>)
        ensures
            self@.known(*actor) && self@.balance_in_range(*actor) ==> r == Ok::<
                Money,
                ValidationError,
            >(self@.balance(*actor) as Money),
            self@.known(*actor) && !self@.balance_in_range(*actor) ==> r == Err::<
                Money,
                ValidationError,
            >(ValidationError::InvariantViolation(*actor)),
            !self@.known(*actor) ==> r == Err::<Money, ValidationError>(
                ValidationError::AccountNotFound(*actor),
            ),
    {
        let start = match self.initial_balance(actor) {
            Ok(b) => b,
            Err(e) => {
                return Err(e);
            },
        };
        let a = *actor;
        let mut received: u128 = 0;
        let mut sent: u128 = 0;
        let mut i: usize = 0;
        while i < self.log.len()
            invariant
                i <= self.log@.len(),
                received == incoming(views(self.log@).take(i as int), a),
                sent == outgoing(views(self.log@).take(i as int), a),
                received <= i * 0xffff_ffff_ffff_ffffu128,
                sent <= i * 0xffff_ffff_ffff_ffffu128,
            decreases self.log@.len() - i,
        {
            let t = &self.log[i];
            proof {
                lemma_view(*t);
                let s = views(self.log@);
                assert(s.take(i + 1).drop_last() =~= s.take(i as int));
            }
            if t.to == a {
                received = received + t.amount as u128;
            }
            if t.from == a {
                sent = sent + t.amount as u128;
            }
            i = i + 1;
        }
        proof {
            assert(views(self.log@).take(self.log@.len() as int) =~= views(self.log@));
        }
        let total = start as u128 + received;
        if total < sent {
            return Err(ValidationError::InvariantViolation(a));
        }
        let b = total - sent;
        if b > Money::MAX as u128 {
            return Err(ValidationError::InvariantViolation(a));
        }
        Ok(b as Money)
    }

    /// Whether `t` is in the recorded history of `actor`.
    fn recorded(&self, actor: Actor, t: &Transfer) -> (r: bool)
        ensures
            r == self@.in_history(actor, t@),
    {
        proof {
            lemma_view(*t);
        }
        (t.from == actor || t.to == actor) && listed(&self.log, t)
    }

    /// The entries of `deps` that are not in the recorded history of `actor`.
    fn missing_deps(&self, actor: Actor, deps: &Vec<Transfer>) -> (r: Vec<Transfer>)
        ensures
            views(r@) == self@.missing(actor, views(deps@)),
    {
        let mut r: Vec<Transfer> = Vec::new();
        let mut i: usize = 0;
        while i < deps.len()
            invariant
                i <= deps@.len(),
                views(r@) == views(deps@).take(i as int).filter(self@.unrecorded(actor)),
            decreases deps@.len() - i,
        {
            let d = &deps[i];
            proof {
                let s = views(deps@);
                assert(s.take(i + 1) =~= s.take(i as int).push(d@));
                s.take(i as int).lemma_filter_push(d@, self@.unrecorded(actor));
            }
            if !self.recorded(actor, d) {
                let ghost before = views(r@);
                let c = d.clone();
                r.push(c);
                proof {
                    assert(views(r@) =~= before.push(c@));
                }
            }
            i = i + 1;
        }
        proof {
            assert(views(deps@).take(deps@.len() as int) =~= views(deps@));
        }
        r
    }

    /// Checks `op`, initiated by `source`, against this replica's state,
    /// without changing it. The first failing check gives the error.
    pub fn validate(&self, source: &Actor, op: &Op) -> (r: Result<(), ValidationError>)
        ensures
            verdict(r) == self@.validation(*source, op@),
    {
        match op {
            Op::Transfer(t) => {
                proof {
                    lemma_view(*t);
                }
                if *source != t.from {
                    Err(ValidationError::NotInitiatedByAccountOwner { source: *source, owner: t.from })
                } else if !self.initial_balances.contains_key(&t.from) {
                    Err(ValidationError::FromAccountDoesNotExist(t.from))
                } else if !self.initial_balances.contains_key(&t.to) {
                    Err(ValidationError::ToAccountDoesNotExist(t.to))
                } else {
                    let balance = match self.balance(&t.from) {
                        Ok(b) => b,
                        Err(e) => {
                            return Err(e);
                        },
                    };
                    if balance < t.amount {
                        Err(ValidationError::InsufficientFunds { balance, transfer_amount: t.amount })
                    } else {
                        let missing = self.missing_deps(t.from, &t.deps);
                        proof {
                            assert(views(missing@).len() == missing@.len());
                            assert(t@.deps =~= views(t.deps@));
                        }
                        if missing.len() > 0 {
                            Err(ValidationError::MissingDependentOps(missing))
                        } else {
                            Ok(())
                        }
                    }
                }
            },
            Op::OpenAccount { owner, balance: _ } => {
                if *source != *owner {
                    Err(ValidationError::NotInitiatedByAccountOwner { source: *source, owner: *owner })
                } else if self.initial_balances.contains_key(owner) {
                    Err(ValidationError::OwnerAlreadyHasAnAccount)
                } else {
                    Ok(())
                }
            },
        }
    }

    /// Builds an operation that moves `amount` from `from` to `to`, citing
    /// the current proof-of-funds frontier; `None` when `from` has no
    /// account or its balance is below `amount`. This is a local pre-check:
    /// `validate` decides.
    pub fn transfer(&self, from: Actor, to: Actor, amount: Money) -> (r: Option<Op>)
        ensures
            r is Some <==> self@.known(from) && self@.balance_in_range(from) && self@.balance(
                from,
            ) >= amount,
            r is Some ==> r->Some_0@ == OpView::Transfer(
                TransferView { from, to, amount, deps: self@.deps },
            ),
    {
        let balance = match self.balance(&from) {
            Ok(b) => b,
            Err(_) => {
                return None;
            },
        };
        if balance < amount {
            None
        } else {
            let deps = clone_all(&self.deps);
            let t = Transfer { from, to, amount, deps };
            proof {
                lemma_view(t);
                assert(t@.deps =~= self@.deps);
            }
            Some(Op::Transfer(t))
        }
    }

    /// Applies `op`, which the broadcast layer has delivered after
    /// agreement. Redelivering a transfer that is already in the log
    /// changes nothing.
    pub fn apply(&mut self, op: Op)
        requires
            old(self).wf(),
        ensures
            final(self)@ == old(self)@.applied(op@),
            final(self).wf(),
    {
        proof {
            lemma_applied_wf(old(self)@, op@);
        }
        match op {
            Op::Transfer(t) => {
                proof {
                    lemma_view(t);
                }
                if listed(&self.log, &t) {
                    return;
                }
                let c = t.clone();
                self.log.push(c);
                proof {
                    assert(views(self.log@) =~= old(self)@.log.push(c@));
                }
                if t.to == self.id && !listed(&self.deps, &t) {
                    let c = t.clone();
                    self.deps.push(c);
                    proof {
                        assert(views(self.deps@) =~= old(self)@.deps.push(c@));
                    }
                }
                proof {
                    assert(views(self.deps@) =~= old(self)@.received(t@));
                    assert(t@.deps =~= views(t.deps@));
                }
                if t.from == self.id {
                    self.deps = unlisted(&self.deps, &t.deps);
                }
                proof {
                    assert(self@.log =~= old(self)@.applied(op@).log);
                    assert(self@.deps =~= old(self)@.applied(op@).deps);
                }
            },
            Op::OpenAccount { owner, balance } => {
                self.initial_balances.insert(owner, balance);
            },
        }
    }

    /// The starting balance of `actor`, before any transfer.
    pub fn initial_balance(&self, actor: &Actor) -> (r: Result<Money, ValidationError>)
        ensures
            self@.known(*actor) ==> r == Ok::<Money, ValidationError>(
                self@.initial_balances[*actor],
            ),
            !self@.known(*actor) ==> r == Err::<Money, ValidationError>(
                ValidationError::AccountNotFound(*actor),
            ),
    {
        match self.initial_balances.get(actor) {
            Some(b) => Ok(*b),
            None => Err(ValidationError::AccountNotFound(*actor)),
        }
    }
}

} // verus!
