//! What holds of every replica driven through validated operations.
use vstd::prelude::*;

use crate::bank::{absent_from, incoming, involves, involving, outgoing, BankView, ValidationErrorView};
use crate::money::{Actor, Money};
use crate::op::OpView;
use crate::transfer::TransferView;

verus! {

impl BankView {
    /// The state that validated operations keep: the ledger's invariant,
    /// every logged transfer between open accounts, and no balance below 0.
    pub open spec fn consistent(self) -> bool {
        &&& self.wf()
        &&& forall|i: int|
            0 <= i < self.log.len() ==> self.known(#[trigger] self.log[i].from) && self.known(
                self.log[i].to,
            )
        &&& forall|a: Actor| #[trigger] self.known(a) ==> self.balance(a) >= 0
    }
}

/// The sum of the balances of `accounts`.
pub open spec fn total_balance(b: BankView, accounts: Seq<Actor>) -> int
    decreases accounts.len(),
{
    if accounts.len() == 0 {
        0
    } else {
        total_balance(b, accounts.drop_last()) + b.balance(accounts.last())
    }
}

/// The sum of the starting balances of `accounts`.
pub open spec fn total_initial(b: BankView, accounts: Seq<Actor>) -> int
    decreases accounts.len(),
{
    if accounts.len() == 0 {
        0
    } else {
        total_initial(b, accounts.drop_last()) + b.initial_balances[accounts.last()] as int
    }
}

/// Whether `accounts` lists every open account of `b` exactly once.
pub open spec fn lists_accounts(b: BankView, accounts: Seq<Actor>) -> bool {
    &&& accounts.no_duplicates()
    &&& forall|a: Actor| #[trigger] accounts.contains(a) <==> b.known(a)
}

/// What the transfers of `log` moved in and out of `accounts`, in sum.
spec fn total_net(log: Seq<TransferView>, accounts: Seq<Actor>) -> int
    decreases accounts.len(),
{
    if accounts.len() == 0 {
        0
    } else {
        total_net(log, accounts.drop_last()) + incoming(log, accounts.last()) - outgoing(
            log,
            accounts.last(),
        )
    }
}

/// `amount` counted once for each entry of `accounts` that is `x`.
spec fn share(accounts: Seq<Actor>, x: Actor, amount: int) -> int
    decreases accounts.len(),
{
    if accounts.len() == 0 {
        0
    } else {
        share(accounts.drop_last(), x, amount) + if accounts.last() == x {
            amount
        } else {
            0
        }
    }
}

proof fn lemma_push_sums(log: Seq<TransferView>, t: TransferView, a: Actor)
    ensures
        incoming(log.push(t), a) == incoming(log, a) + if t.to == a {
            t.amount as int
        } else {
            0
        },
        outgoing(log.push(t), a) == outgoing(log, a) + if t.from == a {
            t.amount as int
        } else {
            0
        },
{
    assert(log.push(t).drop_last() =~= log);
}

proof fn lemma_untouched_sums(log: Seq<TransferView>, a: Actor)
    requires
        forall|i: int| 0 <= i < log.len() ==> #[trigger] log[i].from != a && log[i].to != a,
    ensures
        incoming(log, a) == 0,
        outgoing(log, a) == 0,
    decreases log.len(),
{
    if log.len() > 0 {
        let r = log.drop_last();
        assert forall|i: int| 0 <= i < r.len() implies #[trigger] r[i].from != a && r[i].to
            != a by {
            assert(r[i] == log[i]);
        }
        lemma_untouched_sums(r, a);
        assert(log[log.len() - 1].from != a);
    }
}

proof fn lemma_total_split(b: BankView, accounts: Seq<Actor>)
    ensures
        total_balance(b, accounts) == total_initial(b, accounts) + total_net(b.log, accounts),
    decreases accounts.len(),
{
    if accounts.len() > 0 {
        lemma_total_split(b, accounts.drop_last());
    }
}

proof fn lemma_share(accounts: Seq<Actor>, x: Actor, amount: int)
    requires
        accounts.no_duplicates(),
    ensures
        share(accounts, x, amount) == if accounts.contains(x) {
            amount
        } else {
            0
        },
    decreases accounts.len(),
{
    if accounts.len() > 0 {
        let r = accounts.drop_last();
        assert(r.no_duplicates());
        lemma_share(r, x, amount);
        if accounts.last() == x {
            if r.contains(x) {
                let k = choose|k: int| 0 <= k < r.len() && r[k] == x;
                assert(accounts[k] == accounts[accounts.len() - 1]);
            }
        } else if accounts.contains(x) {
            let k = choose|k: int| 0 <= k < accounts.len() && accounts[k] == x;
            assert(r[k] == x);
        } else if r.contains(x) {
            let k = choose|k: int| 0 <= k < r.len() && r[k] == x;
            assert(accounts[k] == x);
        }
    }
}

proof fn lemma_net_push(log: Seq<TransferView>, t: TransferView, accounts: Seq<Actor>)
    ensures
        total_net(log.push(t), accounts) == total_net(log, accounts) + share(
            accounts,
            t.to,
            t.amount as int,
        ) - share(accounts, t.from, t.amount as int),
    decreases accounts.len(),
{
    if accounts.len() > 0 {
        lemma_net_push(log, t, accounts.drop_last());
        lemma_push_sums(log, t, accounts.last());
    }
}

proof fn lemma_net_zero(log: Seq<TransferView>, accounts: Seq<Actor>)
    requires
        accounts.no_duplicates(),
        forall|i: int|
            0 <= i < log.len() ==> accounts.contains(#[trigger] log[i].from) && accounts.contains(
                log[i].to,
            ),
    ensures
        total_net(log, accounts) == 0,
    decreases log.len(),
{
    if log.len() == 0 {
        lemma_net_empty(log, accounts);
    } else {
        let r = log.drop_last();
        let t = log.last();
        assert forall|i: int| 0 <= i < r.len() implies accounts.contains(#[trigger] r[i].from)
            && accounts.contains(r[i].to) by {
            assert(r[i] == log[i]);
        }
        lemma_net_zero(r, accounts);
        assert(r.push(t) =~= log);
        lemma_net_push(r, t, accounts);
        assert(log[log.len() - 1] == t);
        lemma_share(accounts, t.to, t.amount as int);
        lemma_share(accounts, t.from, t.amount as int);
    }
}

proof fn lemma_net_empty(log: Seq<TransferView>, accounts: Seq<Actor>)
    requires
        log.len() == 0,
    ensures
        total_net(log, accounts) == 0,
    decreases accounts.len(),
{
    if accounts.len() > 0 {
        lemma_net_empty(log, accounts.drop_last());
    }
}

/// Conservation: over the open accounts of a consistent replica, the
/// balances add up to the starting balances.
pub proof fn law_conservation(b: BankView, accounts: Seq<Actor>)
    requires
        b.consistent(),
        lists_accounts(b, accounts),
    ensures
        total_balance(b, accounts) == total_initial(b, accounts),
{
    assert forall|i: int| 0 <= i < b.log.len() implies accounts.contains(
        #[trigger] b.log[i].from,
    ) && accounts.contains(b.log[i].to) by {
        assert(b.known(b.log[i].from));
        assert(b.known(b.log[i].to));
    }
    lemma_net_zero(b.log, accounts);
    lemma_total_split(b, accounts);
}

proof fn lemma_one_below_total(b: BankView, accounts: Seq<Actor>, a: Actor)
    requires
        forall|x: Actor| #[trigger] accounts.contains(x) ==> b.balance(x) >= 0,
        accounts.contains(a),
    ensures
        b.balance(a) <= total_balance(b, accounts),
    decreases accounts.len(),
{
    let r = accounts.drop_last();
    assert forall|x: Actor| #[trigger] r.contains(x) implies b.balance(x) >= 0 by {
        let k = choose|k: int| 0 <= k < r.len() && r[k] == x;
        assert(accounts[k] == x);
        assert(accounts.contains(x));
    }
    lemma_total_nonneg(b, r);
    if accounts.last() != a {
        let k = choose|k: int| 0 <= k < accounts.len() && accounts[k] == a;
        assert(k != accounts.len() - 1);
        assert(r[k] == a);
        lemma_one_below_total(b, r, a);
    }
    assert(accounts.contains(accounts.last())) by {
        assert(accounts[accounts.len() - 1] == accounts.last());
    }
}

proof fn lemma_total_nonneg(b: BankView, accounts: Seq<Actor>)
    requires
        forall|x: Actor| #[trigger] accounts.contains(x) ==> b.balance(x) >= 0,
    ensures
        total_balance(b, accounts) >= 0,
    decreases accounts.len(),
{
    if accounts.len() > 0 {
        let r = accounts.drop_last();
        assert forall|x: Actor| #[trigger] r.contains(x) implies b.balance(x) >= 0 by {
            let k = choose|k: int| 0 <= k < r.len() && r[k] == x;
            assert(accounts[k] == x);
            assert(accounts.contains(x));
        }
        lemma_total_nonneg(b, r);
        assert(accounts.contains(accounts.last())) by {
            assert(accounts[accounts.len() - 1] == accounts.last());
        }
    }
}

/// Boundedness: in a consistent replica whose starting balances add up to
/// at most `Money::MAX`, every open account's balance is a valid amount.
pub proof fn law_boundedness(b: BankView, accounts: Seq<Actor>, a: Actor)
    requires
        b.consistent(),
        lists_accounts(b, accounts),
        total_initial(b, accounts) <= Money::MAX,
        b.known(a),
    ensures
        0 <= b.balance(a) <= Money::MAX,
        b.balance_in_range(a),
{
    law_conservation(b, accounts);
    assert forall|x: Actor| #[trigger] accounts.contains(x) implies b.balance(x) >= 0 by {
        assert(b.known(x));
    }
    lemma_one_below_total(b, accounts, a);
}

/// Applying an operation that passed validation keeps a replica consistent.
pub proof fn law_validated_apply_keeps_consistency(b: BankView, source: Actor, op: OpView)
    requires
        b.consistent(),
        b.validation(source, op) is Ok,
    ensures
        b.applied(op).consistent(),
{
    crate::bank::lemma_applied_wf(b, op);
    let n = b.applied(op);
    match op {
        OpView::Transfer(t) => {
            assert(b.known(t.from) && b.known(t.to) && b.balance(t.from) >= t.amount);
            if b.log.contains(t) {
                assert(n.log == b.log);
                assert forall|a: Actor| #[trigger] n.known(a) implies n.balance(a) >= 0 by {
                    assert(b.known(a));
                }
                assert forall|i: int| 0 <= i < n.log.len() implies n.known(
                    #[trigger] n.log[i].from,
                ) && n.known(n.log[i].to) by {
                    assert(b.known(b.log[i].from));
                }
            } else {
                assert forall|i: int| 0 <= i < n.log.len() implies n.known(
                    #[trigger] n.log[i].from,
                ) && n.known(n.log[i].to) by {
                    if i < b.log.len() {
                        assert(n.log[i] == b.log[i]);
                        assert(b.known(b.log[i].from));
                    } else {
                        assert(n.log[i] == t);
                    }
                }
                assert forall|a: Actor| #[trigger] n.known(a) implies n.balance(a) >= 0 by {
                    lemma_push_sums(b.log, t, a);
                    assert(b.known(a));
                }
            }
        },
        OpView::OpenAccount { owner, balance } => {
            assert forall|a: Actor| #[trigger] n.known(a) implies n.balance(a) >= 0 by {
                if a == owner {
                    assert forall|i: int| 0 <= i < b.log.len() implies #[trigger] b.log[i].from
                        != a && b.log[i].to != a by {
                        assert(b.known(b.log[i].from));
                        assert(b.known(b.log[i].to));
                    }
                    lemma_untouched_sums(b.log, a);
                } else {
                    assert(b.known(a));
                }
            }
            assert forall|i: int| 0 <= i < n.log.len() implies n.known(
                #[trigger] n.log[i].from,
            ) && n.known(n.log[i].to) by {
                assert(b.known(b.log[i].from));
                assert(b.known(b.log[i].to));
            }
        },
    }
}

/// The state after applying each operation of `steps` in order; each step
/// names the actor that initiated it.
pub open spec fn run(b: BankView, steps: Seq<(Actor, OpView)>) -> BankView
    decreases steps.len(),
{
    if steps.len() == 0 {
        b
    } else {
        run(b.applied(steps[0].1), steps.drop_first())
    }
}

/// Whether each operation of `steps` passes validation in the state that
/// the steps before it leave.
pub open spec fn validated_run(b: BankView, steps: Seq<(Actor, OpView)>) -> bool
    decreases steps.len(),
{
    if steps.len() == 0 {
        true
    } else {
        b.validation(steps[0].0, steps[0].1) is Ok && validated_run(
            b.applied(steps[0].1),
            steps.drop_first(),
        )
    }
}

/// A run of validated operations keeps a replica consistent.
pub proof fn law_validated_run_keeps_consistency(b: BankView, steps: Seq<(Actor, OpView)>)
    requires
        b.consistent(),
        validated_run(b, steps),
    ensures
        run(b, steps).consistent(),
    decreases steps.len(),
{
    if steps.len() > 0 {
        law_validated_apply_keeps_consistency(b, steps[0].0, steps[0].1);
        law_validated_run_keeps_consistency(b.applied(steps[0].1), steps.drop_first());
    }
}

/// Conservation over runs: after any run of validated operations on a new
/// replica, the balances of the open accounts add up to their starting
/// balances.
pub proof fn law_conservation_over_runs(
    id: Actor,
    steps: Seq<(Actor, OpView)>,
    accounts: Seq<Actor>,
)
    requires
        validated_run(BankView::empty(id), steps),
        lists_accounts(run(BankView::empty(id), steps), accounts),
    ensures
        total_balance(run(BankView::empty(id), steps), accounts) == total_initial(
            run(BankView::empty(id), steps),
            accounts,
        ),
{
    lemma_empty_consistent(id);
    law_validated_run_keeps_consistency(BankView::empty(id), steps);
    law_conservation(run(BankView::empty(id), steps), accounts);
}

/// Boundedness over runs: after any run of validated operations on a new
/// replica whose starting balances add up to at most `Money::MAX`, every
/// open account's balance is a valid amount.
pub proof fn law_boundedness_over_runs(
    id: Actor,
    steps: Seq<(Actor, OpView)>,
    accounts: Seq<Actor>,
    a: Actor,
)
    requires
        validated_run(BankView::empty(id), steps),
        lists_accounts(run(BankView::empty(id), steps), accounts),
        total_initial(run(BankView::empty(id), steps), accounts) <= Money::MAX,
        run(BankView::empty(id), steps).known(a),
    ensures
        run(BankView::empty(id), steps).balance_in_range(a),
{
    lemma_empty_consistent(id);
    law_validated_run_keeps_consistency(BankView::empty(id), steps);
    law_boundedness(run(BankView::empty(id), steps), accounts, a);
}

/// A new replica is consistent.
pub proof fn lemma_empty_consistent(id: Actor)
    ensures
        BankView::empty(id).consistent(),
        BankView::empty(id).frontier_exact(),
{
}

impl BankView {
    /// Whether some logged transfer sent by `id` cites `v` as proof of funds.
    pub open spec fn cited(self, v: TransferView) -> bool {
        exists|i: int|
            0 <= i < self.log.len() && self.log[i].from == self.id && #[trigger] self.log[i].deps.contains(
                v,
            )
    }

    /// The frontier is exactly the logged transfers received by `id` that
    /// no logged transfer sent by `id` cites, and every logged transfer
    /// cites logged transfers only.
    pub open spec fn frontier_exact(self) -> bool {
        &&& forall|i: int, j: int|
            0 <= i < self.log.len() && 0 <= j < self.log[i].deps.len() ==> self.log.contains(
                #[trigger] self.log[i].deps[j],
            )
        &&& forall|v: TransferView|
            #[trigger] self.deps.contains(v) <==> self.log.contains(v) && v.to == self.id
                && !self.cited(v)
    }
}

/// The frontier stays exact when an operation that passed validation is
/// applied.
pub proof fn law_validated_apply_keeps_frontier_exact(b: BankView, source: Actor, op: OpView)
    requires
        b.consistent(),
        b.frontier_exact(),
        b.validation(source, op) is Ok,
    ensures
        b.applied(op).frontier_exact(),
{
    let n = b.applied(op);
    match op {
        OpView::Transfer(t) => {
            if !b.log.contains(t) {
                assert(b.missing(t.from, t.deps).len() == 0);
                assert forall|j: int| 0 <= j < t.deps.len() implies b.log.contains(t.deps[j]) by {
                    if !b.in_history(t.from, t.deps[j]) {
                        t.deps.lemma_filter_contains(b.unrecorded(t.from), j);
                    }
                }
                assert(n.log =~= b.log.push(t));
                assert forall|x: TransferView| b.log.contains(x) implies n.log.contains(x) by {
                    let k = choose|k: int| 0 <= k < b.log.len() && b.log[k] == x;
                    assert(n.log[k] == x);
                }
                assert(n.log.contains(t)) by {
                    assert(n.log[b.log.len() as int] == t);
                }
                assert forall|x: TransferView| n.log.contains(x) implies b.log.contains(x) || x == t by {
                    let k = choose|k: int| 0 <= k < n.log.len() && n.log[k] == x;
                    if k < b.log.len() {
                        assert(b.log[k] == x);
                    }
                }
                assert forall|i: int, j: int|
                    0 <= i < n.log.len() && 0 <= j < n.log[i].deps.len() implies n.log.contains(
                        #[trigger] n.log[i].deps[j],
                    ) by {
                    if i < b.log.len() {
                        assert(n.log[i] == b.log[i]);
                        assert(b.log.contains(b.log[i].deps[j]));
                    } else {
                        assert(n.log[i] == t);
                    }
                }
                // t is in neither the old frontier, nor cited, nor among its own deps.
                assert(!b.deps.contains(t)) by {
                    if b.deps.contains(t) {
                        let k = choose|k: int| 0 <= k < b.deps.len() && b.deps[k] == t;
                        assert(b.in_history(b.id, b.deps[k]));
                    }
                }
                assert(!b.cited(t)) by {
                    if b.cited(t) {
                        let i = choose|i: int|
                            0 <= i < b.log.len() && b.log[i].from == b.id
                                && #[trigger] b.log[i].deps.contains(t);
                        let j = choose|j: int| 0 <= j < b.log[i].deps.len() && b.log[i].deps[j] == t;
                        assert(b.log.contains(b.log[i].deps[j]));
                    }
                }
                assert(!t.deps.contains(t)) by {
                    if t.deps.contains(t) {
                        let j = choose|j: int| 0 <= j < t.deps.len() && t.deps[j] == t;
                        assert(b.log.contains(t.deps[j]));
                    }
                }
                let d1 = b.received(t);
                assert forall|v: TransferView| d1.contains(v) <==> b.deps.contains(v) || (t.to
                    == b.id && v == t) by {
                    if t.to == b.id && !b.deps.contains(t) {
                        if d1.contains(v) {
                            let k = choose|k: int| 0 <= k < d1.len() && d1[k] == v;
                            if k < b.deps.len() {
                                assert(b.deps[k] == v);
                            }
                        }
                        if b.deps.contains(v) {
                            let k = choose|k: int| 0 <= k < b.deps.len() && b.deps[k] == v;
                            assert(d1[k] == v);
                        }
                        if v == t {
                            assert(d1[b.deps.len() as int] == v);
                        }
                    }
                }
                assert forall|v: TransferView| n.cited(v) <==> b.cited(v) || (t.from == b.id
                    && t.deps.contains(v)) by {
                    if n.cited(v) {
                        let i = choose|i: int|
                            0 <= i < n.log.len() && n.log[i].from == n.id
                                && #[trigger] n.log[i].deps.contains(v);
                        if i < b.log.len() {
                            assert(b.log[i] == n.log[i]);
                        } else {
                            assert(n.log[i] == t);
                        }
                    }
                    if b.cited(v) {
                        let i = choose|i: int|
                            0 <= i < b.log.len() && b.log[i].from == b.id
                                && #[trigger] b.log[i].deps.contains(v);
                        assert(n.log[i] == b.log[i]);
                    }
                    if t.from == b.id && t.deps.contains(v) {
                        assert(n.log[b.log.len() as int] == t);
                    }
                }
                assert forall|v: TransferView| #[trigger] n.deps.contains(v) <==> n.log.contains(v)
                    && v.to == n.id && !n.cited(v) by {
                    if t.from == b.id {
                        if n.deps.contains(v) {
                            d1.lemma_filter_contains_rev(absent_from(t.deps), v);
                            let k = choose|k: int| 0 <= k < n.deps.len() && n.deps[k] == v;
                            d1.lemma_filter_pred(absent_from(t.deps), k);
                        }
                        if d1.contains(v) && !t.deps.contains(v) {
                            let k = choose|k: int| 0 <= k < d1.len() && d1[k] == v;
                            d1.lemma_filter_contains(absent_from(t.deps), k);
                        }
                    }
                }
            }
        },
        OpView::OpenAccount { owner, balance } => {
            assert forall|v: TransferView| n.cited(v) <==> b.cited(v) by {
                if n.cited(v) {
                    let i = choose|i: int|
                        0 <= i < n.log.len() && n.log[i].from == n.id
                            && #[trigger] n.log[i].deps.contains(v);
                    assert(b.log[i] == n.log[i]);
                }
                if b.cited(v) {
                    let i = choose|i: int|
                        0 <= i < b.log.len() && b.log[i].from == b.id
                            && #[trigger] b.log[i].deps.contains(v);
                    assert(b.log[i] == n.log[i]);
                }
            }
        },
    }
}

/// A run of validated operations keeps the frontier exact.
pub proof fn law_validated_run_keeps_frontier_exact(b: BankView, steps: Seq<(Actor, OpView)>)
    requires
        b.consistent(),
        b.frontier_exact(),
        validated_run(b, steps),
    ensures
        run(b, steps).frontier_exact(),
    decreases steps.len(),
{
    if steps.len() > 0 {
        law_validated_apply_keeps_frontier_exact(b, steps[0].0, steps[0].1);
        law_validated_apply_keeps_consistency(b, steps[0].0, steps[0].1);
        law_validated_run_keeps_frontier_exact(b.applied(steps[0].1), steps.drop_first());
    }
}

/// After any run of validated operations on a new replica, its frontier
/// holds exactly the transfers received by `id` that no applied transfer
/// sent by `id` has cited.
pub proof fn law_frontier_over_runs(id: Actor, steps: Seq<(Actor, OpView)>)
    requires
        validated_run(BankView::empty(id), steps),
    ensures
        run(BankView::empty(id), steps).frontier_exact(),
{
    lemma_empty_consistent(id);
    law_validated_run_keeps_frontier_exact(BankView::empty(id), steps);
}

proof fn lemma_sums_over_history(log: Seq<TransferView>, a: Actor)
    ensures
        incoming(log.filter(involving(a)), a) == incoming(log, a),
        outgoing(log.filter(involving(a)), a) == outgoing(log, a),
    decreases log.len(),
{
    if log.len() > 0 {
        let r = log.drop_last();
        let x = log.last();
        lemma_sums_over_history(r, a);
        assert(r.push(x) =~= log);
        r.lemma_filter_push(x, involving(a));
        lemma_push_sums(r, x, a);
        lemma_push_sums(r.filter(involving(a)), x, a);
    }
}

proof fn lemma_in_history(b: BankView, a: Actor, v: TransferView)
    ensures
        b.in_history(a, v) <==> b.history(a).contains(v),
{
    if b.in_history(a, v) {
        let k = choose|k: int| 0 <= k < b.log.len() && b.log[k] == v;
        b.log.lemma_filter_contains(involving(a), k);
    }
    if b.history(a).contains(v) {
        b.log.lemma_filter_contains_rev(involving(a), v);
        let k = choose|k: int| 0 <= k < b.history(a).len() && b.history(a)[k] == v;
        b.log.lemma_filter_pred(involving(a), k);
    }
}

/// Purity: replicas that agree on the open accounts and on every account's
/// history agree on every verdict, whatever order their logs hold the
/// transfers of unrelated accounts in, whichever account they stand for,
/// and whatever their frontier.
pub proof fn law_validation_depends_on_histories(
    b1: BankView,
    b2: BankView,
    source: Actor,
    op: OpView,
)
    requires
        b1.initial_balances == b2.initial_balances,
        forall|a: Actor| #[trigger] b1.history(a) == b2.history(a),
    ensures
        b1.validation(source, op) == b2.validation(source, op),
{
    match op {
        OpView::Transfer(t) => {
            let f = t.from;
            assert(b1.history(f) == b2.history(f));
            lemma_sums_over_history(b1.log, f);
            lemma_sums_over_history(b2.log, f);
            assert(b1.balance(f) == b2.balance(f));
            assert forall|v: TransferView| #[trigger] b1.in_history(f, v) == b2.in_history(f, v) by {
                lemma_in_history(b1, f, v);
                lemma_in_history(b2, f, v);
            }
            assert(b1.unrecorded(f) =~= b2.unrecorded(f));
            assert(b1.missing(f, t.deps) == b2.missing(f, t.deps));
        },
        OpView::OpenAccount { owner, balance } => {},
    }
}

/// Idempotence: redelivering a transfer that is already in the log leaves
/// the replica exactly as it is, its history and its frontier included.
pub proof fn law_redelivery_is_a_no_op(b: BankView, t: TransferView)
    requires
        b.log.contains(t),
    ensures
        b.applied(OpView::Transfer(t)) == b,
{
}

/// Idempotence: applying the same transfer twice in a row leaves the
/// replica as applying it once does.
pub proof fn law_apply_transfer_twice(b: BankView, t: TransferView)
    ensures
        b.applied(OpView::Transfer(t)).applied(OpView::Transfer(t)) == b.applied(
            OpView::Transfer(t),
        ),
{
    let n = b.applied(OpView::Transfer(t));
    if !b.log.contains(t) {
        assert(n.log[b.log.len() as int] == t);
    }
    law_redelivery_is_a_no_op(n, t);
}

/// Causal gating: a transfer that passes every earlier check, but cites a
/// proof-of-funds transfer missing from the sender's recorded history, is
/// refused for that reason, and the refusal lists the missing transfer.
pub proof fn law_causal_gating(b: BankView, t: TransferView, i: int)
    requires
        b.known(t.from),
        b.known(t.to),
        b.balance_in_range(t.from),
        b.balance(t.from) >= t.amount,
        0 <= i < t.deps.len(),
        !b.in_history(t.from, t.deps[i]),
    ensures
        b.validation(t.from, OpView::Transfer(t)) == Err::<(), ValidationErrorView>(
            ValidationErrorView::MissingDependentOps(b.missing(t.from, t.deps)),
        ),
        b.missing(t.from, t.deps).contains(t.deps[i]),
{
    t.deps.lemma_filter_contains(b.unrecorded(t.from), i);
}

/// Double-spend exclusion: once a replica has applied a transfer that
/// spends the whole balance of an account, every other transfer of the
/// same amount from that account is refused there for want of funds.
pub proof fn law_no_double_spend(b: BankView, t1: TransferView, t2: TransferView)
    requires
        b.validation(t1.from, OpView::Transfer(t1)) is Ok,
        !b.log.contains(t1),
        t1.to != t1.from,
        t1.amount == b.balance(t1.from),
        t1.amount > 0,
        t2.from == t1.from,
        t2.amount == t1.amount,
        b.known(t2.to),
    ensures
        b.applied(OpView::Transfer(t1)).balance(t1.from) == 0,
        b.applied(OpView::Transfer(t1)).validation(t2.from, OpView::Transfer(t2)) == Err::<
            (),
            ValidationErrorView,
        >(ValidationErrorView::InsufficientFunds { balance: 0, transfer_amount: t2.amount }),
{
    lemma_push_sums(b.log, t1, t1.from);
}

/// Whether every transfer among `steps` that moves money in or out of `a`
/// is `t1` or `t2`.
pub open spec fn only_candidates_touch(
    steps: Seq<(Actor, OpView)>,
    a: Actor,
    t1: TransferView,
    t2: TransferView,
) -> bool {
    forall|i: int|
        0 <= i < steps.len() ==> match #[trigger] steps[i].1 {
            OpView::Transfer(s) => involves(s, a) ==> s == t1 || s == t2,
            OpView::OpenAccount { .. } => true,
        }
}

/// Where a contest between two spends of the whole balance `amount` of
/// `a` stands: neither applied and the balance intact, or one applied and
/// the balance spent.
pub open spec fn contest(b: BankView, a: Actor, t1: TransferView, t2: TransferView, amount: int) -> bool {
    &&& b.consistent()
    &&& b.known(a)
    &&& (!b.log.contains(t1) && !b.log.contains(t2) && b.balance(a) == amount) || (b.log.contains(
        t1,
    ) != b.log.contains(t2) && b.balance(a) == 0)
}

proof fn lemma_contest_step(
    b: BankView,
    source: Actor,
    op: OpView,
    a: Actor,
    t1: TransferView,
    t2: TransferView,
    amount: int,
)
    requires
        contest(b, a, t1, t2, amount),
        amount > 0,
        t1.from == a && t2.from == a && t1.to != a && t2.to != a,
        t1.amount == amount && t2.amount == amount,
        t1 != t2,
        b.validation(source, op) is Ok,
        match op {
            OpView::Transfer(s) => involves(s, a) ==> s == t1 || s == t2,
            OpView::OpenAccount { .. } => true,
        },
    ensures
        contest(b.applied(op), a, t1, t2, amount),
{
    law_validated_apply_keeps_consistency(b, source, op);
    let n = b.applied(op);
    match op {
        OpView::Transfer(s) => {
            if !b.log.contains(s) {
                lemma_push_sums(b.log, s, a);
                assert(n.log =~= b.log.push(s));
                assert forall|x: TransferView| #[trigger] n.log.contains(x) <==> b.log.contains(x)
                    || x == s by {
                    if n.log.contains(x) {
                        let k = choose|k: int| 0 <= k < n.log.len() && n.log[k] == x;
                        if k < b.log.len() {
                            assert(b.log[k] == x);
                        }
                    }
                    if b.log.contains(x) {
                        let k = choose|k: int| 0 <= k < b.log.len() && b.log[k] == x;
                        assert(n.log[k] == x);
                    }
                    if x == s {
                        assert(n.log[b.log.len() as int] == s);
                    }
                }
            }
        },
        OpView::OpenAccount { owner, balance } => {
            assert(owner != a);
        },
    }
}

proof fn lemma_contest_run(
    b: BankView,
    steps: Seq<(Actor, OpView)>,
    a: Actor,
    t1: TransferView,
    t2: TransferView,
    amount: int,
)
    requires
        contest(b, a, t1, t2, amount),
        amount > 0,
        t1.from == a && t2.from == a && t1.to != a && t2.to != a,
        t1.amount == amount && t2.amount == amount,
        t1 != t2,
        validated_run(b, steps),
        only_candidates_touch(steps, a, t1, t2),
    ensures
        contest(run(b, steps), a, t1, t2, amount),
    decreases steps.len(),
{
    if steps.len() > 0 {
        let rest = steps.drop_first();
        assert(match steps[0].1 {
            OpView::Transfer(s) => involves(s, a) ==> s == t1 || s == t2,
            OpView::OpenAccount { .. } => true,
        });
        lemma_contest_step(b, steps[0].0, steps[0].1, a, t1, t2, amount);
        assert forall|i: int| 0 <= i < rest.len() implies match #[trigger] rest[i].1 {
            OpView::Transfer(s) => involves(s, a) ==> s == t1 || s == t2,
            OpView::OpenAccount { .. } => true,
        } by {
            assert(rest[i] == steps[i + 1]);
        }
        lemma_contest_run(b.applied(steps[0].1), rest, a, t1, t2, amount);
    }
}

/// Double-spend exclusion over runs: take two different transfers that
/// each spend the whole balance of `a`, held by a consistent replica that
/// has applied neither. After any run of validated operations in which no
/// other transfer moves money in or out of `a`, at most one of them has
/// been applied. If one has, `a` holds 0; if neither has, `a`'s balance is
/// unchanged.
pub proof fn law_no_double_spend_over_runs(
    b: BankView,
    steps: Seq<(Actor, OpView)>,
    t1: TransferView,
    t2: TransferView,
)
    requires
        b.consistent(),
        b.known(t1.from),
        !b.log.contains(t1),
        !b.log.contains(t2),
        t1 != t2,
        t2.from == t1.from,
        t1.to != t1.from && t2.to != t1.from,
        t1.amount == b.balance(t1.from),
        t2.amount == t1.amount,
        t1.amount > 0,
        validated_run(b, steps),
        only_candidates_touch(steps, t1.from, t1, t2),
    ensures
        !(run(b, steps).log.contains(t1) && run(b, steps).log.contains(t2)),
        run(b, steps).log.contains(t1) || run(b, steps).log.contains(t2) ==> run(
            b,
            steps,
        ).balance(t1.from) == 0,
        !run(b, steps).log.contains(t1) && !run(b, steps).log.contains(t2) ==> run(
            b,
            steps,
        ).balance(t1.from) == b.balance(t1.from),
{
    lemma_contest_run(b, steps, t1.from, t1, t2, t1.amount as int);
}

/// Where the two recipients of a contest stand: each holds its balance
/// `before`, plus `amount` once its candidate has been applied.
pub open spec fn recipients_settled(
    b: BankView,
    t1: TransferView,
    t2: TransferView,
    amount: int,
    before1: int,
    before2: int,
) -> bool {
    &&& b.balance(t1.to) == before1 + if b.log.contains(t1) {
        amount
    } else {
        0
    }
    &&& b.balance(t2.to) == before2 + if b.log.contains(t2) {
        amount
    } else {
        0
    }
}

proof fn lemma_recipients_step(
    b: BankView,
    source: Actor,
    op: OpView,
    t1: TransferView,
    t2: TransferView,
    amount: int,
    before1: int,
    before2: int,
)
    requires
        recipients_settled(b, t1, t2, amount, before1, before2),
        b.known(t1.to) && b.known(t2.to),
        b.consistent(),
        t1.to != t2.to,
        t1.from != t1.to && t1.from != t2.to && t2.from != t1.to && t2.from != t2.to,
        t1.amount == amount && t2.amount == amount,
        b.validation(source, op) is Ok,
        match op {
            OpView::Transfer(s) => involves(s, t1.to) || involves(s, t2.to) ==> s == t1 || s
                == t2,
            OpView::OpenAccount { .. } => true,
        },
    ensures
        recipients_settled(b.applied(op), t1, t2, amount, before1, before2),
{
    let n = b.applied(op);
    match op {
        OpView::Transfer(s) => {
            if !b.log.contains(s) {
                lemma_push_sums(b.log, s, t1.to);
                lemma_push_sums(b.log, s, t2.to);
                assert(n.log =~= b.log.push(s));
                assert forall|x: TransferView| #[trigger] n.log.contains(x) <==> b.log.contains(x)
                    || x == s by {
                    if n.log.contains(x) {
                        let k = choose|k: int| 0 <= k < n.log.len() && n.log[k] == x;
                        if k < b.log.len() {
                            assert(b.log[k] == x);
                        }
                    }
                    if b.log.contains(x) {
                        let k = choose|k: int| 0 <= k < b.log.len() && b.log[k] == x;
                        assert(n.log[k] == x);
                    }
                    if x == s {
                        assert(n.log[b.log.len() as int] == s);
                    }
                }
            }
        },
        OpView::OpenAccount { owner, balance } => {
            assert(owner != t1.to && owner != t2.to);
        },
    }
}

/// Whether `steps` holds no operation but openings and the transfers `t1`
/// and `t2`.
pub open spec fn only_candidates(steps: Seq<(Actor, OpView)>, t1: TransferView, t2: TransferView) -> bool {
    forall|i: int|
        0 <= i < steps.len() ==> match #[trigger] steps[i].1 {
            OpView::Transfer(s) => s == t1 || s == t2,
            OpView::OpenAccount { .. } => true,
        }
}

proof fn lemma_both_candidates_run(
    b: BankView,
    steps: Seq<(Actor, OpView)>,
    t1: TransferView,
    t2: TransferView,
    amount: int,
    before1: int,
    before2: int,
)
    requires
        contest(b, t1.from, t1, t2, amount),
        recipients_settled(b, t1, t2, amount, before1, before2),
        b.known(t1.to) && b.known(t2.to),
        amount > 0,
        t2.from == t1.from,
        t1.to != t2.to && t1.to != t1.from && t2.to != t1.from,
        t1.amount == amount && t2.amount == amount,
        t1 != t2,
        validated_run(b, steps),
        only_candidates(steps, t1, t2),
    ensures
        contest(run(b, steps), t1.from, t1, t2, amount),
        recipients_settled(run(b, steps), t1, t2, amount, before1, before2),
    decreases steps.len(),
{
    if steps.len() > 0 {
        let rest = steps.drop_first();
        assert(match steps[0].1 {
            OpView::Transfer(s) => s == t1 || s == t2,
            OpView::OpenAccount { .. } => true,
        });
        lemma_contest_step(b, steps[0].0, steps[0].1, t1.from, t1, t2, amount);
        lemma_recipients_step(b, steps[0].0, steps[0].1, t1, t2, amount, before1, before2);
        assert forall|i: int| 0 <= i < rest.len() implies match #[trigger] rest[i].1 {
            OpView::Transfer(s) => s == t1 || s == t2,
            OpView::OpenAccount { .. } => true,
        } by {
            assert(rest[i] == steps[i + 1]);
        }
        let n = b.applied(steps[0].1);
        assert(n.known(t1.to) && n.known(t2.to)) by {
            match steps[0].1 {
                OpView::Transfer(s) => {},
                OpView::OpenAccount { owner, balance } => {},
            }
        }
        lemma_both_candidates_run(n, rest, t1, t2, amount, before1, before2);
    }
}

/// Two candidate spends of a whole balance, delivered in any order: take a
/// consistent replica where `a` holds `amount > 0` and has applied neither
/// `t1` (to `b`) nor `t2` (to `c`), with `a`, `b` and `c` distinct open
/// accounts. After any run of validated operations made of openings and
/// these two transfers alone, either neither was applied and the three
/// balances are unchanged, or exactly one was: `a` holds 0, its recipient
/// gained `amount`, and the other recipient is unchanged.
pub proof fn law_two_candidates_settle(
    b: BankView,
    steps: Seq<(Actor, OpView)>,
    t1: TransferView,
    t2: TransferView,
)
    requires
        b.consistent(),
        b.known(t1.from) && b.known(t1.to) && b.known(t2.to),
        !b.log.contains(t1),
        !b.log.contains(t2),
        t1 != t2,
        t2.from == t1.from,
        t1.to != t2.to && t1.to != t1.from && t2.to != t1.from,
        t1.amount == b.balance(t1.from),
        t2.amount == t1.amount,
        t1.amount > 0,
        validated_run(b, steps),
        only_candidates(steps, t1, t2),
    ensures
        ({
            let e = run(b, steps);
            let amount = t1.amount as int;
            ||| !e.log.contains(t1) && !e.log.contains(t2) && e.balance(t1.from) == b.balance(
                t1.from,
            ) && e.balance(t1.to) == b.balance(t1.to) && e.balance(t2.to) == b.balance(t2.to)
            ||| e.log.contains(t1) && !e.log.contains(t2) && e.balance(t1.from) == 0 && e.balance(
                t1.to,
            ) == b.balance(t1.to) + amount && e.balance(t2.to) == b.balance(t2.to)
            ||| !e.log.contains(t1) && e.log.contains(t2) && e.balance(t1.from) == 0 && e.balance(
                t2.to,
            ) == b.balance(t2.to) + amount && e.balance(t1.to) == b.balance(t1.to)
        }),
{
    lemma_both_candidates_run(
        b,
        steps,
        t1,
        t2,
        t1.amount as int,
        b.balance(t1.to),
        b.balance(t2.to),
    );
}

} // verus!
