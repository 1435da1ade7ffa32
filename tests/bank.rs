use brb_dt_at2::{Actor, Bank, Money, Op, Transfer, ValidationError};

/// One replica per actor; an operation is applied everywhere only when
/// every replica accepts it.
fn replicas(actors: &[Actor]) -> Vec<Bank> {
    actors.iter().map(|a| Bank::new(*a)).collect()
}

fn broadcast(net: &mut Vec<Bank>, source: Actor, op: &Op) -> bool {
    if net.iter().all(|b| b.validate(&source, op).is_ok()) {
        for b in net.iter_mut() {
            b.apply(op.clone());
        }
        true
    } else {
        false
    }
}

fn open_all(net: &mut Vec<Bank>, accounts: &[(Actor, Money)]) {
    for (a, m) in accounts {
        let op = net[0].open_account(*a, *m);
        assert!(broadcast(net, *a, &op));
    }
}

fn send(net: &mut Vec<Bank>, idx: usize, from: Actor, to: Actor, amount: Money) -> bool {
    let op = net[idx].transfer(from, to, amount).unwrap();
    broadcast(net, from, &op)
}

#[test]
fn there_is_agreement_on_initial_balances_qc1() {
    let actors = [1u64, 2];
    let mut net = replicas(&actors);
    open_all(&mut net, &[(1, 0), (2, 0)]);
    for b in net.iter() {
        let mut remaining: Vec<Money> = vec![0, 0];
        for a in actors.iter() {
            let bal = b.balance(a).unwrap();
            let i = remaining.iter().position(|x| *x == bal).unwrap();
            assert_eq!(remaining.remove(i), bal);
        }
        assert_eq!(remaining.len(), 0);
    }
}

#[test]
fn test_transfer_is_actually_moving_money_qc1() {
    let mut net = replicas(&[1, 2]);
    open_all(&mut net, &[(1, 0), (2, 9)]);
    assert_eq!(net[1].balance(&2).unwrap(), 9);
    assert_eq!(net[1].balance(&1).unwrap(), 0);
    assert!(send(&mut net, 1, 2, 1, 9));
    for b in net.iter() {
        assert_eq!(b.balance(&2).unwrap(), 0);
        assert_eq!(b.balance(&1).unwrap(), 9);
    }
}

#[test]
fn test_causal_dependancy() {
    let (a, b, c, d) = (1u64, 2u64, 3u64, 4u64);
    let mut net = replicas(&[a, b, c, d]);
    open_all(&mut net, &[(a, 1000), (b, 1000), (c, 1000), (d, 1000)]);

    assert!(send(&mut net, 0, a, b, 500));
    for r in net.iter() {
        assert_eq!(r.balance(&a).unwrap(), 500);
        assert_eq!(r.balance(&b).unwrap(), 1500);
        assert_eq!(r.balance(&c).unwrap(), 1000);
        assert_eq!(r.balance(&d).unwrap(), 1000);
    }

    assert!(send(&mut net, 0, a, c, 500));
    for r in net.iter() {
        assert_eq!(r.balance(&a).unwrap(), 0);
        assert_eq!(r.balance(&b).unwrap(), 1500);
        assert_eq!(r.balance(&c).unwrap(), 1500);
        assert_eq!(r.balance(&d).unwrap(), 1000);
    }

    assert!(send(&mut net, 1, b, d, 1500));
    for r in net.iter() {
        assert_eq!(r.balance(&a).unwrap(), 0);
        assert_eq!(r.balance(&b).unwrap(), 0);
        assert_eq!(r.balance(&c).unwrap(), 1500);
        assert_eq!(r.balance(&d).unwrap(), 2500);
    }
}

#[test]
fn test_double_spend_qc2() {
    let (a, b, c) = (1u64, 2u64, 3u64);
    let mut net = replicas(&[a, b, c]);
    open_all(&mut net, &[(a, 0), (b, 0), (c, 0)]);
    let a_init = net[0].balance(&a).unwrap();
    let first = net[0].transfer(a, b, a_init).unwrap();
    let second = net[0].transfer(a, c, a_init).unwrap();
    broadcast(&mut net, a, &first);
    broadcast(&mut net, a, &second);
    for r in net.iter() {
        let b_delta = r.balance(&b).unwrap();
        let c_delta = r.balance(&c).unwrap();
        assert_eq!(r.balance(&a).unwrap(), 0);
        assert!((b_delta == a_init && c_delta == 0) || (b_delta == 0 && c_delta == a_init));
    }
}

#[test]
fn double_spend_is_refused_after_first_applies() {
    let (a, b, c, d) = (1u64, 2u64, 3u64, 4u64);
    let mut net = replicas(&[a, b, c, d]);
    open_all(&mut net, &[(b, 2), (c, 3), (d, 4), (a, 1)]);
    let first = net[0].transfer(a, b, 1).unwrap();
    let second = net[0].transfer(a, c, 1).unwrap();
    // Nothing applied yet: both are valid everywhere, balances unchanged.
    for r in net.iter() {
        assert!(r.validate(&a, &first).is_ok());
        assert!(r.validate(&a, &second).is_ok());
        assert_eq!(r.balance(&a).unwrap(), 1);
        assert_eq!(r.balance(&b).unwrap(), 2);
        assert_eq!(r.balance(&c).unwrap(), 3);
    }
    assert!(broadcast(&mut net, a, &first));
    assert!(!broadcast(&mut net, a, &second));
    for r in net.iter() {
        assert!(matches!(
            r.validate(&a, &second),
            Err(ValidationError::InsufficientFunds { balance: 0, transfer_amount: 1 })
        ));
        assert_eq!(r.balance(&a).unwrap(), 0);
        assert_eq!(r.balance(&b).unwrap(), 3);
        assert_eq!(r.balance(&c).unwrap(), 3);
    }
}

#[test]
fn conservation_over_a_run() {
    let actors = [1u64, 2, 3];
    let mut net = replicas(&actors);
    open_all(&mut net, &[(1, 10), (2, 20), (3, 30)]);
    assert!(send(&mut net, 0, 1, 2, 7));
    assert!(send(&mut net, 1, 2, 3, 27));
    assert!(send(&mut net, 2, 3, 1, 50));
    for r in net.iter() {
        let total: u64 = actors.iter().map(|a| r.balance(a).unwrap()).sum();
        assert_eq!(total, 60);
        assert_eq!(r.balance(&1).unwrap(), 53);
        assert_eq!(r.balance(&2).unwrap(), 0);
        assert_eq!(r.balance(&3).unwrap(), 7);
    }
}

#[test]
fn validate_is_pure() {
    let mut net = replicas(&[1, 2]);
    open_all(&mut net, &[(1, 5), (2, 0)]);
    let op = net[0].transfer(1, 2, 3).unwrap();
    let before = net[1].history(&1).len();
    let r1 = net[1].validate(&1, &op);
    let r2 = net[1].validate(&1, &op);
    assert!(r1.is_ok() && r2.is_ok());
    let bad = net[0].transfer(1, 2, 5).unwrap();
    assert!(send(&mut net, 0, 1, 2, 5));
    let e1 = net[1].validate(&1, &bad);
    let e2 = net[1].validate(&1, &bad);
    assert!(matches!(e1, Err(ValidationError::InsufficientFunds { balance: 0, transfer_amount: 5 })));
    assert!(matches!(e2, Err(ValidationError::InsufficientFunds { balance: 0, transfer_amount: 5 })));
    assert_eq!(before, 0);
}

#[test]
fn reapplying_a_transfer_changes_nothing() {
    let mut net = replicas(&[1, 2]);
    open_all(&mut net, &[(1, 5), (2, 0)]);
    let op = net[0].transfer(1, 2, 3).unwrap();
    assert!(broadcast(&mut net, 1, &op));
    let h1 = net[1].history(&2);
    net[1].apply(op.clone());
    net[0].apply(op.clone());
    let h2 = net[1].history(&2);
    assert_eq!(h1.len(), 1);
    assert_eq!(h2.len(), 1);
    assert!(h1[0].same(&h2[0]));
    assert_eq!(net[1].balance(&2).unwrap(), 3);
    assert_eq!(net[0].balance(&1).unwrap(), 2);
    // The recipient's frontier still holds the transfer exactly once.
    match net[1].transfer(2, 1, 1).unwrap() {
        Op::Transfer(t) => assert_eq!(t.deps.len(), 1),
        _ => panic!("expected a transfer"),
    }
}

#[test]
fn missing_dependency_is_reported() {
    let mut sender = Bank::new(2);
    let mut lagging = Bank::new(3);
    for bank in [&mut sender, &mut lagging] {
        for (a, m) in [(1u64, 10u64), (2, 0), (3, 0)] {
            let op = bank.open_account(a, m);
            assert!(bank.validate(&a, &op).is_ok());
            bank.apply(op);
        }
    }
    let mut funder = Bank::new(1);
    for (a, m) in [(1u64, 10u64), (2, 0), (3, 0)] {
        let op = funder.open_account(a, m);
        funder.apply(op);
    }
    let incoming = funder.transfer(1, 2, 4).unwrap();
    sender.apply(incoming.clone());
    let spend = sender.transfer(2, 3, 4).unwrap();
    // The lagging replica has not seen the incoming transfer: it knows of no
    // money for 2 yet.
    assert!(matches!(
        lagging.validate(&2, &spend),
        Err(ValidationError::InsufficientFunds { balance: 0, transfer_amount: 4 })
    ));
    // A replica that saw some other funding of 2, but not the cited one.
    let mut other = Bank::new(3);
    for (a, m) in [(1u64, 10u64), (2, 0), (3, 0)] {
        let op = other.open_account(a, m);
        other.apply(op);
    }
    other.apply(Op::Transfer(Transfer { from: 1, to: 2, amount: 5, deps: vec![] }));
    match other.validate(&2, &spend) {
        Err(ValidationError::MissingDependentOps(m)) => {
            assert_eq!(m.len(), 1);
            assert_eq!(m[0].amount, 4);
            assert_eq!(m[0].from, 1);
        }
        _ => panic!("expected missing dependencies"),
    }
    other.apply(incoming);
    assert!(other.validate(&2, &spend).is_ok());
}

#[test]
fn each_validation_error() {
    let mut bank = Bank::new(1);
    let op = bank.open_account(1, 4);
    assert!(matches!(
        bank.validate(&2, &op),
        Err(ValidationError::NotInitiatedByAccountOwner { source: 2, owner: 1 })
    ));
    bank.apply(op.clone());
    assert!(matches!(bank.validate(&1, &op), Err(ValidationError::OwnerAlreadyHasAnAccount)));
    let t = Op::Transfer(Transfer { from: 5, to: 1, amount: 1, deps: vec![] });
    assert!(matches!(
        bank.validate(&6, &t),
        Err(ValidationError::NotInitiatedByAccountOwner { source: 6, owner: 5 })
    ));
    assert!(matches!(bank.validate(&5, &t), Err(ValidationError::FromAccountDoesNotExist(5))));
    let t = Op::Transfer(Transfer { from: 1, to: 7, amount: 1, deps: vec![] });
    assert!(matches!(bank.validate(&1, &t), Err(ValidationError::ToAccountDoesNotExist(7))));
    let t = Op::Transfer(Transfer { from: 1, to: 1, amount: 5, deps: vec![] });
    assert!(matches!(
        bank.validate(&1, &t),
        Err(ValidationError::InsufficientFunds { balance: 4, transfer_amount: 5 })
    ));
    let t = Op::Transfer(Transfer { from: 1, to: 1, amount: 4, deps: vec![] });
    assert!(bank.validate(&1, &t).is_ok());
}

#[test]
fn unknown_account_is_an_error() {
    let bank = Bank::new(1);
    assert!(matches!(bank.initial_balance(&9), Err(ValidationError::AccountNotFound(9))));
    assert!(matches!(bank.balance(&9), Err(ValidationError::AccountNotFound(9))));
    assert!(bank.transfer(9, 1, 0).is_none());
    assert!(bank.history(&9).is_empty());
}

#[test]
fn balance_out_of_range_is_an_invariant_violation() {
    let mut bank = Bank::new(1);
    for (a, m) in [(1u64, u64::MAX), (2, 1)] {
        let op = bank.open_account(a, m);
        bank.apply(op);
    }
    let t = Op::Transfer(Transfer { from: 2, to: 1, amount: 1, deps: vec![] });
    assert!(bank.validate(&2, &t).is_ok());
    bank.apply(t);
    assert!(matches!(bank.balance(&1), Err(ValidationError::InvariantViolation(1))));
    assert_eq!(bank.balance(&2).unwrap(), 0);
    assert_eq!(bank.initial_balance(&1).unwrap(), u64::MAX);
}

#[test]
fn transfer_builder_checks_balance_and_cites_frontier() {
    let mut bank = Bank::new(2);
    for (a, m) in [(1u64, 10u64), (2, 3)] {
        let op = bank.open_account(a, m);
        bank.apply(op);
    }
    assert!(bank.transfer(2, 1, 4).is_none());
    match bank.transfer(2, 1, 3) {
        Some(Op::Transfer(t)) => {
            assert_eq!((t.from, t.to, t.amount), (2, 1, 3));
            assert!(t.deps.is_empty());
        }
        _ => panic!("expected a transfer"),
    }
    let incoming = Transfer { from: 1, to: 2, amount: 6, deps: vec![] };
    bank.apply(Op::Transfer(incoming.clone()));
    assert_eq!(bank.balance(&2).unwrap(), 9);
    let out = match bank.transfer(2, 1, 9) {
        Some(Op::Transfer(t)) => t,
        _ => panic!("expected a transfer"),
    };
    assert_eq!(out.deps.len(), 1);
    assert!(out.deps[0].same(&incoming));
    // Once the outgoing transfer is applied, its cited dependency is spent.
    bank.apply(Op::Transfer(out));
    match bank.transfer(2, 1, 0) {
        Some(Op::Transfer(t)) => assert!(t.deps.is_empty()),
        _ => panic!("expected a transfer"),
    }
    assert_eq!(bank.history(&2).len(), 2);
    assert_eq!(bank.history(&1).len(), 2);
}

#[test]
fn open_account_builds_the_op() {
    let bank = Bank::new(1);
    match bank.open_account(3, 42) {
        Op::OpenAccount { owner, balance } => assert_eq!((owner, balance), (3, 42)),
        _ => panic!("expected an opening"),
    }
}

#[test]
fn transfers_compare_by_value() {
    let inner = Transfer { from: 1, to: 2, amount: 3, deps: vec![] };
    let a = Transfer { from: 2, to: 3, amount: 3, deps: vec![inner.clone()] };
    let b = a.clone();
    assert!(a.same(&b));
    let c = Transfer { from: 2, to: 3, amount: 3, deps: vec![] };
    assert!(!a.same(&c));
    let d = Transfer {
        from: 2,
        to: 3,
        amount: 3,
        deps: vec![Transfer { from: 1, to: 2, amount: 4, deps: vec![] }],
    };
    assert!(!a.same(&d));
}

#[test]
fn balances_stay_in_range_when_supply_fits() {
    let mut net = replicas(&[1, 2]);
    open_all(&mut net, &[(1, u64::MAX - 1), (2, 1)]);
    assert!(send(&mut net, 1, 2, 1, 1));
    for r in net.iter() {
        assert_eq!(r.balance(&1).unwrap(), u64::MAX);
        assert_eq!(r.balance(&2).unwrap(), 0);
    }
    assert!(net[1].transfer(2, 1, 1).is_none());
}

#[test]
fn test_attempt_to_double_spend_with_even_number_of_procs_qc3() {
    // Requests for validation split evenly between the replicas: no
    // candidate gathers agreement, so neither is applied.
    let (a, b, c, d) = (1u64, 2u64, 3u64, 4u64);
    let net = {
        let mut net = replicas(&[b, c, d, a]);
        open_all(&mut net, &[(b, 2), (c, 3), (d, 4), (a, 1)]);
        net
    };
    let first = net[3].transfer(a, b, 1).unwrap();
    let second = net[3].transfer(a, c, 1).unwrap();
    for r in net.iter() {
        assert!(r.validate(&a, &first).is_ok());
        assert!(r.validate(&a, &second).is_ok());
    }
    for r in net.iter() {
        assert_eq!(r.balance(&a).unwrap(), 1);
        assert_eq!(r.balance(&b).unwrap(), 2);
        assert_eq!(r.balance(&c).unwrap(), 3);
    }
}

#[test]
fn redelivery_after_spending_changes_nothing() {
    let mut net = replicas(&[1, 2, 3]);
    open_all(&mut net, &[(1, 5), (2, 0), (3, 0)]);
    let incoming = net[0].transfer(1, 2, 5).unwrap();
    assert!(broadcast(&mut net, 1, &incoming));
    assert!(send(&mut net, 1, 2, 3, 5));
    // 2 has spent what it received: its frontier is empty.
    match net[1].transfer(2, 3, 0).unwrap() {
        Op::Transfer(t) => assert!(t.deps.is_empty()),
        _ => panic!("expected a transfer"),
    }
    net[1].apply(incoming.clone());
    match net[1].transfer(2, 3, 0).unwrap() {
        Op::Transfer(t) => assert!(t.deps.is_empty()),
        _ => panic!("expected a transfer"),
    }
    assert_eq!(net[1].history(&2).len(), 2);
    assert_eq!(net[1].balance(&2).unwrap(), 0);
}
