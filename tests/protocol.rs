use twophase::coordinator::{
    commit_call, place_order, prepare_call, rollback_call, vote_of, Coordinator, LedgerCall,
    Ledgers, OrderRequest, Participant, ORDER_ACCOUNT,
};
use twophase::ledger::LedgerError;
use twophase::protocol::{
    decide, failure_reasons, plan_second_round, Call, Failure, OrderRun, OrderState, Step, Vote,
};

fn call(participant: usize, reservation_id: u128) -> Call {
    Call { participant, reservation_id }
}

#[test]
fn decide_is_conjunction() {
    assert_eq!(decide(&vec![]), OrderState::Committed);
    assert_eq!(decide(&vec![Vote::Prepared(1), Vote::Prepared(2)]), OrderState::Committed);
    assert_eq!(decide(&vec![Vote::Prepared(1), Vote::Failed(Failure::Unreachable)]), OrderState::Aborted);
}

#[test]
fn second_round_skips_failed_participants() {
    let plan = plan_second_round(&vec![Vote::Prepared(5), Vote::Failed(Failure::Unreachable), Vote::Prepared(9)]);
    assert_eq!(plan, vec![call(0, 5), call(2, 9)]);
}

#[test]
fn all_prepared_commits_each_once() {
    let mut run = OrderRun::new(77, 3);
    for (i, id) in [(0usize, 11u128), (1, 12), (2, 13)] {
        assert_eq!(run.next_step(), Step::Prepare(i));
        run.record_vote(Vote::Prepared(id));
    }
    assert_eq!(run.state(), OrderState::Committed);
    for c in [call(0, 11), call(1, 12), call(2, 13)] {
        assert_eq!(run.next_step(), Step::Commit(c));
        run.record_ack();
    }
    assert_eq!(run.next_step(), Step::Finished(OrderState::Committed));
    assert_eq!(run.order_id(), 77);
}

#[test]
fn payment_failure_rolls_back_the_others() {
    let mut run = OrderRun::new(1, 3);
    run.record_vote(Vote::Prepared(21));
    run.record_vote(Vote::Prepared(22));
    run.record_vote(Vote::Failed(Failure::Unreachable));
    assert_eq!(run.state(), OrderState::Aborted);
    assert_eq!(run.next_step(), Step::Rollback(call(0, 21)));
    run.record_ack();
    assert_eq!(run.next_step(), Step::Rollback(call(1, 22)));
    run.record_ack();
    assert_eq!(run.next_step(), Step::Finished(OrderState::Aborted));
}

#[test]
fn failure_does_not_short_circuit_prepare() {
    let mut run = OrderRun::new(1, 3);
    run.record_vote(Vote::Failed(Failure::Unreachable));
    assert_eq!(run.next_step(), Step::Prepare(1));
    assert_eq!(run.state(), OrderState::Pending);
    run.record_vote(Vote::Prepared(4));
    assert_eq!(run.next_step(), Step::Prepare(2));
    run.record_vote(Vote::Prepared(5));
    assert_eq!(run.votes(), &vec![Vote::Failed(Failure::Unreachable), Vote::Prepared(4), Vote::Prepared(5)]);
    assert_eq!(run.next_step(), Step::Rollback(call(1, 4)));
}

#[test]
fn no_participants_commits_at_once() {
    let run = OrderRun::new(3, 0);
    assert_eq!(run.next_step(), Step::Finished(OrderState::Committed));
}

fn request(quantity: u64) -> OrderRequest {
    OrderRequest {
        address: String::from("1 Main St"),
        product: String::from("sku1"),
        quantity,
        price: 30,
    }
}

#[test]
fn participant_calls() {
    let order = request(2);
    match prepare_call(Participant::Inventory, &order) {
        LedgerCall::Reserve { product, quantity } => {
            assert_eq!(product, "sku1");
            assert_eq!(quantity, 2);
        }
        _ => panic!("expected a reserve"),
    }
    match prepare_call(Participant::Delivery, &order) {
        LedgerCall::Schedule { address } => assert_eq!(address, "1 Main St"),
        _ => panic!("expected a schedule"),
    }
    match prepare_call(Participant::Payment, &order) {
        LedgerCall::Charge { account, amount } => {
            assert_eq!(account, ORDER_ACCOUNT);
            assert_eq!(amount, 30);
        }
        _ => panic!("expected a charge"),
    }
    assert!(matches!(commit_call(Participant::Inventory, 4), Some(LedgerCall::CommitHold(4))));
    assert!(matches!(commit_call(Participant::Delivery, 4), Some(LedgerCall::Confirm(4))));
    assert!(commit_call(Participant::Payment, 4).is_none());
    assert!(matches!(rollback_call(Participant::Inventory, 4), LedgerCall::ReleaseHold(4)));
    assert!(matches!(rollback_call(Participant::Delivery, 4), LedgerCall::Cancel(4)));
    assert!(matches!(rollback_call(Participant::Payment, 4), LedgerCall::Reverse(4)));
    assert_eq!(vote_of(Ok(8)), Vote::Prepared(8));
    assert_eq!(vote_of(Err(Failure::Unreachable)), Vote::Failed(Failure::Unreachable));
}

#[test]
fn place_order_commits_when_stock_suffices() {
    let mut coord = Coordinator::new();
    let mut ledgers = Ledgers::new();
    ledgers.inventory.refill(&String::from("sku1"), 10);
    let run = place_order(&mut coord, &mut ledgers, request(2)).unwrap();
    assert_eq!(run.state(), OrderState::Committed);
    assert_eq!(coord.order_state(run.order_id()), Some(OrderState::Committed));
    assert_eq!(ledgers.inventory.available(&String::from("sku1")), 8);
    assert_eq!(ledgers.payment.len(), 1);
    match run.votes()[1] {
        Vote::Prepared(d) => {
            let rec = ledgers.delivery.delivery(d).unwrap();
            assert_eq!(rec.status, twophase::delivery::DeliveryStatus::Confirmed);
        }
        Vote::Failed(_) => panic!("delivery should prepare"),
    }
}

#[test]
fn place_order_aborts_and_releases_on_short_stock() {
    let mut coord = Coordinator::new();
    let mut ledgers = Ledgers::new();
    ledgers.inventory.refill(&String::from("sku1"), 10);
    let run = place_order(&mut coord, &mut ledgers, request(10)).unwrap();
    assert_eq!(run.state(), OrderState::Aborted);
    assert_eq!(
        run.votes()[0],
        Vote::Failed(Failure::Refused(LedgerError::InsufficientResource { available: 10 }))
    );
    assert_eq!(
        run.reasons(),
        vec![(0, Failure::Refused(LedgerError::InsufficientResource { available: 10 }))]
    );
    assert!(matches!(run.votes()[2], Vote::Prepared(_)));
    assert_eq!(coord.order_state(run.order_id()), Some(OrderState::Aborted));
    assert_eq!(ledgers.inventory.available(&String::from("sku1")), 10);
    assert_eq!(ledgers.payment.len(), 0);
    if let Vote::Prepared(d) = run.votes()[1] {
        assert!(ledgers.delivery.delivery(d).is_none());
    }
}

#[test]
fn order_closes_once() {
    let mut coord = Coordinator::new();
    let mut run = coord.open_order_with_id(5, request(1)).unwrap();
    assert_eq!(coord.order_state(5), Some(OrderState::Pending));
    assert!(coord.open_order_with_id(5, request(1)).is_err());
    for _ in 0..3 {
        run.record_vote(Vote::Failed(Failure::Unreachable));
    }
    assert!(coord.close_order(&run));
    assert_eq!(coord.order_state(5), Some(OrderState::Aborted));
    assert!(!coord.close_order(&run));
    assert_eq!(coord.participant_list().len(), 3);
}

#[test]
fn partial_failure_releases_prepared_participants() {
    let mut coord = Coordinator::new();
    let mut ledgers = Ledgers::new();
    let sku = String::from("sku1");
    ledgers.inventory.refill(&sku, 10);
    let order = request(2);
    let mut run = coord.open_order(request(2)).unwrap();
    let parts = coord.participant_list().clone();
    // inventory and delivery prepare; the payment provider declines
    for i in 0..2 {
        assert_eq!(run.next_step(), Step::Prepare(i));
        let v = ledgers.prepare(parts[i], &order);
        assert!(matches!(v, Vote::Prepared(_)));
        run.record_vote(v);
    }
    assert_eq!(run.next_step(), Step::Prepare(2));
    run.record_vote(Vote::Failed(Failure::Unreachable));
    assert_eq!(ledgers.inventory.available(&sku), 8);
    let mut rolled_back = Vec::new();
    loop {
        match run.next_step() {
            Step::Rollback(c) => {
                ledgers.rollback(parts[c.participant], c.reservation_id);
                rolled_back.push(c.participant);
                run.record_ack();
            }
            Step::Finished(s) => {
                assert_eq!(s, OrderState::Aborted);
                break;
            }
            other => panic!("unexpected step {:?}", other),
        }
    }
    assert_eq!(rolled_back, vec![0, 1]);
    assert!(coord.close_order(&run));
    assert_eq!(ledgers.inventory.available(&sku), 10);
    assert_eq!(ledgers.payment.len(), 0);
    if let Vote::Prepared(d) = run.votes()[1] {
        assert!(ledgers.delivery.delivery(d).is_none());
    }
}

#[test]
fn aborted_order_carries_reasons() {
    let votes = vec![
        Vote::Prepared(1),
        Vote::Failed(Failure::Declined),
        Vote::Failed(Failure::Unreachable),
    ];
    assert_eq!(decide(&votes), OrderState::Aborted);
    assert_eq!(failure_reasons(&votes), vec![(1, Failure::Declined), (2, Failure::Unreachable)]);
    assert!(failure_reasons(&vec![Vote::Prepared(1), Vote::Prepared(2)]).is_empty());
}

#[test]
fn stored_order_keeps_request() {
    let mut coord = Coordinator::new();
    let mut ledgers = Ledgers::new();
    ledgers.inventory.refill(&String::from("sku1"), 10);
    let run = place_order(&mut coord, &mut ledgers, request(3)).unwrap();
    let rec = coord.order_record(run.order_id()).unwrap();
    assert_eq!(rec.order_id, run.order_id());
    assert_eq!(rec.request.address, "1 Main St");
    assert_eq!(rec.request.product, "sku1");
    assert_eq!(rec.request.quantity, 3);
    assert_eq!(rec.request.price, 30);
    assert_eq!(rec.state, OrderState::Committed);
    assert!(run.reasons().is_empty());
    assert!(coord.order_record(run.order_id().wrapping_add(1)).is_none());
}
