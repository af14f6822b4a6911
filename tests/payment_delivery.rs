use twophase::delivery::{DeliverySchedule, DeliveryStatus, DELIVERY_DAYS};
use twophase::ledger::{LedgerError, Settlement};
use twophase::payment::{Charge, PaymentLedger, Reversal};

#[test]
fn charge_then_reverse() {
    let mut p = PaymentLedger::new();
    let id = p.charge(10, 250).unwrap();
    assert_eq!(p.charge_of(id), Some(Charge { id, account: 10, amount: 250 }));
    assert_eq!(p.reversal(id), Reversal::Reversed(Charge { id, account: 10, amount: 250 }));
    assert_eq!(p.len(), 0);
}

#[test]
fn reverse_twice_is_idempotent() {
    let mut p = PaymentLedger::new();
    let keep = p.charge_with_id(1, 10, 5).unwrap();
    let id = p.charge_with_id(2, 10, 7).unwrap();
    p.reversal(id);
    assert_eq!(p.reversal(id), Reversal::NotRegistered);
    assert_eq!(p.len(), 1);
    assert_eq!(p.charge_of(keep), Some(Charge { id: 1, account: 10, amount: 5 }));
}

#[test]
fn reverse_unknown_payment_is_not_registered() {
    let mut p = PaymentLedger::new();
    p.charge_with_id(1, 10, 5).unwrap();
    assert_eq!(p.reversal(99), Reversal::NotRegistered);
    assert_eq!(p.len(), 1);
    assert_eq!(p.charge_of(1), Some(Charge { id: 1, account: 10, amount: 5 }));
}

#[test]
fn charge_with_taken_id_is_refused() {
    let mut p = PaymentLedger::new();
    p.charge_with_id(1, 10, 5).unwrap();
    assert_eq!(p.charge_with_id(1, 11, 6), Err(LedgerError::DuplicateReservation));
    assert_eq!(p.len(), 1);
}

#[test]
fn schedule_confirm_and_cancel() {
    let mut d = DeliverySchedule::new();
    let addr = String::from("1 Main St");
    assert_eq!(d.schedule_at(1, &addr, 1000), Ok(1));
    assert_eq!(d.schedule_at(2, &addr, 2000), Ok(2));
    assert_eq!(d.schedule_at(2, &addr, 3000), Err(LedgerError::DuplicateReservation));
    assert_eq!(d.confirm_at(1, 5000), Settlement::Applied);
    let rec = d.delivery(1).unwrap();
    assert_eq!(rec.address, addr);
    assert_eq!(rec.eta, 5000);
    assert_eq!(rec.status, DeliveryStatus::Confirmed);
    assert_eq!(d.cancel(1), Settlement::AlreadySettled);
    assert_eq!(d.cancel(2), Settlement::Applied);
    assert!(d.delivery(2).is_none());
    assert_eq!(d.cancel(2), Settlement::NotRegistered);
    assert_eq!(d.confirm_at(3, 1), Settlement::NotRegistered);
}

#[test]
fn confirm_twice_is_idempotent() {
    let mut d = DeliverySchedule::new();
    d.schedule_at(1, &String::from("a"), 1000).unwrap();
    assert_eq!(d.confirm_at(1, 2000), Settlement::Applied);
    assert_eq!(d.confirm_at(1, 9000), Settlement::AlreadySettled);
    assert_eq!(d.delivery(1).unwrap().eta, 2000);
}

#[test]
fn schedule_sets_eta_days_ahead() {
    let mut d = DeliverySchedule::new();
    let id = d.schedule(&String::from("b")).unwrap();
    let rec = d.delivery(id).unwrap();
    let now = std::time::SystemTime::now()
        .duration_since(std::time::UNIX_EPOCH)
        .unwrap()
        .as_secs() as i64;
    let ahead = rec.eta - now;
    let days = DELIVERY_DAYS as i64 * 86_400;
    assert!(ahead > days - 3_600 && ahead <= days + 3_600);
    assert_eq!(rec.status, DeliveryStatus::Scheduled);
    assert_eq!(d.confirm(id), Ok(Settlement::Applied));
}
