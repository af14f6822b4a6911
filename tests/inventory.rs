use twophase::inventory::{HoldStatus, InventoryLedger};
use twophase::ledger::{LedgerError, Settlement};

fn sku1() -> String {
    String::from("sku1")
}

fn stocked(qty: u64) -> InventoryLedger {
    let mut l = InventoryLedger::new();
    l.refill(&sku1(), qty);
    l
}

#[test]
fn happy_path_reserve_then_commit() {
    let mut l = stocked(10);
    let id = l.reserve(&sku1(), 2).expect("reserve succeeds");
    assert_eq!(l.available(&sku1()), 8);
    assert_eq!(l.hold(id), Some((2, HoldStatus::Held)));
    assert_eq!(l.commit(id), Settlement::Applied);
    assert_eq!(l.available(&sku1()), 8);
    assert_eq!(l.hold(id), Some((2, HoldStatus::Committed)));
}

#[test]
fn reserve_equal_to_available_is_refused() {
    let mut l = stocked(10);
    let r = l.reserve(&sku1(), 10);
    assert_eq!(r, Err(LedgerError::InsufficientResource { available: 10 }));
    assert_eq!(l.available(&sku1()), 10);
}

#[test]
fn reserve_one_below_available_succeeds() {
    let mut l = stocked(10);
    assert!(l.reserve(&sku1(), 9).is_ok());
    assert_eq!(l.available(&sku1()), 1);
}

#[test]
fn reserve_unknown_product_is_refused() {
    let mut l = stocked(10);
    let r = l.reserve(&String::from("sku2"), 1);
    assert_eq!(r, Err(LedgerError::InsufficientResource { available: 0 }));
}

#[test]
fn reserves_never_exceed_initial_stock() {
    let mut l = stocked(10);
    let mut taken: u64 = 0;
    for q in [3u64, 3, 3, 1, 2] {
        if l.reserve(&sku1(), q).is_ok() {
            taken += q;
        }
        assert!(taken <= 10);
        assert_eq!(l.available(&sku1()) + taken, 10);
    }
    assert_eq!(taken, 9);
    assert_eq!(l.received(&sku1()), 10);
}

#[test]
fn rollback_restores_exactly() {
    let mut l = stocked(10);
    let id = l.reserve(&sku1(), 3).unwrap();
    assert_eq!(l.available(&sku1()), 7);
    assert_eq!(l.rollback(id), Settlement::Applied);
    assert_eq!(l.available(&sku1()), 10);
    assert_eq!(l.hold(id), Some((3, HoldStatus::Released)));
}

#[test]
fn commit_twice_is_idempotent() {
    let mut l = stocked(10);
    let id = l.reserve(&sku1(), 4).unwrap();
    assert_eq!(l.commit(id), Settlement::Applied);
    let after_one = (l.available(&sku1()), l.hold(id));
    assert_eq!(l.commit(id), Settlement::AlreadySettled);
    assert_eq!((l.available(&sku1()), l.hold(id)), after_one);
}

#[test]
fn rollback_twice_is_idempotent() {
    let mut l = stocked(10);
    let id = l.reserve(&sku1(), 4).unwrap();
    assert_eq!(l.rollback(id), Settlement::Applied);
    let after_one = (l.available(&sku1()), l.hold(id));
    assert_eq!(l.rollback(id), Settlement::AlreadySettled);
    assert_eq!((l.available(&sku1()), l.hold(id)), after_one);
    assert_eq!(l.available(&sku1()), 10);
}

#[test]
fn rollback_after_commit_changes_nothing() {
    let mut l = stocked(10);
    let id = l.reserve(&sku1(), 4).unwrap();
    l.commit(id);
    assert_eq!(l.rollback(id), Settlement::AlreadySettled);
    assert_eq!(l.available(&sku1()), 6);
}

#[test]
fn settle_unknown_reservation() {
    let mut l = stocked(10);
    assert_eq!(l.commit(42), Settlement::NotRegistered);
    assert_eq!(l.rollback(42), Settlement::NotRegistered);
    assert_eq!(l.available(&sku1()), 10);
    assert_eq!(l.hold(42), None);
}

#[test]
fn reserve_with_taken_id_is_refused() {
    let mut l = stocked(10);
    assert_eq!(l.reserve_with_id(7, &sku1(), 1), Ok(7));
    assert_eq!(l.reserve_with_id(7, &sku1(), 1), Err(LedgerError::DuplicateReservation));
    assert_eq!(l.available(&sku1()), 9);
}

#[test]
fn fresh_reservation_ids_differ() {
    let mut l = stocked(10);
    let a = l.reserve(&sku1(), 1).unwrap();
    let b = l.reserve(&sku1(), 1).unwrap();
    assert_ne!(a, b);
}

#[test]
fn refill_adds_to_available_and_received() {
    let mut l = stocked(10);
    let id = l.reserve(&sku1(), 4).unwrap();
    l.refill(&sku1(), 5);
    assert_eq!(l.available(&sku1()), 11);
    assert_eq!(l.received(&sku1()), 15);
    l.rollback(id);
    assert_eq!(l.available(&sku1()), 15);
}
