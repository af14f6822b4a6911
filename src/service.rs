//! The four services of the system (three ledgers and the coordinator),
//! each with the port it listens on and the in-memory state it starts from.

use vstd::prelude::*;
use crate::coordinator::Coordinator;
use crate::delivery::DeliverySchedule;
use crate::inventory::InventoryLedger;
use crate::payment::PaymentLedger;

verus! {

pub const INVENTORY_PORT: u16 = 7050;

pub const DELIVERY_PORT: u16 = 7070;

pub const PAYMENT_PORT: u16 = 8060;

pub const COORDINATOR_PORT: u16 = 8090;

#[derive(Clone, Copy, Debug, PartialEq, Eq, Structural)]
pub enum Service {
    Inventory,
    Delivery,
    Payment,
    Coordinator,
}

/// The state a service holds for the life of its process.
pub enum ServiceState {
    Inventory(InventoryLedger),
    Delivery(DeliverySchedule),
    Payment(PaymentLedger),
    Coordinator(Coordinator),
}

pub open spec fn port_of(s: Service) -> u16 {
    match s {
        Service::Inventory => INVENTORY_PORT,
        Service::Delivery => DELIVERY_PORT,
        Service::Payment => PAYMENT_PORT,
        Service::Coordinator => COORDINATOR_PORT,
    }
}

/// Builds a service: the port it listens on, and its state, empty, of the
/// matching kind.
pub fn rocket(service: Service) -> (r: (u16, ServiceState))
    ensures
        r.0 == port_of(service),
        service == Service::Inventory ==> (r.1 matches ServiceState::Inventory(l) && l.wf()
            && l@.stock.is_empty() && l@.holds.len() == 0),
        service == Service::Delivery ==> (r.1 matches ServiceState::Delivery(d) && d.wf()
            && d@.entries.len() == 0),
        service == Service::Payment ==> (r.1 matches ServiceState::Payment(p) && p.wf()
            && p@.charges.len() == 0),
        service == Service::Coordinator ==> (r.1 matches ServiceState::Coordinator(c) && c.wf()
            && c.orders().len() == 0 && c.participants() == seq![
            crate::coordinator::Participant::Inventory,
            crate::coordinator::Participant::Delivery,
            crate::coordinator::Participant::Payment,
        ]),
{
    match service {
        Service::Inventory => (INVENTORY_PORT, ServiceState::Inventory(InventoryLedger::new())),
        Service::Delivery => (DELIVERY_PORT, ServiceState::Delivery(DeliverySchedule::new())),
        Service::Payment => (PAYMENT_PORT, ServiceState::Payment(PaymentLedger::new())),
        Service::Coordinator => (COORDINATOR_PORT, ServiceState::Coordinator(Coordinator::new())),
    }
}

} // verus!
