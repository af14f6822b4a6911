//! Two-phase commit for a distributed order: three resource ledgers
//! (inventory, payment, delivery) and a coordinator that drives them to a
//! single commit-or-abort decision.

mod ids;

pub mod ledger;
pub mod inventory;
pub mod payment;
pub mod delivery;
pub mod protocol;
pub mod coordinator;
pub mod service;
