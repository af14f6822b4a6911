//! The delivery schedule: one record per delivery id, scheduled at prepare
//! time and confirmed at commit time; a cancel drops a record that was not
//! yet confirmed.

use vstd::prelude::*;
use crate::ids::fresh_id;
use crate::ledger::{LedgerError, Settlement};

verus! {

/// Days from scheduling (or confirming) to the expected delivery.
pub const DELIVERY_DAYS: u64 = 5;

#[derive(Clone, Copy, Debug, PartialEq, Eq, Structural)]
pub enum DeliveryStatus {
    Scheduled,
    Confirmed,
}

/// A delivery: its id, where it goes, and when it is expected (seconds
/// since the Unix epoch).
#[derive(Debug)]
pub struct DeliveryRecord {
    pub id: u128,
    pub address: String,
    pub eta: i64,
    pub status: DeliveryStatus,
}

pub ghost struct DeliveryModel {
    pub id: u128,
    pub address: Seq<char>,
    pub eta: i64,
    pub status: DeliveryStatus,
}

impl DeliveryRecord {
    pub open spec fn model(&self) -> DeliveryModel {
        DeliveryModel {
            id: self.id,
            address: self.address@,
            eta: self.eta,
            status: self.status,
        }
    }
}

pub ghost struct ScheduleModel {
    pub entries: Seq<DeliveryModel>,
}

impl ScheduleModel {
    pub open spec fn has_entry(self, id: u128) -> bool {
        exists|i: int| 0 <= i < self.entries.len() && self.entries[i].id == id
    }

    pub open spec fn entry_index(self, id: u128) -> int {
        choose|i: int| 0 <= i < self.entries.len() && self.entries[i].id == id
    }

    pub open spec fn valid(self) -> bool {
        forall|i: int, j: int|
            #![trigger self.entries[i], self.entries[j]]
            0 <= i < j < self.entries.len() ==> self.entries[i].id != self.entries[j].id
    }

    pub open spec fn settlement(self, id: u128) -> Settlement {
        if !self.has_entry(id) {
            Settlement::NotRegistered
        } else if self.entries[self.entry_index(id)].status == DeliveryStatus::Scheduled {
            Settlement::Applied
        } else {
            Settlement::AlreadySettled
        }
    }

    pub open spec fn after_confirm(self, id: u128, eta: i64) -> ScheduleModel {
        if self.settlement(id) == Settlement::Applied {
            let i = self.entry_index(id);
            ScheduleModel {
                entries: self.entries.update(
                    i,
                    DeliveryModel { eta, status: DeliveryStatus::Confirmed, ..self.entries[i] },
                ),
            }
        } else {
            self
        }
    }

    pub open spec fn after_cancel(self, id: u128) -> ScheduleModel {
        if self.settlement(id) == Settlement::Applied {
            ScheduleModel { entries: self.entries.remove(self.entry_index(id)) }
        } else {
            self
        }
    }
}

/// Confirming twice leaves the schedule as confirming once, whatever date
/// the second confirmation would carry.
pub proof fn lemma_confirm_idempotent(m: ScheduleModel, id: u128, eta: i64, later: i64)
    requires
        m.valid(),
    ensures
        m.after_confirm(id, eta).after_confirm(id, later) == m.after_confirm(id, eta),
        m.after_confirm(id, eta).settlement(id) != Settlement::Applied,
{
    let m1 = m.after_confirm(id, eta);
    if m.settlement(id) == Settlement::Applied {
        let i = m.entry_index(id);
        assert(m1.entries[i].id == id);
        let k = m1.entry_index(id);
        assert(m1.entries[k].id == id);
        if k < i {
            assert(m.entries[k].id != m.entries[i].id);
        } else if k > i {
            assert(m.entries[i].id != m.entries[k].id);
        }
    }
}

/// Cancelling twice leaves the schedule as cancelling once.
pub proof fn lemma_cancel_idempotent(m: ScheduleModel, id: u128)
    requires
        m.valid(),
    ensures
        m.after_cancel(id).after_cancel(id) == m.after_cancel(id),
        m.after_cancel(id).settlement(id) != Settlement::Applied,
{
    if m.settlement(id) == Settlement::Applied {
        let i = m.entry_index(id);
        let m1 = m.after_cancel(id);
        if m1.has_entry(id) {
            let k = m1.entry_index(id);
            if k < i {
                assert(m.entries[k].id == id);
                assert(m.entries[k].id != m.entries[i].id);
            } else {
                assert(m.entries[k + 1].id == id);
                assert(m.entries[i].id != m.entries[k + 1].id);
            }
        }
    }
}

/// Relies on `chrono::Utc::now`, `DateTime::checked_add_days` and
/// `DateTime::timestamp`: the moment `days` calendar days from now, in
/// seconds since the Unix epoch, or `None` when it is out of chrono's range.
/// It depends on the clock, so nothing is promised of the value.
#[verifier::external_body]
fn timestamp_in_days(days: u64) -> (r: Option<i64>) {
    chrono::Utc::now().checked_add_days(chrono::Days::new(days)).map(|t| t.timestamp())
}

spec fn entry_models(entries: Seq<DeliveryRecord>) -> Seq<DeliveryModel> {
    entries.map_values(|e: DeliveryRecord| e.model())
}

/// The delivery schedule of one service.
pub struct DeliverySchedule {
    entries: Vec<DeliveryRecord>,
}

impl View for DeliverySchedule {
    type V = ScheduleModel;

    closed spec fn view(&self) -> ScheduleModel {
        ScheduleModel { entries: entry_models(self.entries@) }
    }
}

impl DeliverySchedule {
    pub closed spec fn wf(&self) -> bool {
        self@.valid()
    }

    /// A well-formed ledger has a valid model, so the laws stated of the
    /// model hold of it after every call.
    pub proof fn lemma_view_valid(&self)
        requires
            self.wf(),
        ensures
            self@.valid(),
    {
    }

    pub fn new() -> (r: DeliverySchedule)
        ensures
            r.wf(),
            r@.entries == Seq::<DeliveryModel>::empty(),
    {
        let r = DeliverySchedule { entries: Vec::new() };
        assert(entry_models(r.entries@) =~= Seq::<DeliveryModel>::empty());
        r
    }

    fn find(&self, id: u128) -> (r: Option<usize>)
        requires
            self.wf(),
        ensures
            r matches Some(i) ==> i < self.entries@.len() && self@.has_entry(id)
                && self@.entry_index(id) == i,
            r is None ==> !self@.has_entry(id),
    {
        let mut i: usize = 0;
        while i < self.entries.len()
            invariant
                self.wf(),
                i <= self.entries@.len(),
                forall|j: int| 0 <= j < i ==> (#[trigger] self@.entries[j]).id != id,
            decreases self.entries.len() - i,
        {
            if self.entries[i].id == id {
                proof {
                    assert(self@.entries[i as int].id == id);
                    assert(self@.has_entry(id));
                    let k = self@.entry_index(id);
                    assert(self@.entries[k].id == id);
                    if k > i {
                        assert(self@.entries[i as int].id != self@.entries[k].id);
                    }
                }
                return Some(i);
            }
            i = i + 1;
        }
        None
    }

    /// Schedules a delivery to `address`, expected at `eta`, under the given
    /// id; fails with `DuplicateReservation` when the id is already on record.
    pub fn schedule_at(&mut self, id: u128, address: &String, eta: i64) -> (r: Result<
        u128,
        LedgerError,
    >)
        requires
            old(self).wf(),
        ensures
            final(self).wf(),
            old(self)@.has_entry(id) ==> r == Err::<u128, LedgerError>(
                LedgerError::DuplicateReservation,
            ) && final(self)@ == old(self)@,
            !old(self)@.has_entry(id) ==> r == Ok::<u128, LedgerError>(id) && final(self)@.entries
                == old(self)@.entries.push(
                DeliveryModel { id, address: address@, eta, status: DeliveryStatus::Scheduled },
            ),
    {
        if self.find(id).is_some() {
            return Err(LedgerError::DuplicateReservation);
        }
        let ghost before = self@;
        let entry = DeliveryRecord {
            id,
            address: address.clone(),
            eta,
            status: DeliveryStatus::Scheduled,
        };
        self.entries.push(entry);
        proof {
            assert(self@.entries =~= before.entries.push(entry.model()));
            assert forall|a: int, b: int|
                0 <= a < b < self@.entries.len() implies self@.entries[a].id
                != self@.entries[b].id by {
                if b == before.entries.len() {
                    assert(before.entries[a].id != id);
                }
            }
        }
        Ok(id)
    }

    /// Schedules a delivery to `address` under a freshly minted id, expected
    /// `DELIVERY_DAYS` days from now. Fails with `DateUnavailable` when the
    /// date cannot be computed.
    pub fn schedule(&mut self, address: &String) -> (r: Result<u128, LedgerError>)
        requires
            old(self).wf(),
        ensures
            final(self).wf(),
            r is Err ==> final(self)@ == old(self)@,
            r matches Ok(id) ==> !old(self)@.has_entry(id) && exists|eta: i64|
                final(self)@.entries == old(self)@.entries.push(
                    DeliveryModel { id, address: address@, eta, status: DeliveryStatus::Scheduled },
                ),
    {
        let eta = match timestamp_in_days(DELIVERY_DAYS) {
            Some(t) => t,
            None => {
                return Err(LedgerError::DateUnavailable);
            },
        };
        let id = fresh_id();
        self.schedule_at(id, address, eta)
    }

    /// Confirms a scheduled delivery, now expected at `eta`. Confirming one
    /// that is already confirmed, or an unknown id, changes nothing.
    pub fn confirm_at(&mut self, id: u128, eta: i64) -> (r: Settlement)
        requires
            old(self).wf(),
        ensures
            final(self).wf(),
            r == old(self)@.settlement(id),
            final(self)@ == old(self)@.after_confirm(id, eta),
    {
        let i = match self.find(id) {
            Some(i) => i,
            None => {
                return Settlement::NotRegistered;
            },
        };
        if self.entries[i].status != DeliveryStatus::Scheduled {
            return Settlement::AlreadySettled;
        }
        let ghost before = self@;
        self.entries[i].eta = eta;
        self.entries[i].status = DeliveryStatus::Confirmed;
        proof {
            assert(self@.entries =~= before.entries.update(
                i as int,
                DeliveryModel { eta, status: DeliveryStatus::Confirmed, ..before.entries[i as int] },
            ));
            assert forall|a: int, b: int|
                0 <= a < b < self@.entries.len() implies self@.entries[a].id
                != self@.entries[b].id by {
                assert(before.entries[a].id != before.entries[b].id);
            }
        }
        Settlement::Applied
    }

    /// Confirms a scheduled delivery, now expected `DELIVERY_DAYS` days from
    /// now. Fails with `DateUnavailable`, changing nothing, when the date
    /// cannot be computed.
    pub fn confirm(&mut self, id: u128) -> (r: Result<Settlement, LedgerError>)
        requires
            old(self).wf(),
        ensures
            final(self).wf(),
            r is Err ==> r == Err::<Settlement, LedgerError>(LedgerError::DateUnavailable)
                && final(self)@ == old(self)@,
            r matches Ok(s) ==> s == old(self)@.settlement(id) && exists|eta: i64|
                final(self)@ == old(self)@.after_confirm(id, eta),
    {
        match timestamp_in_days(DELIVERY_DAYS) {
            Some(eta) => Ok(self.confirm_at(id, eta)),
            None => Err(LedgerError::DateUnavailable),
        }
    }

    /// Cancels a delivery that is scheduled and not yet confirmed, dropping
    /// its record. Cancelling a confirmed delivery, or an unknown id, changes
    /// nothing.
    pub fn cancel(&mut self, id: u128) -> (r: Settlement)
        requires
            old(self).wf(),
        ensures
            final(self).wf(),
            r == old(self)@.settlement(id),
            final(self)@ == old(self)@.after_cancel(id),
    {
        let i = match self.find(id) {
            Some(i) => i,
            None => {
                return Settlement::NotRegistered;
            },
        };
        if self.entries[i].status != DeliveryStatus::Scheduled {
            return Settlement::AlreadySettled;
        }
        let ghost before = self@;
        let _removed = self.entries.remove(i);
        proof {
            assert(self@.entries =~= before.entries.remove(i as int));
            assert forall|a: int, b: int|
                0 <= a < b < self@.entries.len() implies self@.entries[a].id
                != self@.entries[b].id by {
                let a0 = if a < i { a } else { a + 1 };
                let b0 = if b < i { b } else { b + 1 };
                assert(before.entries[a0].id != before.entries[b0].id);
            }
        }
        Settlement::Applied
    }

    /// A copy of the record under this id, if any.
    pub fn delivery(&self, id: u128) -> (r: Option<DeliveryRecord>)
        requires
            self.wf(),
        ensures
            !self@.has_entry(id) ==> r is None,
            self@.has_entry(id) ==> (r matches Some(d) && d.model()
                == self@.entries[self@.entry_index(id)]),
    {
        match self.find(id) {
            Some(i) => {
                let e = &self.entries[i];
                Some(
                    DeliveryRecord {
                        id: e.id,
                        address: e.address.clone(),
                        eta: e.eta,
                        status: e.status,
                    },
                )
            },
            None => None,
        }
    }
}

} // verus!
