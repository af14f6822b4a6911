//! The payment ledger: one charge record per payment id. A charge is taken
//! at prepare time, so commit has nothing left to do; a reversal removes the
//! charge.

use vstd::prelude::*;
use crate::ids::fresh_id;
use crate::ledger::LedgerError;

verus! {

#[derive(Clone, Copy, Debug, PartialEq, Eq, Structural)]
pub struct Charge {
    pub id: u128,
    pub account: u64,
    pub amount: u64,
}

/// What a reversal found: the charge it removed, or nothing under that id.
#[derive(Clone, Copy, Debug, PartialEq, Eq, Structural)]
pub enum Reversal {
    Reversed(Charge),
    NotRegistered,
}

pub ghost struct PaymentModel {
    pub charges: Seq<Charge>,
}

impl PaymentModel {
    pub open spec fn has_charge(self, id: u128) -> bool {
        exists|i: int| 0 <= i < self.charges.len() && self.charges[i].id == id
    }

    pub open spec fn charge_index(self, id: u128) -> int {
        choose|i: int| 0 <= i < self.charges.len() && self.charges[i].id == id
    }

    pub open spec fn valid(self) -> bool {
        forall|i: int, j: int|
            #![trigger self.charges[i], self.charges[j]]
            0 <= i < j < self.charges.len() ==> self.charges[i].id != self.charges[j].id
    }

    pub open spec fn reversal_of(self, id: u128) -> Reversal {
        if self.has_charge(id) {
            Reversal::Reversed(self.charges[self.charge_index(id)])
        } else {
            Reversal::NotRegistered
        }
    }

    pub open spec fn after_reverse(self, id: u128) -> PaymentModel {
        if self.has_charge(id) {
            PaymentModel { charges: self.charges.remove(self.charge_index(id)) }
        } else {
            self
        }
    }
}

/// Reversing twice leaves the ledger as reversing once; the second reversal
/// finds nothing to reverse.
pub proof fn lemma_reverse_idempotent(m: PaymentModel, id: u128)
    requires
        m.valid(),
    ensures
        m.after_reverse(id).after_reverse(id) == m.after_reverse(id),
        m.after_reverse(id).reversal_of(id) == Reversal::NotRegistered,
{
    if m.has_charge(id) {
        let i = m.charge_index(id);
        let m1 = m.after_reverse(id);
        if m1.has_charge(id) {
            let k = m1.charge_index(id);
            if k < i {
                assert(m.charges[k].id == id);
            } else {
                assert(m.charges[k + 1].id == id);
            }
        }
    }
}

/// The payment ledger of one service.
pub struct PaymentLedger {
    charges: Vec<Charge>,
}

impl View for PaymentLedger {
    type V = PaymentModel;

    closed spec fn view(&self) -> PaymentModel {
        PaymentModel { charges: self.charges@ }
    }
}

impl PaymentLedger {
    pub closed spec fn wf(&self) -> bool {
        self@.valid()
    }

    /// A well-formed ledger has a valid model, so the laws stated of the
    /// model hold of it after every call.
    pub proof fn lemma_view_valid(&self)
        requires
            self.wf(),
        ensures
            self@.valid(),
    {
    }

    pub fn new() -> (r: PaymentLedger)
        ensures
            r.wf(),
            r@.charges == Seq::<Charge>::empty(),
    {
        PaymentLedger { charges: Vec::new() }
    }

    fn find(&self, id: u128) -> (r: Option<usize>)
        requires
            self.wf(),
        ensures
            r matches Some(i) ==> i < self.charges@.len() && self@.has_charge(id)
                && self@.charge_index(id) == i,
            r is None ==> !self@.has_charge(id),
    {
        let mut i: usize = 0;
        while i < self.charges.len()
            invariant
                self.wf(),
                i <= self.charges@.len(),
                forall|j: int| 0 <= j < i ==> (#[trigger] self.charges@[j]).id != id,
            decreases self.charges.len() - i,
        {
            if self.charges[i].id == id {
                proof {
                    assert(self@.charges[i as int].id == id);
                    assert(self@.has_charge(id));
                    let k = self@.charge_index(id);
                    assert(self.charges@[k].id == id);
                    if k < i {
                        assert(self@.charges[k].id != self@.charges[i as int].id);
                    } else if k > i {
                        assert(self@.charges[i as int].id != self@.charges[k].id);
                    }
                }
                return Some(i);
            }
            i = i + 1;
        }
        None
    }

    /// Records a charge of `amount` to `account` under the given id; fails
    /// with `DuplicateReservation` when the id is already on record.
    pub fn charge_with_id(&mut self, id: u128, account: u64, amount: u64) -> (r: Result<
        u128,
        LedgerError,
    >)
        requires
            old(self).wf(),
        ensures
            final(self).wf(),
            old(self)@.has_charge(id) ==> r == Err::<u128, LedgerError>(
                LedgerError::DuplicateReservation,
            ) && final(self)@ == old(self)@,
            !old(self)@.has_charge(id) ==> r == Ok::<u128, LedgerError>(id) && final(self)@.charges
                == old(self)@.charges.push(Charge { id, account, amount }),
    {
        if self.find(id).is_some() {
            return Err(LedgerError::DuplicateReservation);
        }
        let ghost before = self@;
        self.charges.push(Charge { id, account, amount });
        proof {
            assert forall|a: int, b: int|
                0 <= a < b < self.charges@.len() implies self.charges@[a].id
                != self.charges@[b].id by {
                if b == before.charges.len() {
                    assert(before.charges[a].id != id);
                }
            }
        }
        Ok(id)
    }

    /// Charges `amount` to `account` under a freshly minted payment id.
    pub fn charge(&mut self, account: u64, amount: u64) -> (r: Result<u128, LedgerError>)
        requires
            old(self).wf(),
        ensures
            final(self).wf(),
            old(self)@.charges.len() == 0 ==> r is Ok,
            (r == Err::<u128, LedgerError>(LedgerError::DuplicateReservation) && final(self)@
                == old(self)@) || (r matches Ok(id) && !old(self)@.has_charge(id)
                && final(self)@.charges == old(self)@.charges.push(Charge { id, account, amount })),
    {
        let id = fresh_id();
        self.charge_with_id(id, account, amount)
    }

    /// Reverses the charge with this id, removing it. An unknown id is
    /// reported as not registered and changes nothing.
    pub fn reversal(&mut self, id: u128) -> (r: Reversal)
        requires
            old(self).wf(),
        ensures
            final(self).wf(),
            r == old(self)@.reversal_of(id),
            final(self)@ == old(self)@.after_reverse(id),
    {
        match self.find(id) {
            Some(i) => {
                let ghost before = self@;
                let c = self.charges.remove(i);
                proof {
                    assert forall|a: int, b: int|
                        0 <= a < b < self.charges@.len() implies self.charges@[a].id
                        != self.charges@[b].id by {
                        let a0 = if a < i { a } else { a + 1 };
                        let b0 = if b < i { b } else { b + 1 };
                        assert(before.charges[a0].id != before.charges[b0].id);
                    }
                }
                Reversal::Reversed(c)
            },
            None => Reversal::NotRegistered,
        }
    }

    /// The charge recorded under this id, if any.
    pub fn charge_of(&self, id: u128) -> (r: Option<Charge>)
        requires
            self.wf(),
        ensures
            !self@.has_charge(id) ==> r is None,
            self@.has_charge(id) ==> r == Some(self@.charges[self@.charge_index(id)]),
    {
        match self.find(id) {
            Some(i) => Some(self.charges[i]),
            None => None,
        }
    }

    /// How many charges are on record.
    pub fn len(&self) -> (r: usize)
        ensures
            r == self@.charges.len(),
    {
        self.charges.len()
    }
}

} // verus!
