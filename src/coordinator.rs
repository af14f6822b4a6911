//! The coordinator: its registered participants, the order book, and an
//! in-process driver that runs one order through the protocol against the
//! three ledgers.

use vstd::prelude::*;
use crate::delivery::{DeliveryModel, DeliverySchedule, DeliveryStatus};
use crate::ids::fresh_id;
use crate::inventory::{InventoryLedger, InventoryModel};
use crate::ledger::{LedgerError, Settlement};
use crate::payment::{Charge, PaymentLedger, PaymentModel, Reversal};
use crate::protocol::{
    decision, lemma_second_round_bounded, lemma_second_round_first, lemma_second_round_last, lemma_second_round_len,
    lemma_second_round_shape, second_round, Failure,
    OrderRun, OrderState, RunModel, Step, Vote,
};

verus! {

/// The account that order payments are charged to.
pub const ORDER_ACCOUNT: u64 = 10;

/// What a customer orders.
pub struct OrderRequest {
    pub address: String,
    pub product: String,
    pub quantity: u64,
    pub price: u64,
}

/// The kinds of participant, each fronting one ledger service.
#[derive(Clone, Copy, Debug, PartialEq, Eq, Structural)]
pub enum Participant {
    Inventory,
    Delivery,
    Payment,
}

/// A request to a ledger service.
pub enum LedgerCall {
    Reserve { product: String, quantity: u64 },
    CommitHold(u128),
    ReleaseHold(u128),
    Schedule { address: String },
    Confirm(u128),
    Cancel(u128),
    Charge { account: u64, amount: u64 },
    Reverse(u128),
}

/// The request a participant sends to its ledger to prepare an order.
pub fn prepare_call(p: Participant, order: &OrderRequest) -> (r: LedgerCall)
    ensures
        p == Participant::Inventory ==> (r matches LedgerCall::Reserve { product, quantity }
            && product@ == order.product@ && quantity == order.quantity),
        p == Participant::Delivery ==> (r matches LedgerCall::Schedule { address }
            && address@ == order.address@),
        p == Participant::Payment ==> r == (LedgerCall::Charge {
            account: ORDER_ACCOUNT,
            amount: order.price,
        }),
{
    match p {
        Participant::Inventory => LedgerCall::Reserve {
            product: order.product.clone(),
            quantity: order.quantity,
        },
        Participant::Delivery => LedgerCall::Schedule { address: order.address.clone() },
        Participant::Payment => LedgerCall::Charge { account: ORDER_ACCOUNT, amount: order.price },
    }
}

/// The request that commits a reservation; the payment was taken at
/// prepare time, so it needs none.
pub fn commit_call(p: Participant, id: u128) -> (r: Option<LedgerCall>)
    ensures
        r == match p {
            Participant::Inventory => Some(LedgerCall::CommitHold(id)),
            Participant::Delivery => Some(LedgerCall::Confirm(id)),
            Participant::Payment => None::<LedgerCall>,
        },
{
    match p {
        Participant::Inventory => Some(LedgerCall::CommitHold(id)),
        Participant::Delivery => Some(LedgerCall::Confirm(id)),
        Participant::Payment => None,
    }
}

/// The request that releases a reservation.
pub fn rollback_call(p: Participant, id: u128) -> (r: LedgerCall)
    ensures
        r == match p {
            Participant::Inventory => LedgerCall::ReleaseHold(id),
            Participant::Delivery => LedgerCall::Cancel(id),
            Participant::Payment => LedgerCall::Reverse(id),
        },
{
    match p {
        Participant::Inventory => LedgerCall::ReleaseHold(id),
        Participant::Delivery => LedgerCall::Cancel(id),
        Participant::Payment => LedgerCall::Reverse(id),
    }
}

/// The vote of a participant whose ledger answered a prepare: the
/// reservation id it returned, or why it failed.
pub fn vote_of(reply: Result<u128, Failure>) -> (v: Vote)
    ensures
        v == match reply {
            Ok(id) => Vote::Prepared(id),
            Err(f) => Vote::Failed(f),
        },
{
    match reply {
        Ok(id) => Vote::Prepared(id),
        Err(f) => Vote::Failed(f),
    }
}

/// What an order asks for, as plain values.
pub ghost struct RequestModel {
    pub address: Seq<char>,
    pub product: Seq<char>,
    pub quantity: u64,
    pub price: u64,
}

impl OrderRequest {
    pub open spec fn model(&self) -> RequestModel {
        RequestModel {
            address: self.address@,
            product: self.product@,
            quantity: self.quantity,
            price: self.price,
        }
    }
}

/// A stored order: its id, the request it was opened with, and its state.
pub ghost struct OrderModel {
    pub order_id: u128,
    pub request: RequestModel,
    pub state: OrderState,
}

pub struct OrderRecord {
    pub order_id: u128,
    pub request: OrderRequest,
    pub state: OrderState,
}

/// Why the coordinator refused to open an order.
#[derive(Clone, Copy, Debug, PartialEq, Eq, Structural)]
pub enum CoordinatorError {
    /// The freshly minted order id is already on record.
    DuplicateOrder,
}

pub open spec fn order_models(orders: Seq<OrderRecord>) -> Seq<OrderModel> {
    orders.map_values(
        |o: OrderRecord| OrderModel { order_id: o.order_id, request: o.request.model(), state: o.state },
    )
}

pub open spec fn has_order(orders: Seq<OrderModel>, id: u128) -> bool {
    exists|i: int| 0 <= i < orders.len() && orders[i].order_id == id
}

pub open spec fn order_index(orders: Seq<OrderModel>, id: u128) -> int {
    choose|i: int| 0 <= i < orders.len() && orders[i].order_id == id
}

pub open spec fn orders_valid(orders: Seq<OrderModel>) -> bool {
    forall|i: int, j: int|
        #![trigger orders[i], orders[j]]
        0 <= i < j < orders.len() ==> orders[i].order_id != orders[j].order_id
}

/// The participants every coordinator registers, in registration order.
pub open spec fn registered() -> Seq<Participant> {
    seq![Participant::Inventory, Participant::Delivery, Participant::Payment]
}

/// What the inventory ledger holds after an order with these votes: the
/// inventory's hold, if it placed one, committed or released by the vote.
pub open spec fn inventory_after(inv0: InventoryModel, votes: Seq<Vote>, order: RequestModel) -> InventoryModel {
    match votes[0] {
        Vote::Prepared(a) => {
            let held = inv0.after_reserve(a, order.product, order.quantity);
            if decision(votes) == OrderState::Committed {
                held.after_commit(a)
            } else {
                held.after_rollback(a)
            }
        },
        Vote::Failed(_) => inv0,
    }
}

/// What the payment ledger holds after an order with these votes: the
/// charge, if one was taken, kept on commit and reversed on abort.
pub open spec fn payment_after(pay0: PaymentModel, votes: Seq<Vote>, order: RequestModel) -> PaymentModel {
    match votes[2] {
        Vote::Prepared(c) => {
            let charged = PaymentModel {
                charges: pay0.charges.push(Charge { id: c, account: ORDER_ACCOUNT, amount: order.price }),
            };
            if decision(votes) == OrderState::Committed {
                charged
            } else {
                charged.after_reverse(c)
            }
        },
        Vote::Failed(_) => pay0,
    }
}

spec fn inventory_during(inv0: InventoryModel, run: RunModel, order: RequestModel) -> InventoryModel {
    if run.votes.len() == 0 {
        inv0
    } else if run.prepared_all() && run.acked > 0 {
        inventory_after(inv0, run.votes, order)
    } else {
        match run.votes[0] {
            Vote::Prepared(a) => inv0.after_reserve(a, order.product, order.quantity),
            Vote::Failed(_) => inv0,
        }
    }
}

spec fn payment_during(pay0: PaymentModel, run: RunModel, order: RequestModel) -> PaymentModel {
    if run.votes.len() < 3 {
        pay0
    } else if run.acked == second_round(run.votes).len() {
        payment_after(pay0, run.votes, order)
    } else {
        match run.votes[2] {
            Vote::Prepared(c) => PaymentModel {
                charges: pay0.charges.push(Charge { id: c, account: ORDER_ACCOUNT, amount: order.price }),
            },
            Vote::Failed(_) => pay0,
        }
    }
}

/// The coordinator: participants in registration order, and every order it
/// accepted, kept for the life of the process.
pub struct Coordinator {
    participants: Vec<Participant>,
    orders: Vec<OrderRecord>,
}

impl Coordinator {
    pub closed spec fn wf(&self) -> bool {
        orders_valid(self.orders()) && self.participants() == registered()
    }

    pub closed spec fn participants(&self) -> Seq<Participant> {
        self.participants@
    }

    pub closed spec fn orders(&self) -> Seq<OrderModel> {
        order_models(self.orders@)
    }

    /// A coordinator with inventory, delivery and payment registered in
    /// that order, and no orders.
    pub fn new() -> (r: Coordinator)
        ensures
            r.wf(),
            r.participants() == seq![
                Participant::Inventory,
                Participant::Delivery,
                Participant::Payment,
            ],
            r.orders() == Seq::<OrderModel>::empty(),
    {
        let participants = vec![
            Participant::Inventory,
            Participant::Delivery,
            Participant::Payment,
        ];
        let r = Coordinator { participants, orders: Vec::new() };
        assert(r.orders() =~= Seq::<OrderModel>::empty());
        r
    }

    /// The registered participants, in registration order.
    pub fn participant_list(&self) -> (r: &Vec<Participant>)
        ensures
            r@ == self.participants(),
    {
        &self.participants
    }

    fn find(&self, id: u128) -> (r: Option<usize>)
        requires
            self.wf(),
        ensures
            r matches Some(i) ==> i < self.orders().len() && has_order(self.orders(), id)
                && order_index(self.orders(), id) == i,
            r is None ==> !has_order(self.orders(), id),
    {
        let mut i: usize = 0;
        while i < self.orders.len()
            invariant
                self.wf(),
                i <= self.orders@.len(),
                forall|j: int| 0 <= j < i ==> (#[trigger] self.orders()[j]).order_id != id,
            decreases self.orders.len() - i,
        {
            if self.orders[i].order_id == id {
                proof {
                    let os = self.orders();
                    assert(os[i as int].order_id == id);
                    assert(has_order(os, id));
                    let k = order_index(os, id);
                    assert(os[k].order_id == id);
                    if k > i {
                        assert(os[i as int].order_id != os[k].order_id);
                    }
                }
                return Some(i);
            }
            i = i + 1;
        }
        None
    }

    /// Accepts an order under the given id: records it as pending and starts
    /// its run over the registered participants.
    pub fn open_order_with_id(&mut self, id: u128, request: OrderRequest) -> (r: Result<
        OrderRun,
        CoordinatorError,
    >)
        requires
            old(self).wf(),
        ensures
            final(self).wf(),
            final(self).participants() == old(self).participants(),
            has_order(old(self).orders(), id) ==> r is Err && final(self).orders() == old(
                self,
            ).orders(),
            !has_order(old(self).orders(), id) ==> (r matches Ok(run) && run.wf() && run@ == (
            RunModel {
                order_id: id,
                participants: old(self).participants().len(),
                votes: Seq::empty(),
                acked: 0,
            }) && final(self).orders() == old(self).orders().push(
                OrderModel { order_id: id, request: request.model(), state: OrderState::Pending },
            )),
    {
        if self.find(id).is_some() {
            return Err(CoordinatorError::DuplicateOrder);
        }
        let ghost before = self.orders();
        let ghost rm = request.model();
        self.orders.push(OrderRecord { order_id: id, request, state: OrderState::Pending });
        proof {
            assert(self.orders() =~= before.push(
                OrderModel { order_id: id, request: rm, state: OrderState::Pending },
            ));
            assert forall|a: int, b: int|
                0 <= a < b < self.orders().len() implies self.orders()[a].order_id
                != self.orders()[b].order_id by {
                if b == before.len() {
                    assert(before[a].order_id != id);
                }
            }
        }
        Ok(OrderRun::new(id, self.participants.len()))
    }

    /// Accepts an order under a freshly minted id.
    pub fn open_order(&mut self, request: OrderRequest) -> (r: Result<OrderRun, CoordinatorError>)
        requires
            old(self).wf(),
        ensures
            final(self).wf(),
            final(self).participants() == old(self).participants(),
            r is Err ==> final(self).orders() == old(self).orders(),
            old(self).orders().len() == 0 ==> r is Ok,
            r matches Ok(run) ==> run.wf() && !has_order(old(self).orders(), run@.order_id)
                && run@.participants == old(self).participants().len() && run@.votes == Seq::<
                Vote,
            >::empty() && run@.acked == 0 && final(self).orders() == old(self).orders().push(
                OrderModel { order_id: run@.order_id, request: request.model(), state: OrderState::Pending },
            ),
    {
        let id = fresh_id();
        self.open_order_with_id(id, request)
    }

    /// Records the outcome of a finished run. An order leaves `Pending` once
    /// only: closing an order that is not pending, or unknown, changes
    /// nothing and returns false.
    pub fn close_order(&mut self, run: &OrderRun) -> (r: bool)
        requires
            old(self).wf(),
            run.wf(),
            run@.next_step() is Finished,
        ensures
            final(self).wf(),
            final(self).participants() == old(self).participants(),
            r == (has_order(old(self).orders(), run@.order_id) && old(self).orders()[order_index(
                old(self).orders(),
                run@.order_id,
            )].state == OrderState::Pending),
            r ==> final(self).orders() == old(self).orders().update(
                order_index(old(self).orders(), run@.order_id),
                OrderModel {
                    state: run@.state(),
                    ..old(self).orders()[order_index(old(self).orders(), run@.order_id)]
                },
            ),
            !r ==> final(self).orders() == old(self).orders(),
    {
        let i = match self.find(run.order_id()) {
            Some(i) => i,
            None => {
                return false;
            },
        };
        if self.orders[i].state != OrderState::Pending {
            return false;
        }
        let ghost before = self.orders();
        self.orders[i].state = run.state();
        proof {
            assert(self.orders() =~= before.update(
                i as int,
                OrderModel { state: run@.state(), ..before[i as int] },
            ));
            assert forall|a: int, b: int|
                0 <= a < b < self.orders().len() implies self.orders()[a].order_id
                != self.orders()[b].order_id by {
                assert(before[a].order_id != before[b].order_id);
            }
        }
        true
    }

    /// The stored order with this id, if it is on record.
    pub fn order_record(&self, id: u128) -> (r: Option<&OrderRecord>)
        requires
            self.wf(),
        ensures
            !has_order(self.orders(), id) ==> r is None,
            has_order(self.orders(), id) ==> (r matches Some(o) && (OrderModel {
                order_id: o.order_id,
                request: o.request.model(),
                state: o.state,
            }) == self.orders()[order_index(self.orders(), id)]),
    {
        match self.find(id) {
            Some(i) => Some(&self.orders[i]),
            None => None,
        }
    }

    /// The state of the order with this id, if it is on record.
    pub fn order_state(&self, id: u128) -> (r: Option<OrderState>)
        requires
            self.wf(),
        ensures
            !has_order(self.orders(), id) ==> r is None,
            has_order(self.orders(), id) ==> r == Some(
                self.orders()[order_index(self.orders(), id)].state,
            ),
    {
        match self.find(id) {
            Some(i) => Some(self.orders[i].state),
            None => None,
        }
    }
}

/// A copy of an order request.
pub fn copy_request(r: &OrderRequest) -> (c: OrderRequest)
    ensures
        c.address@ == r.address@,
        c.product@ == r.product@,
        c.quantity == r.quantity,
        c.price == r.price,
{
    OrderRequest {
        address: r.address.clone(),
        product: r.product.clone(),
        quantity: r.quantity,
        price: r.price,
    }
}

/// The three ledgers, held in one process.
pub struct Ledgers {
    pub inventory: InventoryLedger,
    pub delivery: DeliverySchedule,
    pub payment: PaymentLedger,
}

impl Ledgers {
    pub open spec fn wf(&self) -> bool {
        self.inventory.wf() && self.delivery.wf() && self.payment.wf()
    }

    pub fn new() -> (r: Ledgers)
        ensures
            r.wf(),
            r.inventory@.stock.is_empty(),
            r.inventory@.holds.len() == 0,
            r.delivery@.entries.len() == 0,
            r.payment@.charges.len() == 0,
    {
        Ledgers {
            inventory: InventoryLedger::new(),
            delivery: DeliverySchedule::new(),
            payment: PaymentLedger::new(),
        }
    }

    /// Asks participant `p` to prepare `order` against its ledger; the other
    /// ledgers are untouched.
    pub fn prepare(&mut self, p: Participant, order: &OrderRequest) -> (v: Vote)
        requires
            old(self).wf(),
        ensures
            final(self).wf(),
            p == Participant::Inventory ==> {
                &&& final(self).delivery@ == old(self).delivery@
                &&& final(self).payment@ == old(self).payment@
                &&& old(self).inventory@.available_of(order.product@) <= order.quantity ==> v
                    == Vote::Failed(
                    Failure::Refused(
                        LedgerError::InsufficientResource {
                            available: old(self).inventory@.available_of(order.product@),
                        },
                    ),
                )
                &&& old(self).inventory@.available_of(order.product@) > order.quantity && old(
                    self,
                ).inventory@.holds.len() == 0 ==> v is Prepared
                &&& (v is Failed && final(self).inventory@ == old(self).inventory@) || (
                v matches Vote::Prepared(id) && !old(self).inventory@.has_hold(id)
                    && final(self).inventory@ == old(self).inventory@.after_reserve(
                    id,
                    order.product@,
                    order.quantity,
                ))
            },
            p == Participant::Delivery ==> {
                &&& final(self).inventory@ == old(self).inventory@
                &&& final(self).payment@ == old(self).payment@
                &&& (v is Failed && final(self).delivery@ == old(self).delivery@) || (
                v matches Vote::Prepared(id) && !old(self).delivery@.has_entry(id) && exists|
                    eta: i64,
                |
                    final(self).delivery@.entries == old(self).delivery@.entries.push(
                        DeliveryModel {
                            id,
                            address: order.address@,
                            eta,
                            status: DeliveryStatus::Scheduled,
                        },
                    ))
            },
            p == Participant::Payment ==> {
                &&& final(self).inventory@ == old(self).inventory@
                &&& final(self).delivery@ == old(self).delivery@
                &&& old(self).payment@.charges.len() == 0 ==> v is Prepared
                &&& (v is Failed && final(self).payment@ == old(self).payment@) || (
                v matches Vote::Prepared(id) && !old(self).payment@.has_charge(id)
                    && final(self).payment@.charges == old(self).payment@.charges.push(
                    crate::payment::Charge { id, account: ORDER_ACCOUNT, amount: order.price },
                ))
            },
    {
        let reply = match p {
            Participant::Inventory => self.inventory.reserve(&order.product, order.quantity),
            Participant::Delivery => self.delivery.schedule(&order.address),
            Participant::Payment => self.payment.charge(ORDER_ACCOUNT, order.price),
        };
        match reply {
            Ok(id) => vote_of(Ok(id)),
            Err(e) => vote_of(Err(Failure::Refused(e))),
        }
    }

    /// Commits participant `p`'s reservation `id`; the other ledgers are
    /// untouched, and the payment ledger has nothing to do.
    pub fn commit(&mut self, p: Participant, id: u128)
        requires
            old(self).wf(),
        ensures
            final(self).wf(),
            p == Participant::Inventory ==> final(self).inventory@ == old(
                self,
            ).inventory@.after_commit(id) && final(self).delivery@ == old(self).delivery@
                && final(self).payment@ == old(self).payment@,
            p == Participant::Delivery ==> final(self).inventory@ == old(self).inventory@
                && final(self).payment@ == old(self).payment@ && (final(self).delivery@ == old(
                self,
            ).delivery@ || exists|eta: i64|
                final(self).delivery@ == old(self).delivery@.after_confirm(id, eta)),
            p == Participant::Payment ==> final(self).inventory@ == old(self).inventory@
                && final(self).delivery@ == old(self).delivery@ && final(self).payment@ == old(
                self,
            ).payment@,
    {
        match p {
            Participant::Inventory => {
                let _s: Settlement = self.inventory.commit(id);
            },
            Participant::Delivery => {
                let _s = self.delivery.confirm(id);
            },
            Participant::Payment => {},
        }
    }

    /// Rolls back participant `p`'s reservation `id`; the other ledgers are
    /// untouched.
    pub fn rollback(&mut self, p: Participant, id: u128)
        requires
            old(self).wf(),
        ensures
            final(self).wf(),
            p == Participant::Inventory ==> final(self).inventory@ == old(
                self,
            ).inventory@.after_rollback(id) && final(self).delivery@ == old(self).delivery@
                && final(self).payment@ == old(self).payment@,
            p == Participant::Delivery ==> final(self).delivery@ == old(self).delivery@.after_cancel(
                id,
            ) && final(self).inventory@ == old(self).inventory@ && final(self).payment@ == old(
                self,
            ).payment@,
            p == Participant::Payment ==> final(self).payment@ == old(self).payment@.after_reverse(
                id,
            ) && final(self).inventory@ == old(self).inventory@ && final(self).delivery@ == old(
                self,
            ).delivery@,
    {
        match p {
            Participant::Inventory => {
                let _s = self.inventory.rollback(id);
            },
            Participant::Delivery => {
                let _s = self.delivery.cancel(id);
            },
            Participant::Payment => {
                let _r: Reversal = self.payment.reversal(id);
            },
        }
    }
}

/// Runs one order through the protocol against in-process ledgers: records
/// it as pending, asks every participant to prepare in registration order
/// whatever the earlier votes, commits every reservation when all prepared
/// and rolls back every reservation otherwise, and records the outcome.
pub fn place_order(coord: &mut Coordinator, ledgers: &mut Ledgers, request: OrderRequest) -> (r:
    Result<OrderRun, CoordinatorError>)
    requires
        old(coord).wf(),
        old(ledgers).wf(),
    ensures
        final(coord).wf(),
        final(ledgers).wf(),
        final(coord).participants() == old(coord).participants(),
        r is Err ==> final(coord).orders() == old(coord).orders(),
        old(coord).orders().len() == 0 ==> r is Ok,
        r matches Ok(run) ==> {
            &&& run.wf()
            &&& run@.next_step() is Finished
            &&& run@.votes.len() == old(coord).participants().len()
            &&& run@.acked == second_round(run@.votes).len()
            &&& run@.state() == decision(run@.votes)
            &&& !has_order(old(coord).orders(), run@.order_id)
            &&& final(coord).orders() == old(coord).orders().push(
                OrderModel { order_id: run@.order_id, request: request.model(), state: decision(run@.votes) },
            )
            &&& final(ledgers).inventory@ == inventory_after(
                old(ledgers).inventory@,
                run@.votes,
                request.model(),
            )
            &&& final(ledgers).payment@ == payment_after(
                old(ledgers).payment@,
                run@.votes,
                request.model(),
            )
        },
{
    let order = copy_request(&request);
    let ghost orders0 = coord.orders();
    let ghost rm = request.model();
    let mut run = match coord.open_order(request) {
        Ok(run) => run,
        Err(e) => {
            return Err(e);
        },
    };
    let ghost id = run@.order_id;
    let ghost inv0 = ledgers.inventory@;
    let ghost pay0 = ledgers.payment@;
    loop
        invariant
            coord.wf(),
            ledgers.wf(),
            run.wf(),
            run@.order_id == id,
            run@.participants == coord.participants().len(),
            coord.participants() == old(coord).participants(),
            coord.orders() == orders0.push(OrderModel { order_id: id, request: rm, state: OrderState::Pending }),
            !has_order(orders0, id),
            orders0 == old(coord).orders(),
            order.model() == rm,
            ledgers.inventory@ == inventory_during(inv0, run@, rm),
            ledgers.payment@ == payment_during(pay0, run@, rm),
        ensures
            run.wf(),
            run@.next_step() is Finished,
            coord.wf(),
            ledgers.wf(),
            run@.order_id == id,
            run@.participants == coord.participants().len(),
            coord.participants() == old(coord).participants(),
            coord.orders() == orders0.push(OrderModel { order_id: id, request: rm, state: OrderState::Pending }),
            ledgers.inventory@ == inventory_during(inv0, run@, rm),
            ledgers.payment@ == payment_during(pay0, run@, rm),
        decreases run@.remaining(),
    {
        proof {
            run.lemma_view_valid();
            lemma_second_round_len(run@.votes);
            lemma_second_round_bounded(run@.votes);
            lemma_second_round_shape(run@.votes);
            if run@.votes.len() > 0 && run@.votes[0] is Prepared {
                lemma_second_round_first(run@.votes);
            }
            if run@.votes.len() == 3 && run@.votes[2] is Prepared {
                lemma_second_round_last(run@.votes);
                let sr = second_round(run@.votes);
                if run@.acked < sr.len() - 1 {
                    assert(sr[run@.acked as int].participant < sr[sr.len() - 1].participant);
                }
            }
        }
        match run.next_step() {
            Step::Prepare(i) => {
                let p = coord.participant_list()[i];
                let vote = ledgers.prepare(p, &order);
                run.record_vote(vote);
                proof {
                    lemma_second_round_len(run@.votes);
                    if run@.votes.len() == 3 && run@.votes[2] is Prepared {
                        lemma_second_round_last(run@.votes);
                    }
                }
            },
            Step::Commit(call) => {
                let p = coord.participant_list()[call.participant];
                ledgers.commit(p, call.reservation_id);
                run.record_ack();
            },
            Step::Rollback(call) => {
                let p = coord.participant_list()[call.participant];
                ledgers.rollback(p, call.reservation_id);
                run.record_ack();
            },
            Step::Finished(_) => {
                break ;
            },
        }
    }
    proof {
        run.lemma_view_valid();
        if run@.votes[0] is Prepared {
            lemma_second_round_first(run@.votes);
        }
        let os = coord.orders();
        let n = orders0.len() as int;
        assert(os[n].order_id == id);
        assert(has_order(os, id));
        let k = order_index(os, id);
        assert(os[k].order_id == id);
        if k < n {
            assert(orders0[k].order_id == id);
        }
    }
    let closed = coord.close_order(&run);
    proof {
        assert(closed);
        let n = orders0.len() as int;
        assert(coord.orders() =~= orders0.push(
            OrderModel { order_id: id, request: rm, state: decision(run@.votes) },
        ));
    }
    Ok(run)
}

} // verus!
