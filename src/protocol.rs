//! The coordinator's decision procedure for one order: a prepare round over
//! every registered participant, a global vote, and a second round of commit
//! or rollback calls addressed to exactly the participants that prepared.
//!
//! The network calls themselves are made by the caller: an `OrderRun` says
//! which call comes next (`next_step`) and is told what came back
//! (`record_vote`, `record_ack`).

use vstd::prelude::*;
use crate::ledger::LedgerError;

verus! {

/// Why a participant could not prepare.
#[derive(Clone, Copy, Debug, PartialEq, Eq, Structural)]
pub enum Failure {
    /// Its ledger refused the hold, for this reason.
    Refused(LedgerError),
    /// Its service answered with a refusal that gave no structured reason.
    Declined,
    /// Its service could not be reached.
    Unreachable,
}

/// A participant's answer to `prepare`: the reservation it holds, or why it
/// failed.
#[derive(Clone, Copy, Debug, PartialEq, Eq, Structural)]
pub enum Vote {
    Prepared(u128),
    Failed(Failure),
}

/// Lifecycle of an order: `Pending` until the vote is known, then terminal.
#[derive(Clone, Copy, Debug, PartialEq, Eq, Structural)]
pub enum OrderState {
    Pending,
    Committed,
    Aborted,
}

/// A second-round call: the participant (by registration index) and the
/// reservation id it returned from `prepare`.
#[derive(Clone, Copy, Debug, PartialEq, Eq, Structural)]
pub struct Call {
    pub participant: usize,
    pub reservation_id: u128,
}

/// What the caller must do next for this order.
#[derive(Clone, Copy, Debug, PartialEq, Eq, Structural)]
pub enum Step {
    Prepare(usize),
    Commit(Call),
    Rollback(Call),
    Finished(OrderState),
}

/// The global vote is the conjunction of the participants' votes.
pub open spec fn all_prepared(votes: Seq<Vote>) -> bool {
    forall|i: int| 0 <= i < votes.len() ==> #[trigger] votes[i] is Prepared
}

pub open spec fn decision(votes: Seq<Vote>) -> OrderState {
    if all_prepared(votes) {
        OrderState::Committed
    } else {
        OrderState::Aborted
    }
}

/// The second round: one call per participant that prepared, in
/// registration order, carrying that participant's reservation id.
pub open spec fn second_round(votes: Seq<Vote>) -> Seq<Call>
    decreases votes.len(),
{
    if votes.len() == 0 {
        Seq::empty()
    } else {
        let rest = second_round(votes.drop_last());
        match votes.last() {
            Vote::Prepared(id) => rest.push(
                Call { participant: (votes.len() - 1) as usize, reservation_id: id },
            ),
            Vote::Failed(_) => rest,
        }
    }
}

/// The calls of `calls` addressed to participant `p`, in order.
pub open spec fn calls_to(calls: Seq<Call>, p: int) -> Seq<Call>
    decreases calls.len(),
{
    if calls.len() == 0 {
        Seq::empty()
    } else {
        let rest = calls_to(calls.drop_last(), p);
        if calls.last().participant == p {
            rest.push(calls.last())
        } else {
            rest
        }
    }
}

/// The reasons of an abort: each failed participant (by registration
/// index) with its failure, in registration order.
pub open spec fn failures(votes: Seq<Vote>) -> Seq<(usize, Failure)>
    decreases votes.len(),
{
    if votes.len() == 0 {
        Seq::empty()
    } else {
        let rest = failures(votes.drop_last());
        match votes.last() {
            Vote::Failed(f) => rest.push(((votes.len() - 1) as usize, f)),
            Vote::Prepared(_) => rest,
        }
    }
}

/// An order commits exactly when no participant gave a failure: an aborted
/// order always carries at least one reason.
pub proof fn lemma_aborted_has_reasons(votes: Seq<Vote>)
    ensures
        (decision(votes) == OrderState::Committed) <==> failures(votes).len() == 0,
    decreases votes.len(),
{
    if votes.len() > 0 {
        let rest = votes.drop_last();
        lemma_aborted_has_reasons(rest);
        if all_prepared(votes) {
            assert forall|i: int| 0 <= i < rest.len() implies #[trigger] rest[i] is Prepared by {
                assert(votes[i] is Prepared);
            }
        } else if all_prepared(rest) && votes.last() is Prepared {
            assert forall|i: int| 0 <= i < votes.len() implies #[trigger] votes[i] is Prepared by {
                if i < rest.len() {
                    assert(rest[i] is Prepared);
                }
            }
        }
    }
}

/// What participant `i` is owed in the second round: one call with its own
/// reservation id if it prepared, none otherwise.
pub open spec fn owed_calls(votes: Seq<Vote>, i: int) -> Seq<Call> {
    match votes[i] {
        Vote::Prepared(id) => seq![Call { participant: i as usize, reservation_id: id }],
        Vote::Failed(_) => Seq::empty(),
    }
}

pub(crate) proof fn lemma_second_round_bounded(votes: Seq<Vote>)
    requires
        votes.len() <= usize::MAX + 1,
    ensures
        forall|k: int|
            0 <= k < second_round(votes).len() ==> (#[trigger] second_round(votes)[k]).participant
                < votes.len(),
    decreases votes.len(),
{
    if votes.len() > 0 {
        let sr = second_round(votes.drop_last());
        lemma_second_round_bounded(votes.drop_last());
        match votes.last() {
            Vote::Prepared(id) => {
                let c = Call { participant: (votes.len() - 1) as usize, reservation_id: id };
                assert forall|k: int| 0 <= k < sr.len() + 1 implies (#[trigger] sr.push(c)[k]).participant
                    < votes.len() by {
                    if k < sr.len() {
                        assert(sr.push(c)[k] == sr[k]);
                    }
                }
            },
            Vote::Failed(_) => {},
        }
    }
}

pub(crate) proof fn lemma_second_round_len(votes: Seq<Vote>)
    ensures
        second_round(votes).len() <= votes.len(),
    decreases votes.len(),
{
    if votes.len() > 0 {
        lemma_second_round_len(votes.drop_last());
    }
}

proof fn lemma_calls_to_absent(calls: Seq<Call>, p: int)
    requires
        forall|k: int| 0 <= k < calls.len() ==> (#[trigger] calls[k]).participant != p,
    ensures
        calls_to(calls, p) == Seq::<Call>::empty(),
    decreases calls.len(),
{
    if calls.len() > 0 {
        lemma_calls_to_absent(calls.drop_last(), p);
    }
}

proof fn lemma_second_round_per_participant(votes: Seq<Vote>, i: int)
    requires
        votes.len() <= usize::MAX + 1,
        0 <= i < votes.len(),
    ensures
        calls_to(second_round(votes), i) == owed_calls(votes, i),
    decreases votes.len(),
{
    let n = votes.len() - 1;
    let rest = votes.drop_last();
    let sr = second_round(rest);
    if i < n {
        lemma_second_round_per_participant(rest, i);
        assert(owed_calls(rest, i) == owed_calls(votes, i));
        match votes.last() {
            Vote::Prepared(id) => {
                assert(sr.push(Call { participant: n as usize, reservation_id: id }).drop_last()
                    == sr);
            },
            Vote::Failed(_) => {},
        }
    } else {
        lemma_second_round_bounded(rest);
        lemma_calls_to_absent(sr, i);
        match votes.last() {
            Vote::Prepared(id) => {
                assert(sr.push(Call { participant: n as usize, reservation_id: id }).drop_last()
                    == sr);
                assert(Seq::<Call>::empty().push(Call { participant: n as usize, reservation_id: id })
                    == seq![Call { participant: n as usize, reservation_id: id }]);
            },
            Vote::Failed(_) => {},
        }
    }
}

/// Each second-round call names a participant that prepared, with the id
/// it returned, and the calls go in strictly increasing registration order.
pub(crate) proof fn lemma_second_round_shape(votes: Seq<Vote>)
    requires
        votes.len() <= usize::MAX + 1,
    ensures
        forall|k: int|
            0 <= k < second_round(votes).len() ==> votes[(#[trigger] second_round(votes)[k]).participant as int]
                == Vote::Prepared(second_round(votes)[k].reservation_id),
        forall|k1: int, k2: int|
            0 <= k1 < k2 < second_round(votes).len() ==> (#[trigger] second_round(votes)[k1]).participant
                < (#[trigger] second_round(votes)[k2]).participant,
    decreases votes.len(),
{
    if votes.len() > 0 {
        let rest = votes.drop_last();
        let sr = second_round(rest);
        lemma_second_round_shape(rest);
        lemma_second_round_bounded(rest);
        match votes.last() {
            Vote::Prepared(id) => {
                let c = Call { participant: (votes.len() - 1) as usize, reservation_id: id };
                let s2 = sr.push(c);
                assert forall|k: int| 0 <= k < s2.len() implies votes[(#[trigger] s2[k]).participant as int]
                    == Vote::Prepared(s2[k].reservation_id) by {
                    if k < sr.len() {
                        assert(s2[k] == sr[k]);
                        assert(rest[sr[k].participant as int] == votes[sr[k].participant as int]);
                    }
                }
                assert forall|k1: int, k2: int| 0 <= k1 < k2 < s2.len() implies (#[trigger] s2[k1]).participant
                    < (#[trigger] s2[k2]).participant by {
                    assert(s2[k1] == sr[k1]);
                    if k2 < sr.len() {
                        assert(s2[k2] == sr[k2]);
                    }
                }
            },
            Vote::Failed(_) => {
                assert forall|k: int| 0 <= k < sr.len() implies votes[(#[trigger] sr[k]).participant as int]
                    == Vote::Prepared(sr[k].reservation_id) by {
                    assert(rest[sr[k].participant as int] == votes[sr[k].participant as int]);
                }
            },
        }
    }
}

/// A participant that prepared last in registration order gets the last
/// second-round call.
pub(crate) proof fn lemma_second_round_last(votes: Seq<Vote>)
    requires
        votes.len() > 0,
        votes.last() is Prepared,
    ensures
        second_round(votes).len() > 0,
        second_round(votes).last() == (Call {
            participant: (votes.len() - 1) as usize,
            reservation_id: votes.last()->Prepared_0,
        }),
{
}

/// A participant that prepared first in registration order gets the first
/// second-round call.
pub(crate) proof fn lemma_second_round_first(votes: Seq<Vote>)
    requires
        votes.len() <= usize::MAX + 1,
        votes.len() > 0,
        votes[0] is Prepared,
    ensures
        second_round(votes).len() > 0,
        second_round(votes)[0] == (Call { participant: 0, reservation_id: votes[0]->Prepared_0 }),
    decreases votes.len(),
{
    let rest = votes.drop_last();
    if votes.len() > 1 {
        assert(rest[0] == votes[0]);
        lemma_second_round_first(rest);
        let sr = second_round(rest);
        match votes.last() {
            Vote::Prepared(id) => {
                let c = Call { participant: (votes.len() - 1) as usize, reservation_id: id };
                assert(sr.push(c)[0] == sr[0]);
            },
            Vote::Failed(_) => {},
        }
    } else {
        assert(second_round(rest) == Seq::<Call>::empty());
    }
}

/// When every participant prepared, the order commits and each participant
/// is sent exactly one second-round call, carrying its own reservation id.
pub proof fn lemma_all_prepared_commits(votes: Seq<Vote>)
    requires
        votes.len() <= usize::MAX,
        all_prepared(votes),
    ensures
        decision(votes) == OrderState::Committed,
        forall|i: int|
            0 <= i < votes.len() ==> calls_to(second_round(votes), i) == seq![
                Call { participant: i as usize, reservation_id: (#[trigger] votes[i])->Prepared_0 },
            ],
{
    assert forall|i: int| 0 <= i < votes.len() implies calls_to(second_round(votes), i) == seq![
        Call { participant: i as usize, reservation_id: (#[trigger] votes[i])->Prepared_0 },
    ] by {
        lemma_second_round_per_participant(votes, i);
    }
}

/// When some participant failed to prepare, the order aborts; each
/// participant that did prepare is sent exactly one second-round call with
/// its own reservation id, and a participant that failed is sent none.
pub proof fn lemma_failure_aborts(votes: Seq<Vote>, failed: int)
    requires
        votes.len() <= usize::MAX,
        0 <= failed < votes.len(),
        votes[failed] is Failed,
    ensures
        decision(votes) == OrderState::Aborted,
        forall|i: int|
            0 <= i < votes.len() ==> calls_to(second_round(votes), i) == owed_calls(votes, i),
{
    assert forall|i: int| 0 <= i < votes.len() implies calls_to(second_round(votes), i)
        == owed_calls(votes, i) by {
        lemma_second_round_per_participant(votes, i);
    }
}

/// Computes the global vote: `Committed` exactly when every participant prepared.
pub fn decide(votes: &Vec<Vote>) -> (r: OrderState)
    ensures
        r == decision(votes@),
{
    let mut i: usize = 0;
    while i < votes.len()
        invariant
            i <= votes.len(),
            forall|j: int| 0 <= j < i ==> #[trigger] votes@[j] is Prepared,
        decreases votes.len() - i,
    {
        match votes[i] {
            Vote::Prepared(_) => {},
            Vote::Failed(_) => {
                return OrderState::Aborted;
            },
        }
        i = i + 1;
    }
    OrderState::Committed
}

/// Lists the second-round calls: one per participant that prepared, in
/// registration order.
pub fn plan_second_round(votes: &Vec<Vote>) -> (r: Vec<Call>)
    ensures
        r@ == second_round(votes@),
{
    let mut calls: Vec<Call> = Vec::new();
    let mut i: usize = 0;
    while i < votes.len()
        invariant
            i <= votes.len(),
            calls@ == second_round(votes@.subrange(0, i as int)),
        decreases votes.len() - i,
    {
        let ghost prefix = votes@.subrange(0, i as int);
        let ghost next = votes@.subrange(0, i + 1);
        assert(next.drop_last() == prefix);
        match votes[i] {
            Vote::Prepared(id) => {
                calls.push(Call { participant: i, reservation_id: id });
            },
            Vote::Failed(_) => {},
        }
        i = i + 1;
    }
    assert(votes@.subrange(0, votes.len() as int) == votes@);
    calls
}

/// Lists the failed participants with their failures, in registration order.
pub fn failure_reasons(votes: &Vec<Vote>) -> (r: Vec<(usize, Failure)>)
    ensures
        r@ == failures(votes@),
{
    let mut out: Vec<(usize, Failure)> = Vec::new();
    let mut i: usize = 0;
    while i < votes.len()
        invariant
            i <= votes.len(),
            out@ == failures(votes@.subrange(0, i as int)),
        decreases votes.len() - i,
    {
        let ghost prefix = votes@.subrange(0, i as int);
        let ghost next = votes@.subrange(0, i + 1);
        assert(next.drop_last() == prefix);
        match votes[i] {
            Vote::Failed(f) => {
                out.push((i, f));
            },
            Vote::Prepared(_) => {},
        }
        i = i + 1;
    }
    assert(votes@.subrange(0, votes.len() as int) == votes@);
    out
}

/// The state of one order as the coordinator sees it.
pub ghost struct RunModel {
    pub order_id: u128,
    pub participants: nat,
    pub votes: Seq<Vote>,
    pub acked: nat,
}

impl RunModel {
    pub open spec fn prepared_all(self) -> bool {
        self.votes.len() == self.participants
    }

    pub open spec fn state(self) -> OrderState {
        if self.prepared_all() {
            decision(self.votes)
        } else {
            OrderState::Pending
        }
    }

    /// A measure of the work left: it drops with every recorded vote and
    /// every acknowledged second-round call.
    pub open spec fn remaining(self) -> nat {
        if self.prepared_all() {
            (second_round(self.votes).len() - self.acked) as nat
        } else {
            ((self.participants - self.votes.len()) + self.participants + 1) as nat
        }
    }

    pub open spec fn valid(self) -> bool {
        &&& self.participants <= usize::MAX
        &&& self.votes.len() <= self.participants
        &&& self.acked <= second_round(self.votes).len()
        &&& !self.prepared_all() ==> self.acked == 0
    }

    /// The call the caller must make next: prepare on every participant in
    /// registration order, whatever the earlier votes were; then the second
    /// round, commit or rollback by the global vote; then nothing.
    pub open spec fn next_step(self) -> Step {
        if !self.prepared_all() {
            Step::Prepare(self.votes.len() as usize)
        } else if self.acked < second_round(self.votes).len() {
            if decision(self.votes) == OrderState::Committed {
                Step::Commit(second_round(self.votes)[self.acked as int])
            } else {
                Step::Rollback(second_round(self.votes)[self.acked as int])
            }
        } else {
            Step::Finished(decision(self.votes))
        }
    }
}

/// One order in flight through the protocol.
pub struct OrderRun {
    order_id: u128,
    participants: usize,
    votes: Vec<Vote>,
    plan: Vec<Call>,
    acked: usize,
    state: OrderState,
}

impl View for OrderRun {
    type V = RunModel;

    closed spec fn view(&self) -> RunModel {
        RunModel {
            order_id: self.order_id,
            participants: self.participants as nat,
            votes: self.votes@,
            acked: self.acked as nat,
        }
    }
}

impl OrderRun {
    pub closed spec fn wf(&self) -> bool {
        &&& self@.valid()
        &&& self.state == self@.state()
        &&& self@.prepared_all() ==> self.plan@ == second_round(self.votes@)
    }

    /// A well-formed run has a valid model.
    pub proof fn lemma_view_valid(&self)
        requires
            self.wf(),
        ensures
            self@.valid(),
    {
    }

    fn settle_if_complete(&mut self)
        requires
            old(self)@.valid(),
            old(self).state == OrderState::Pending,
            old(self).acked == 0,
        ensures
            final(self).wf(),
            final(self)@ == old(self)@,
    {
        if self.votes.len() == self.participants {
            self.plan = plan_second_round(&self.votes);
            self.state = decide(&self.votes);
        }
    }

    /// Starts the protocol for an order with the given number of registered
    /// participants. With none, the vote is vacuously affirmative.
    pub fn new(order_id: u128, participants: usize) -> (r: OrderRun)
        ensures
            r.wf(),
            r@ == (RunModel {
                order_id,
                participants: participants as nat,
                votes: Seq::empty(),
                acked: 0,
            }),
    {
        let mut run = OrderRun {
            order_id,
            participants,
            votes: Vec::new(),
            plan: Vec::new(),
            acked: 0,
            state: OrderState::Pending,
        };
        run.settle_if_complete();
        run
    }

    pub fn order_id(&self) -> (r: u128)
        ensures
            r == self@.order_id,
    {
        self.order_id
    }

    pub fn state(&self) -> (r: OrderState)
        requires
            self.wf(),
        ensures
            r == self@.state(),
    {
        self.state
    }

    /// The votes recorded so far, in registration order.
    pub fn votes(&self) -> (r: &Vec<Vote>)
        ensures
            r@ == self@.votes,
    {
        &self.votes
    }

    /// The reasons recorded so far: each failed participant with its failure.
    pub fn reasons(&self) -> (r: Vec<(usize, Failure)>)
        ensures
            r@ == failures(self@.votes),
    {
        failure_reasons(&self.votes)
    }

    /// The call to make next.
    pub fn next_step(&self) -> (r: Step)
        requires
            self.wf(),
        ensures
            r == self@.next_step(),
    {
        if self.votes.len() < self.participants {
            Step::Prepare(self.votes.len())
        } else if self.acked < self.plan.len() {
            let call = self.plan[self.acked];
            match self.state {
                OrderState::Committed => Step::Commit(call),
                _ => Step::Rollback(call),
            }
        } else {
            Step::Finished(self.state)
        }
    }

    /// Records the answer of the participant whose prepare was asked for.
    pub fn record_vote(&mut self, vote: Vote)
        requires
            old(self).wf(),
            old(self)@.next_step() is Prepare,
        ensures
            final(self).wf(),
            final(self)@ == (RunModel { votes: old(self)@.votes.push(vote), ..old(self)@ }),
    {
        self.votes.push(vote);
        self.settle_if_complete();
    }

    /// Records that the second-round call asked for has been made.
    pub fn record_ack(&mut self)
        requires
            old(self).wf(),
            old(self)@.next_step() is Commit || old(self)@.next_step() is Rollback,
        ensures
            final(self).wf(),
            final(self)@ == (RunModel { acked: old(self)@.acked + 1, ..old(self)@ }),
    {
        assert(self.acked < self.plan.len());
        self.acked = self.acked + 1;
    }
}

/// No short-circuit: while the prepare round is open, the next call is a
/// prepare on the next participant in registration order, whatever earlier
/// participants voted.
pub proof fn lemma_prepare_round_asks_everyone(run: RunModel)
    requires
        run.valid(),
        run.votes.len() < run.participants,
    ensures
        run.next_step() == Step::Prepare(run.votes.len() as usize),
        run.state() == OrderState::Pending,
{
}

} // verus!
