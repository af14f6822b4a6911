//! The inventory ledger: available stock per product and the holds placed
//! against it.
//!
//! Every unit ever received for a product is either still available or
//! covered by a hold that is held or committed; a rollback returns a held
//! quantity to the available pool.

use vstd::prelude::*;
use crate::ids::fresh_id;
use crate::ledger::{LedgerError, Settlement};

verus! {

#[derive(Clone, Copy, Debug, PartialEq, Eq, Structural)]
pub enum HoldStatus {
    Held,
    Committed,
    Released,
}

/// Stock of one product: what is available now, and all that was received.
#[derive(Clone, Copy, Debug, PartialEq, Eq, Structural)]
pub struct StockLevel {
    pub available: u64,
    pub received: u64,
}

struct StockLine {
    product: String,
    level: StockLevel,
}

struct Hold {
    id: u128,
    product: String,
    quantity: u64,
    status: HoldStatus,
}

pub ghost struct HoldModel {
    pub id: u128,
    pub product: Seq<char>,
    pub quantity: u64,
    pub status: HoldStatus,
}

pub ghost struct InventoryModel {
    pub stock: Map<Seq<char>, StockLevel>,
    pub holds: Seq<HoldModel>,
}

/// The quantity of `p` covered by holds that were not released.
pub open spec fn outstanding(holds: Seq<HoldModel>, p: Seq<char>) -> int
    decreases holds.len(),
{
    if holds.len() == 0 {
        0
    } else {
        outstanding(holds.drop_last(), p) + counted(holds.last(), p)
    }
}

pub open spec fn counted(h: HoldModel, p: Seq<char>) -> int {
    if h.product == p && h.status != HoldStatus::Released {
        h.quantity as int
    } else {
        0
    }
}

impl InventoryModel {
    pub open spec fn available_of(self, p: Seq<char>) -> u64 {
        if self.stock.contains_key(p) {
            self.stock[p].available
        } else {
            0
        }
    }

    pub open spec fn received_of(self, p: Seq<char>) -> u64 {
        if self.stock.contains_key(p) {
            self.stock[p].received
        } else {
            0
        }
    }

    pub open spec fn has_hold(self, id: u128) -> bool {
        exists|i: int| 0 <= i < self.holds.len() && self.holds[i].id == id
    }

    pub open spec fn hold_index(self, id: u128) -> int {
        choose|i: int| 0 <= i < self.holds.len() && self.holds[i].id == id
    }

    pub open spec fn valid(self) -> bool {
        &&& forall|i: int, j: int|
            0 <= i < j < self.holds.len() ==> self.holds[i].id != self.holds[j].id
        &&& forall|i: int|
            0 <= i < self.holds.len() ==> self.stock.contains_key(#[trigger] self.holds[i].product)
        &&& forall|p: Seq<char>|
            #[trigger] self.stock.contains_key(p) ==> self.stock[p].available + outstanding(
                self.holds,
                p,
            ) == self.stock[p].received
    }

    pub open spec fn after_reserve(self, id: u128, p: Seq<char>, q: u64) -> InventoryModel {
        InventoryModel {
            stock: self.stock.insert(
                p,
                StockLevel {
                    available: (self.available_of(p) - q) as u64,
                    received: self.received_of(p),
                },
            ),
            holds: self.holds.push(
                HoldModel { id, product: p, quantity: q, status: HoldStatus::Held },
            ),
        }
    }

    pub open spec fn settlement(self, id: u128) -> Settlement {
        if !self.has_hold(id) {
            Settlement::NotRegistered
        } else if self.holds[self.hold_index(id)].status == HoldStatus::Held {
            Settlement::Applied
        } else {
            Settlement::AlreadySettled
        }
    }

    pub open spec fn after_commit(self, id: u128) -> InventoryModel {
        if self.settlement(id) == Settlement::Applied {
            let i = self.hold_index(id);
            InventoryModel {
                holds: self.holds.update(
                    i,
                    HoldModel { status: HoldStatus::Committed, ..self.holds[i] },
                ),
                ..self
            }
        } else {
            self
        }
    }

    pub open spec fn after_rollback(self, id: u128) -> InventoryModel {
        if self.settlement(id) == Settlement::Applied {
            let i = self.hold_index(id);
            let h = self.holds[i];
            InventoryModel {
                stock: self.stock.insert(
                    h.product,
                    StockLevel {
                        available: (self.stock[h.product].available + h.quantity) as u64,
                        received: self.stock[h.product].received,
                    },
                ),
                holds: self.holds.update(i, HoldModel { status: HoldStatus::Released, ..h }),
            }
        } else {
            self
        }
    }

    pub open spec fn after_refill(self, p: Seq<char>, q: u64) -> InventoryModel {
        InventoryModel {
            stock: self.stock.insert(
                p,
                StockLevel {
                    available: (self.available_of(p) + q) as u64,
                    received: (self.received_of(p) + q) as u64,
                },
            ),
            ..self
        }
    }
}

proof fn lemma_outstanding_update(holds: Seq<HoldModel>, i: int, h: HoldModel, p: Seq<char>)
    requires
        0 <= i < holds.len(),
    ensures
        outstanding(holds.update(i, h), p) == outstanding(holds, p) - counted(holds[i], p)
            + counted(h, p),
    decreases holds.len(),
{
    let u = holds.update(i, h);
    if i < holds.len() - 1 {
        assert(u.drop_last() == holds.drop_last().update(i, h));
        lemma_outstanding_update(holds.drop_last(), i, h, p);
    } else {
        assert(u.drop_last() == holds.drop_last());
    }
}

proof fn lemma_outstanding_push(holds: Seq<HoldModel>, h: HoldModel, p: Seq<char>)
    ensures
        outstanding(holds.push(h), p) == outstanding(holds, p) + counted(h, p),
{
    assert(holds.push(h).drop_last() == holds);
}

proof fn lemma_outstanding_nonneg(holds: Seq<HoldModel>, p: Seq<char>)
    ensures
        outstanding(holds, p) >= 0,
    decreases holds.len(),
{
    if holds.len() > 0 {
        lemma_outstanding_nonneg(holds.drop_last(), p);
    }
}

proof fn lemma_outstanding_absent(holds: Seq<HoldModel>, p: Seq<char>)
    requires
        forall|i: int| 0 <= i < holds.len() ==> (#[trigger] holds[i]).product != p,
    ensures
        outstanding(holds, p) == 0,
    decreases holds.len(),
{
    if holds.len() > 0 {
        lemma_outstanding_absent(holds.drop_last(), p);
    }
}

spec fn stock_map(lines: Seq<StockLine>) -> Map<Seq<char>, StockLevel>
    decreases lines.len(),
{
    if lines.len() == 0 {
        Map::empty()
    } else {
        stock_map(lines.drop_last()).insert(lines.last().product@, lines.last().level)
    }
}

spec fn products_unique(lines: Seq<StockLine>) -> bool {
    forall|i: int, j: int| 0 <= i < j < lines.len() ==> lines[i].product@ != lines[j].product@
}

proof fn lemma_stock_map_at(lines: Seq<StockLine>, i: int)
    requires
        products_unique(lines),
        0 <= i < lines.len(),
    ensures
        stock_map(lines).contains_key(lines[i].product@),
        stock_map(lines)[lines[i].product@] == lines[i].level,
    decreases lines.len(),
{
    if i < lines.len() - 1 {
        lemma_stock_map_at(lines.drop_last(), i);
    }
}

proof fn lemma_stock_map_absent(lines: Seq<StockLine>, p: Seq<char>)
    requires
        forall|i: int| 0 <= i < lines.len() ==> (#[trigger] lines[i]).product@ != p,
    ensures
        !stock_map(lines).contains_key(p),
    decreases lines.len(),
{
    if lines.len() > 0 {
        lemma_stock_map_absent(lines.drop_last(), p);
    }
}

proof fn lemma_stock_map_update(lines: Seq<StockLine>, i: int, level: StockLevel)
    requires
        products_unique(lines),
        0 <= i < lines.len(),
    ensures
        stock_map(lines.update(i, StockLine { product: lines[i].product, level })) == stock_map(
            lines,
        ).insert(lines[i].product@, level),
    decreases lines.len(),
{
    let u = lines.update(i, StockLine { product: lines[i].product, level });
    if i < lines.len() - 1 {
        assert(u.drop_last() == lines.drop_last().update(
            i,
            StockLine { product: lines[i].product, level },
        ));
        lemma_stock_map_update(lines.drop_last(), i, level);
        assert(stock_map(u) =~= stock_map(lines).insert(lines[i].product@, level));
    } else {
        assert(u.drop_last() == lines.drop_last());
        assert(stock_map(u) =~= stock_map(lines).insert(lines[i].product@, level));
    }
}

proof fn lemma_stock_map_push(lines: Seq<StockLine>, line: StockLine)
    ensures
        stock_map(lines.push(line)) == stock_map(lines).insert(line.product@, line.level),
{
    assert(lines.push(line).drop_last() == lines);
}

impl Hold {
    spec fn model(&self) -> HoldModel {
        HoldModel {
            id: self.id,
            product: self.product@,
            quantity: self.quantity,
            status: self.status,
        }
    }
}

spec fn hold_models(holds: Seq<Hold>) -> Seq<HoldModel> {
    holds.map_values(|h: Hold| h.model())
}

/// Holds never outrun supply: for every product, what is still available
/// plus what is held or committed is exactly what was received, so the
/// reserved quantities never exceed the stock they were taken from.
pub proof fn lemma_holds_within_supply(m: InventoryModel, p: Seq<char>)
    requires
        m.valid(),
    ensures
        outstanding(m.holds, p) + m.available_of(p) == m.received_of(p),
        0 <= outstanding(m.holds, p) <= m.received_of(p),
{
    lemma_outstanding_nonneg(m.holds, p);
    if !m.stock.contains_key(p) {
        assert forall|a: int| 0 <= a < m.holds.len() implies (#[trigger] m.holds[a]).product
            != p by {
            assert(m.stock.contains_key(m.holds[a].product));
        }
        lemma_outstanding_absent(m.holds, p);
    }
}

/// A successful reserve takes exactly the reserved quantity from the
/// available pool, and a rollback of that reservation restores the stock
/// exactly as it was.
pub proof fn lemma_rollback_restores(m: InventoryModel, id: u128, p: Seq<char>, q: u64)
    requires
        m.valid(),
        m.available_of(p) > q,
        !m.has_hold(id),
    ensures
        m.after_reserve(id, p, q).available_of(p) == m.available_of(p) - q,
        m.after_reserve(id, p, q).settlement(id) == Settlement::Applied,
        m.after_reserve(id, p, q).after_rollback(id).stock == m.stock,
{
    let m1 = m.after_reserve(id, p, q);
    let n = m.holds.len() as int;
    assert(m1.holds[n].id == id);
    let k = m1.hold_index(id);
    assert(m1.holds[k].id == id);
    if k != n {
        assert(m.holds[k].id == id);
    }
    assert(m1.after_rollback(id).stock =~= m.stock);
}

/// Committing twice leaves the ledger as committing once.
pub proof fn lemma_commit_idempotent(m: InventoryModel, id: u128)
    requires
        m.valid(),
    ensures
        m.after_commit(id).after_commit(id) == m.after_commit(id),
        m.after_commit(id).settlement(id) != Settlement::Applied,
{
    let m1 = m.after_commit(id);
    if m.settlement(id) == Settlement::Applied {
        let i = m.hold_index(id);
        assert(m1.holds[i].id == id);
        let k = m1.hold_index(id);
        assert(m1.holds[k].id == id);
        if k != i {
            assert(m.holds[k].id == id);
            if k < i {
                assert(m.holds[k].id != m.holds[i].id);
            } else {
                assert(m.holds[i].id != m.holds[k].id);
            }
        }
    }
}

/// Rolling back twice leaves the ledger as rolling back once.
pub proof fn lemma_rollback_idempotent(m: InventoryModel, id: u128)
    requires
        m.valid(),
    ensures
        m.after_rollback(id).after_rollback(id) == m.after_rollback(id),
        m.after_rollback(id).settlement(id) != Settlement::Applied,
{
    let m1 = m.after_rollback(id);
    if m.settlement(id) == Settlement::Applied {
        let i = m.hold_index(id);
        assert(m1.holds[i].id == id);
        let k = m1.hold_index(id);
        assert(m1.holds[k].id == id);
        if k != i {
            assert(m.holds[k].id == id);
            if k < i {
                assert(m.holds[k].id != m.holds[i].id);
            } else {
                assert(m.holds[i].id != m.holds[k].id);
            }
        }
    }
}

/// The inventory ledger of one service.
pub struct InventoryLedger {
    lines: Vec<StockLine>,
    holds: Vec<Hold>,
}

impl View for InventoryLedger {
    type V = InventoryModel;

    closed spec fn view(&self) -> InventoryModel {
        InventoryModel { stock: stock_map(self.lines@), holds: hold_models(self.holds@) }
    }
}

impl InventoryLedger {
    pub closed spec fn wf(&self) -> bool {
        products_unique(self.lines@) && self@.valid()
    }

    /// A well-formed ledger has a valid model, so the laws stated of the
    /// model hold of it after every call.
    pub proof fn lemma_view_valid(&self)
        requires
            self.wf(),
        ensures
            self@.valid(),
    {
    }

    /// An empty ledger: no stock, no holds.
    pub fn new() -> (r: InventoryLedger)
        ensures
            r.wf(),
            r@.stock == Map::<Seq<char>, StockLevel>::empty(),
            r@.holds == Seq::<HoldModel>::empty(),
    {
        let r = InventoryLedger { lines: Vec::new(), holds: Vec::new() };
        assert(hold_models(r.holds@) =~= Seq::<HoldModel>::empty());
        r
    }

    fn find_line(&self, product: &String) -> (r: Option<usize>)
        ensures
            r matches Some(i) ==> i < self.lines@.len() && self.lines@[i as int].product@
                == product@,
            r is None ==> forall|i: int|
                0 <= i < self.lines@.len() ==> (#[trigger] self.lines@[i]).product@ != product@,
    {
        let mut i: usize = 0;
        while i < self.lines.len()
            invariant
                i <= self.lines@.len(),
                forall|j: int| 0 <= j < i ==> (#[trigger] self.lines@[j]).product@ != product@,
            decreases self.lines.len() - i,
        {
            if self.lines[i].product == *product {
                return Some(i);
            }
            i = i + 1;
        }
        None
    }

    fn find_hold(&self, id: u128) -> (r: Option<usize>)
        ensures
            r matches Some(i) ==> i < self.holds@.len() && self.holds@[i as int].id == id,
            r is None ==> forall|i: int|
                0 <= i < self.holds@.len() ==> (#[trigger] self.holds@[i]).id != id,
    {
        let mut i: usize = 0;
        while i < self.holds.len()
            invariant
                i <= self.holds@.len(),
                forall|j: int| 0 <= j < i ==> (#[trigger] self.holds@[j]).id != id,
            decreases self.holds.len() - i,
        {
            if self.holds[i].id == id {
                return Some(i);
            }
            i = i + 1;
        }
        None
    }

    proof fn lemma_find_hold(&self, id: u128, i: int)
        requires
            self.wf(),
            0 <= i < self.holds@.len(),
            self.holds@[i].id == id,
        ensures
            self@.has_hold(id),
            self@.hold_index(id) == i,
            self@.holds[i] == self.holds@[i].model(),
    {
        assert(self@.holds[i].id == id);
        let k = self@.hold_index(id);
        assert(self@.holds[k].id == id);
    }

    /// What is available of `product` now (zero for an unknown product).
    pub fn available(&self, product: &String) -> (r: u64)
        requires
            self.wf(),
        ensures
            r == self@.available_of(product@),
    {
        match self.find_line(product) {
            Some(i) => {
                proof {
                    lemma_stock_map_at(self.lines@, i as int);
                }
                self.lines[i].level.available
            },
            None => {
                proof {
                    lemma_stock_map_absent(self.lines@, product@);
                }
                0
            },
        }
    }

    /// Places a hold of `quantity` units of `product` under the given id.
    /// It fails with `InsufficientResource` unless the quantity is strictly
    /// below what is available, and with `DuplicateReservation` when the id
    /// is already on record; otherwise the available quantity drops by
    /// exactly `quantity` and a held reservation is recorded.
    pub fn reserve_with_id(&mut self, id: u128, product: &String, quantity: u64) -> (r: Result<
        u128,
        LedgerError,
    >)
        requires
            old(self).wf(),
        ensures
            final(self).wf(),
            old(self)@.available_of(product@) <= quantity ==> r == Err::<u128, LedgerError>(
                LedgerError::InsufficientResource { available: old(self)@.available_of(product@) },
            ) && final(self)@ == old(self)@,
            old(self)@.available_of(product@) > quantity && old(self)@.has_hold(id) ==> r == Err::<
                u128,
                LedgerError,
            >(LedgerError::DuplicateReservation) && final(self)@ == old(self)@,
            old(self)@.available_of(product@) > quantity && !old(self)@.has_hold(id) ==> r == Ok::<
                u128,
                LedgerError,
            >(id) && final(self)@ == old(self)@.after_reserve(id, product@, quantity),
    {
        let found = self.find_line(product);
        let i = match found {
            Some(i) => i,
            None => {
                proof {
                    lemma_stock_map_absent(self.lines@, product@);
                }
                return Err(LedgerError::InsufficientResource { available: 0 });
            },
        };
        proof {
            lemma_stock_map_at(self.lines@, i as int);
        }
        let level = self.lines[i].level;
        if level.available <= quantity {
            return Err(LedgerError::InsufficientResource { available: level.available });
        }
        match self.find_hold(id) {
            Some(k) => {
                proof {
                    assert(self@.holds[k as int].id == id);
                }
                return Err(LedgerError::DuplicateReservation);
            },
            None => {},
        }
        let ghost old_lines = self.lines@;
        let ghost old_model = self@;
        let new_level = StockLevel { available: level.available - quantity, received: level.received };
        self.lines[i].level = new_level;
        let hold = Hold { id, product: product.clone(), quantity, status: HoldStatus::Held };
        self.holds.push(hold);
        proof {
            assert(self.lines@ == old_lines.update(
                i as int,
                StockLine { product: old_lines[i as int].product, level: new_level },
            ));
            lemma_stock_map_update(old_lines, i as int, new_level);
            let hm = HoldModel { id, product: product@, quantity, status: HoldStatus::Held };
            assert(hold_models(self.holds@) =~= old_model.holds.push(hm));
            assert(self@ == old_model.after_reserve(id, product@, quantity));
            assert forall|a: int, b: int|
                0 <= a < b < self@.holds.len() implies self@.holds[a].id != self@.holds[b].id by {
                if b == self@.holds.len() - 1 {
                    assert(old_model.holds[a].id != id);
                }
            }
            assert forall|a: int| 0 <= a < self@.holds.len() implies self@.stock.contains_key(
                #[trigger] self@.holds[a].product,
            ) by {
                if a < old_model.holds.len() {
                    assert(old_model.stock.contains_key(old_model.holds[a].product));
                }
            }
            assert forall|q: Seq<char>| #[trigger] self@.stock.contains_key(q) implies self@.stock[q].available
                + outstanding(self@.holds, q) == self@.stock[q].received by {
                lemma_outstanding_push(old_model.holds, hm, q);
                if q != product@ {
                    assert(old_model.stock.contains_key(q));
                }
            }
        }
        Ok(id)
    }

    /// Places a hold under a freshly minted id; see `reserve_with_id`. The
    /// only outcome left to chance is a clash with an id already on record.
    pub fn reserve(&mut self, product: &String, quantity: u64) -> (r: Result<u128, LedgerError>)
        requires
            old(self).wf(),
        ensures
            final(self).wf(),
            old(self)@.available_of(product@) <= quantity ==> r == Err::<u128, LedgerError>(
                LedgerError::InsufficientResource { available: old(self)@.available_of(product@) },
            ) && final(self)@ == old(self)@,
            old(self)@.available_of(product@) > quantity && old(self)@.holds.len() == 0 ==> r is Ok,
            old(self)@.available_of(product@) > quantity ==> (r == Err::<u128, LedgerError>(
                LedgerError::DuplicateReservation,
            ) && final(self)@ == old(self)@) || (r matches Ok(id) && !old(self)@.has_hold(id)
                && final(self)@ == old(self)@.after_reserve(id, product@, quantity)),
    {
        let id = fresh_id();
        self.reserve_with_id(id, product, quantity)
    }

    /// Makes a held reservation permanent: its units stay taken. Committing
    /// an id that is already settled, or unknown, changes nothing.
    pub fn commit(&mut self, id: u128) -> (r: Settlement)
        requires
            old(self).wf(),
        ensures
            final(self).wf(),
            r == old(self)@.settlement(id),
            final(self)@ == old(self)@.after_commit(id),
    {
        let k = match self.find_hold(id) {
            Some(k) => k,
            None => {
                return Settlement::NotRegistered;
            },
        };
        proof {
            self.lemma_find_hold(id, k as int);
        }
        if self.holds[k].status != HoldStatus::Held {
            return Settlement::AlreadySettled;
        }
        let ghost old_model = self@;
        self.holds[k].status = HoldStatus::Committed;
        proof {
            let h = old_model.holds[k as int];
            let nh = HoldModel { status: HoldStatus::Committed, ..h };
            assert(hold_models(self.holds@) =~= old_model.holds.update(k as int, nh));
            assert forall|q: Seq<char>| #[trigger] self@.stock.contains_key(q) implies self@.stock[q].available
                + outstanding(self@.holds, q) == self@.stock[q].received by {
                lemma_outstanding_update(old_model.holds, k as int, nh, q);
            }
            assert forall|a: int| 0 <= a < self@.holds.len() implies self@.stock.contains_key(
                #[trigger] self@.holds[a].product,
            ) by {
                assert(old_model.stock.contains_key(old_model.holds[a].product));
            }
            assert forall|a: int, b: int|
                0 <= a < b < self@.holds.len() implies self@.holds[a].id != self@.holds[b].id by {
                assert(old_model.holds[a].id != old_model.holds[b].id);
            }
        }
        Settlement::Applied
    }

    /// Releases a held reservation: its quantity returns to the available
    /// pool. Rolling back an id that is already settled, or unknown, changes
    /// nothing.
    pub fn rollback(&mut self, id: u128) -> (r: Settlement)
        requires
            old(self).wf(),
        ensures
            final(self).wf(),
            r == old(self)@.settlement(id),
            final(self)@ == old(self)@.after_rollback(id),
    {
        let k = match self.find_hold(id) {
            Some(k) => k,
            None => {
                return Settlement::NotRegistered;
            },
        };
        proof {
            self.lemma_find_hold(id, k as int);
        }
        if self.holds[k].status != HoldStatus::Held {
            return Settlement::AlreadySettled;
        }
        let ghost old_model = self@;
        let ghost old_lines = self.lines@;
        let ghost h = old_model.holds[k as int];
        let ghost nh = HoldModel { status: HoldStatus::Released, ..h };
        proof {
            assert(old_model.stock.contains_key(h.product));
            lemma_outstanding_update(old_model.holds, k as int, nh, h.product);
            lemma_outstanding_nonneg(old_model.holds.update(k as int, nh), h.product);
        }
        let i = match self.find_line(&self.holds[k].product) {
            Some(i) => i,
            None => {
                proof {
                    lemma_stock_map_absent(self.lines@, h.product);
                }
                return Settlement::NotRegistered;
            },
        };
        proof {
            lemma_stock_map_at(self.lines@, i as int);
        }
        let level = self.lines[i].level;
        let new_level = StockLevel {
            available: level.available + self.holds[k].quantity,
            received: level.received,
        };
        self.lines[i].level = new_level;
        self.holds[k].status = HoldStatus::Released;
        proof {
            assert(self.lines@ == old_lines.update(
                i as int,
                StockLine { product: old_lines[i as int].product, level: new_level },
            ));
            lemma_stock_map_update(old_lines, i as int, new_level);
            assert(hold_models(self.holds@) =~= old_model.holds.update(k as int, nh));
            assert(self@ == old_model.after_rollback(id));
            assert forall|q: Seq<char>| #[trigger] self@.stock.contains_key(q) implies self@.stock[q].available
                + outstanding(self@.holds, q) == self@.stock[q].received by {
                lemma_outstanding_update(old_model.holds, k as int, nh, q);
                if q != h.product {
                    assert(old_model.stock.contains_key(q));
                }
            }
            assert forall|a: int| 0 <= a < self@.holds.len() implies self@.stock.contains_key(
                #[trigger] self@.holds[a].product,
            ) by {
                assert(old_model.stock.contains_key(old_model.holds[a].product));
            }
            assert forall|a: int, b: int|
                0 <= a < b < self@.holds.len() implies self@.holds[a].id != self@.holds[b].id by {
                assert(old_model.holds[a].id != old_model.holds[b].id);
            }
        }
        Settlement::Applied
    }

    /// Adds `quantity` units of `product` to the available pool (and to what
    /// was received). The ledger counts in `u64`: the total received must
    /// stay within it.
    pub fn refill(&mut self, product: &String, quantity: u64)
        requires
            old(self).wf(),
            old(self)@.received_of(product@) + quantity <= u64::MAX,
        ensures
            final(self).wf(),
            final(self)@ == old(self)@.after_refill(product@, quantity),
    {
        let ghost old_model = self@;
        let ghost old_lines = self.lines@;
        match self.find_line(product) {
            Some(i) => {
                proof {
                    lemma_stock_map_at(self.lines@, i as int);
                    lemma_outstanding_nonneg(old_model.holds, product@);
                    assert(old_model.stock.contains_key(product@));
                }
                let level = self.lines[i].level;
                let new_level = StockLevel {
                    available: level.available + quantity,
                    received: level.received + quantity,
                };
                self.lines[i].level = new_level;
                proof {
                    assert(self.lines@ == old_lines.update(
                        i as int,
                        StockLine { product: old_lines[i as int].product, level: new_level },
                    ));
                    lemma_stock_map_update(old_lines, i as int, new_level);
                }
            },
            None => {
                proof {
                    lemma_stock_map_absent(self.lines@, product@);
                    assert forall|a: int| 0 <= a < old_model.holds.len() implies (
                    #[trigger] old_model.holds[a]).product != product@ by {
                        assert(old_model.stock.contains_key(old_model.holds[a].product));
                    }
                    lemma_outstanding_absent(old_model.holds, product@);
                }
                let level = StockLevel { available: quantity, received: quantity };
                let line = StockLine { product: product.clone(), level };
                self.lines.push(line);
                proof {
                    lemma_stock_map_push(old_lines, line);
                }
            },
        }
        proof {
            assert(self@ == old_model.after_refill(product@, quantity));
            assert forall|q: Seq<char>| #[trigger] self@.stock.contains_key(q) implies self@.stock[q].available
                + outstanding(self@.holds, q) == self@.stock[q].received by {
                if q != product@ {
                    assert(old_model.stock.contains_key(q));
                }
            }
        }
    }

    /// All that was ever received of `product` (zero for an unknown product).
    pub fn received(&self, product: &String) -> (r: u64)
        requires
            self.wf(),
        ensures
            r == self@.received_of(product@),
    {
        match self.find_line(product) {
            Some(i) => {
                proof {
                    lemma_stock_map_at(self.lines@, i as int);
                }
                self.lines[i].level.received
            },
            None => {
                proof {
                    lemma_stock_map_absent(self.lines@, product@);
                }
                0
            },
        }
    }

    /// The quantity and status of the reservation with this id, if any.
    pub fn hold(&self, id: u128) -> (r: Option<(u64, HoldStatus)>)
        requires
            self.wf(),
        ensures
            !self@.has_hold(id) ==> r is None,
            self@.has_hold(id) ==> r == Some(
                (
                    self@.holds[self@.hold_index(id)].quantity,
                    self@.holds[self@.hold_index(id)].status,
                ),
            ),
    {
        match self.find_hold(id) {
            Some(k) => {
                proof {
                    self.lemma_find_hold(id, k as int);
                }
                Some((self.holds[k].quantity, self.holds[k].status))
            },
            None => None,
        }
    }
}

} // verus!
