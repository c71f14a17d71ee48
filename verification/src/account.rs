//! Per-account ledger state and the five transition rules.
//!
//! An account holds an available balance, a held balance, a terminal `locked`
//! flag, and a history of the deposits it has retained for later dispute.
//! Amounts are integer counts of ten-thousandths of a currency unit.
//!
//! Every rule checks `locked` first; a locked account never changes again.
//! Dispute, resolve and chargeback reference a transaction id that must be in
//! this account's own history; an unknown id is silently ignored. A dispute is
//! also ignored when the disputed amount exceeds the available balance, so
//! held funds are always backed by funds that were present.

use std::collections::HashMap;
use vstd::prelude::*;

verus! {

broadcast use vstd::std_specs::hash::group_hash_axioms;

/// Identifies a client; the key of the ledger's account map.
#[derive(Debug, Copy, Clone, Eq, PartialEq, Hash, Structural)]
pub struct ClientId(pub u32);

/// Identifies a transaction within one account's history.
#[derive(Debug, Copy, Clone, Eq, PartialEq, Hash, Structural)]
pub struct TxId(pub u32);

/// A retained deposit: its amount and whether it is currently under dispute.
#[derive(Debug, Copy, Clone, Eq, PartialEq, Structural)]
pub struct TransactionRecord {
    /// Deposited amount, in ten-thousandths of a currency unit.
    pub amount: u64,
    /// True while a dispute on this deposit is open.
    pub disputed: bool,
}

/// The mathematical state of one account, used by all contracts.
pub ghost struct AccountState {
    pub client: ClientId,
    pub available: int,
    pub held: int,
    pub locked: bool,
    pub history: Map<u32, TransactionRecord>,
}

/// How much a single history record contributes to the held balance.
pub open spec fn record_held(r: TransactionRecord) -> int {
    if r.disputed {
        r.amount as int
    } else {
        0
    }
}

/// Sum of the amounts of all currently disputed records in a history.
pub open spec fn disputed_total(h: Map<u32, TransactionRecord>) -> int
    decreases h.dom().len(),
    when h.dom().finite()
{
    if h.dom().finite() && h.dom().len() > 0 {
        let k = h.dom().choose();
        record_held(h[k]) + disputed_total(h.remove(k))
    } else {
        0
    }
}

impl AccountState {
    /// A fresh account: zero balances, unlocked, empty history.
    pub open spec fn initial(client: ClientId) -> AccountState {
        AccountState {
            client,
            available: 0,
            held: 0,
            locked: false,
            history: Map::empty(),
        }
    }

    /// The total balance is a projection, never stored separately.
    pub open spec fn total(self) -> int {
        self.available + self.held
    }

    /// Well-formedness: balances are non-negative, the total fits the machine
    /// representation, and the held balance is exactly the sum of the amounts
    /// under dispute.
    pub open spec fn wf(self) -> bool {
        &&& 0 <= self.available
        &&& 0 <= self.held
        &&& self.available + self.held <= u64::MAX
        &&& self.history.dom().finite()
        &&& self.held == disputed_total(self.history)
    }

    /// Deposit rule: credit the amount and retain the transaction. Ignored
    /// when the account is locked; a reused transaction id or an amount that
    /// would overflow the total is also ignored (ids are assumed unique per
    /// account, and the machine bound caps the representable total).
    pub open spec fn deposit(self, tx: u32, amount: u64) -> AccountState {
        if !self.locked && !self.history.contains_key(tx) && self.total() + amount <= u64::MAX {
            AccountState {
                available: self.available + amount,
                history: self.history.insert(
                    tx,
                    TransactionRecord { amount, disputed: false },
                ),
                ..self
            }
        } else {
            self
        }
    }

    /// Withdrawal rule: debit the amount unless the account is locked or the
    /// available balance is insufficient.
    pub open spec fn withdrawal(self, amount: u64) -> AccountState {
        if !self.locked && self.available >= amount {
            AccountState { available: self.available - amount, ..self }
        } else {
            self
        }
    }

    /// Dispute rule: move the deposited amount from available to held and
    /// mark the record. Ignored when locked, when the id is unknown to this
    /// account, when the record is already disputed, or when the amount
    /// exceeds the available balance.
    pub open spec fn dispute(self, tx: u32) -> AccountState {
        if !self.locked && self.history.contains_key(tx) && !self.history[tx].disputed
            && self.available >= self.history[tx].amount {
            let amount = self.history[tx].amount;
            AccountState {
                available: self.available - amount,
                held: self.held + amount,
                history: self.history.insert(
                    tx,
                    TransactionRecord { amount, disputed: true },
                ),
                ..self
            }
        } else {
            self
        }
    }

    /// Resolve rule: release the held amount back to available and clear the
    /// dispute mark. Ignored when locked, when the id is unknown, or when the
    /// record is not currently disputed.
    pub open spec fn resolve(self, tx: u32) -> AccountState {
        if !self.locked && self.history.contains_key(tx) && self.history[tx].disputed {
            let amount = self.history[tx].amount;
            AccountState {
                available: self.available + amount,
                held: self.held - amount,
                history: self.history.insert(
                    tx,
                    TransactionRecord { amount, disputed: false },
                ),
                ..self
            }
        } else {
            self
        }
    }

    /// Chargeback rule: withdraw the held amount and lock the account for
    /// good. Ignored when locked, when the id is unknown, or when the record
    /// is not currently disputed.
    pub open spec fn chargeback(self, tx: u32) -> AccountState {
        if !self.locked && self.history.contains_key(tx) && self.history[tx].disputed {
            let amount = self.history[tx].amount;
            AccountState {
                held: self.held - amount,
                locked: true,
                history: self.history.insert(
                    tx,
                    TransactionRecord { amount, disputed: false },
                ),
                ..self
            }
        } else {
            self
        }
    }
}

/// Removing a present key splits the disputed sum into that record's
/// contribution and the sum over the rest.
pub proof fn lemma_disputed_total_remove(h: Map<u32, TransactionRecord>, k: u32)
    requires
        h.dom().finite(),
        h.contains_key(k),
    ensures
        disputed_total(h) == record_held(h[k]) + disputed_total(h.remove(k)),
    decreases h.dom().len(),
{
    let k0 = h.dom().choose();
    assert(h.dom().contains(k));
    assert(h.dom().len() > 0);
    if k0 == k {
    } else {
        lemma_disputed_total_remove(h.remove(k0), k);
        lemma_disputed_total_remove(h.remove(k), k0);
        assert(h.remove(k0).remove(k) =~= h.remove(k).remove(k0));
    }
}

/// The disputed sum is never negative.
pub proof fn lemma_disputed_total_nonneg(h: Map<u32, TransactionRecord>)
    requires
        h.dom().finite(),
    ensures
        disputed_total(h) >= 0,
    decreases h.dom().len(),
{
    if h.dom().len() > 0 {
        let k = h.dom().choose();
        lemma_disputed_total_nonneg(h.remove(k));
    }
}

/// Inserting a record under a fresh key adds exactly its contribution.
pub proof fn lemma_disputed_total_insert_fresh(
    h: Map<u32, TransactionRecord>,
    k: u32,
    r: TransactionRecord,
)
    requires
        h.dom().finite(),
        !h.contains_key(k),
    ensures
        disputed_total(h.insert(k, r)) == disputed_total(h) + record_held(r),
{
    lemma_disputed_total_remove(h.insert(k, r), k);
    assert(h.insert(k, r).remove(k) =~= h);
}

/// Overwriting a present key swaps the old record's contribution for the new
/// one's.
pub proof fn lemma_disputed_total_update(
    h: Map<u32, TransactionRecord>,
    k: u32,
    r: TransactionRecord,
)
    requires
        h.dom().finite(),
        h.contains_key(k),
    ensures
        disputed_total(h.insert(k, r)) == disputed_total(h) - record_held(h[k]) + record_held(r),
{
    lemma_disputed_total_remove(h, k);
    lemma_disputed_total_remove(h.insert(k, r), k);
    assert(h.insert(k, r).remove(k) =~= h.remove(k));
}

/// A disputed record's amount never exceeds the disputed sum of its history.
pub proof fn lemma_record_le_disputed_total(h: Map<u32, TransactionRecord>, k: u32)
    requires
        h.dom().finite(),
        h.contains_key(k),
        h[k].disputed,
    ensures
        h[k].amount <= disputed_total(h),
{
    lemma_disputed_total_remove(h, k);
    lemma_disputed_total_nonneg(h.remove(k));
}

/// Resolving a transaction that is not currently under dispute — unknown id
/// or dispute already cleared — leaves the account unchanged.
pub proof fn lemma_resolve_no_dispute_no_op(s: AccountState, tx: u32)
    requires
        !s.history.contains_key(tx) || !s.history[tx].disputed,
    ensures
        s.resolve(tx) == s,
{
}

/// Duplicate resolves are idempotent: resolving the same transaction a second
/// time changes nothing, since the first resolve (if it applied at all) left
/// the record undisputed.
pub proof fn lemma_resolve_idempotent(s: AccountState, tx: u32)
    ensures
        s.resolve(tx).resolve(tx) == s.resolve(tx),
{
    let s1 = s.resolve(tx);
    if !s.locked && s.history.contains_key(tx) && s.history[tx].disputed {
        assert(!s1.history[tx].disputed);
        lemma_resolve_no_dispute_no_op(s1, tx);
    }
}

/// Dispute followed by resolve is a round trip: for an account with no held
/// funds and a retained undisputed deposit, the pair restores the account
/// exactly — the available balance comes back and held returns to zero.
pub proof fn lemma_dispute_resolve_round_trip(s: AccountState, tx: u32)
    requires
        s.wf(),
        s.held == 0,
        s.history.contains_key(tx),
        !s.history[tx].disputed,
    ensures
        s.dispute(tx).resolve(tx) == s,
{
    let s1 = s.dispute(tx);
    if !s.locked && s.available >= s.history[tx].amount {
        let s2 = s1.resolve(tx);
        assert(s2.history =~= s.history);
        assert(s2 == s);
    } else {
        lemma_resolve_no_dispute_no_op(s, tx);
    }
}

/// A locked account is frozen: every kind of event leaves it unchanged.
pub proof fn lemma_locked_terminal(s: AccountState, tx: u32, amount: u64)
    requires
        s.locked,
    ensures
        s.deposit(tx, amount) == s,
        s.withdrawal(amount) == s,
        s.dispute(tx) == s,
        s.resolve(tx) == s,
        s.chargeback(tx) == s,
{
}

/// A chargeback on a disputed transaction locks the account, so together with
/// the previous law the account's state is frozen from then on.
pub proof fn lemma_chargeback_locks(s: AccountState, tx: u32)
    requires
        !s.locked,
        s.history.contains_key(tx),
        s.history[tx].disputed,
    ensures
        s.chargeback(tx).locked,
{
}

/// A withdrawal never drives the available balance negative: it either
/// debits an amount that was available or does nothing.
pub proof fn lemma_withdrawal_never_negative(s: AccountState, amount: u64)
    requires
        s.wf(),
    ensures
        s.withdrawal(amount).available >= 0,
        s.withdrawal(amount).wf(),
{
}

/// One client's balance state plus the record of its prior deposits that
/// remain available for dispute.
pub struct Account {
    pub client: ClientId,
    /// Available balance, in ten-thousandths of a currency unit.
    pub available: u64,
    /// Held (disputed) balance, in ten-thousandths of a currency unit.
    pub held: u64,
    /// Terminal flag set by a chargeback; no rule applies once it is set.
    pub locked: bool,
    /// Retained deposits of this account, keyed by transaction id.
    pub history: HashMap<u32, TransactionRecord>,
}

impl View for Account {
    type V = AccountState;

    open spec fn view(&self) -> AccountState {
        AccountState {
            client: self.client,
            available: self.available as int,
            held: self.held as int,
            locked: self.locked,
            history: self.history@,
        }
    }
}

impl Account {
    /// Creates the fresh, unlocked account of a client with zero balances.
    pub fn new(client: ClientId) -> (r: Account)
        ensures
            r@ == AccountState::initial(client),
            r@.wf(),
    {
        let r = Account {
            client,
            available: 0,
            held: 0,
            locked: false,
            history: HashMap::new(),
        };
        proof {
            assert(r@.history =~= AccountState::initial(client).history);
            assert(r@ == AccountState::initial(client));
        }
        r
    }

    /// Applies the deposit rule. The caller rules out a reused transaction id
    /// and an amount that would push the total past the machine bound; both
    /// only matter while the account is unlocked, since a locked account
    /// ignores the event.
    pub fn deposit(&mut self, tx: TxId, amount: u64)
        requires
            old(self)@.wf(),
            !old(self)@.locked ==> !old(self)@.history.contains_key(tx.0),
            !old(self)@.locked ==> old(self)@.total() + amount <= u64::MAX,
        ensures
            final(self)@ == old(self)@.deposit(tx.0, amount),
            final(self)@.wf(),
    {
        if self.locked {
            return ;
        }
        self.available = self.available + amount;
        self.history.insert(tx.0, TransactionRecord { amount, disputed: false });
        proof {
            lemma_disputed_total_insert_fresh(
                old(self)@.history,
                tx.0,
                TransactionRecord { amount, disputed: false },
            );
        }
    }

    /// Applies the withdrawal rule: a no-op when locked or when the available
    /// balance is insufficient, so the balance can never go negative.
    pub fn withdrawal(&mut self, amount: u64)
        requires
            old(self)@.wf(),
        ensures
            final(self)@ == old(self)@.withdrawal(amount),
            final(self)@.wf(),
    {
        if self.locked || self.available < amount {
            return ;
        }
        self.available = self.available - amount;
    }

    /// Applies the dispute rule.
    pub fn dispute(&mut self, tx: TxId)
        requires
            old(self)@.wf(),
        ensures
            final(self)@ == old(self)@.dispute(tx.0),
            final(self)@.wf(),
    {
        if self.locked {
            return ;
        }
        let rec = match self.history.get(&tx.0) {
            Some(r) => *r,
            None => {
                return ;
            },
        };
        if !rec.disputed && self.available >= rec.amount {
            self.available = self.available - rec.amount;
            self.held = self.held + rec.amount;
            self.history.insert(tx.0, TransactionRecord { amount: rec.amount, disputed: true });
            proof {
                lemma_disputed_total_update(
                    old(self)@.history,
                    tx.0,
                    TransactionRecord { amount: rec.amount, disputed: true },
                );
            }
        }
    }

    /// Applies the resolve rule.
    pub fn resolve(&mut self, tx: TxId)
        requires
            old(self)@.wf(),
        ensures
            final(self)@ == old(self)@.resolve(tx.0),
            final(self)@.wf(),
    {
        if self.locked {
            return ;
        }
        let rec = match self.history.get(&tx.0) {
            Some(r) => *r,
            None => {
                return ;
            },
        };
        if rec.disputed {
            proof {
                lemma_record_le_disputed_total(old(self)@.history, tx.0);
            }
            self.available = self.available + rec.amount;
            self.held = self.held - rec.amount;
            self.history.insert(tx.0, TransactionRecord { amount: rec.amount, disputed: false });
            proof {
                lemma_disputed_total_update(
                    old(self)@.history,
                    tx.0,
                    TransactionRecord { amount: rec.amount, disputed: false },
                );
            }
        }
    }

    /// Applies the chargeback rule; on success the account is locked for
    /// good.
    pub fn chargeback(&mut self, tx: TxId)
        requires
            old(self)@.wf(),
        ensures
            final(self)@ == old(self)@.chargeback(tx.0),
            final(self)@.wf(),
    {
        if self.locked {
            return ;
        }
        let rec = match self.history.get(&tx.0) {
            Some(r) => *r,
            None => {
                return ;
            },
        };
        if rec.disputed {
            proof {
                lemma_record_le_disputed_total(old(self)@.history, tx.0);
            }
            self.held = self.held - rec.amount;
            self.locked = true;
            self.history.insert(tx.0, TransactionRecord { amount: rec.amount, disputed: false });
            proof {
                lemma_disputed_total_update(
                    old(self)@.history,
                    tx.0,
                    TransactionRecord { amount: rec.amount, disputed: false },
                );
            }
        }
    }
}

} // verus!
