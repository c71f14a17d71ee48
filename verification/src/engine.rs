//! The ledger engine: owns the map from client id to account, routes each
//! incoming transaction to the addressed account (creating it on first
//! reference), and applies the account's transition rule, strictly in arrival
//! order.

use std::collections::HashMap;
use vstd::prelude::*;

use crate::account::{Account, AccountState, ClientId, TxId};

verus! {

broadcast use vstd::std_specs::hash::group_hash_axioms;

/// The kind of an incoming event.
#[derive(Debug, Copy, Clone, Eq, PartialEq, Structural)]
pub enum TxType {
    Deposit,
    Withdrawal,
    Dispute,
    Resolve,
    Chargeback,
}

/// One typed event of the input stream. Deposits and withdrawals carry an
/// amount (in ten-thousandths of a currency unit); an absent amount makes the
/// event a no-op.
#[derive(Debug, Copy, Clone)]
pub struct Transaction {
    pub tx_type: TxType,
    pub client: ClientId,
    pub tx: TxId,
    pub amount: Option<u64>,
}

/// The mathematical state of the whole ledger: each client's account state,
/// plus the order in which clients were first referenced (the order used for
/// reporting).
pub ghost struct LedgerModel {
    pub accounts: Map<u32, AccountState>,
    pub order: Seq<u32>,
}

impl LedgerModel {
    /// The empty ledger.
    pub open spec fn initial() -> LedgerModel {
        LedgerModel { accounts: Map::empty(), order: Seq::empty() }
    }

    /// Well-formedness: every account is well formed and keyed by its own
    /// client id, and the reporting order lists exactly the known clients,
    /// each once.
    pub open spec fn wf(self) -> bool {
        &&& forall|k: u32|
            #[trigger] self.accounts.contains_key(k) ==> self.accounts[k].wf()
                && self.accounts[k].client == ClientId(k)
        &&& self.order.no_duplicates()
        &&& forall|i: int|
            0 <= i < self.order.len() ==> self.accounts.contains_key(#[trigger] self.order[i])
        &&& forall|k: u32| #[trigger] self.accounts.contains_key(k) ==> self.order.contains(k)
    }

    /// The transition rule of a single event on the addressed account's
    /// state.
    pub open spec fn step(s: AccountState, t: Transaction) -> AccountState {
        match t.tx_type {
            TxType::Deposit => match t.amount {
                Some(amount) => s.deposit(t.tx.0, amount),
                None => s,
            },
            TxType::Withdrawal => match t.amount {
                Some(amount) => s.withdrawal(amount),
                None => s,
            },
            TxType::Dispute => s.dispute(t.tx.0),
            TxType::Resolve => s.resolve(t.tx.0),
            TxType::Chargeback => s.chargeback(t.tx.0),
        }
    }

    /// Applying one event: the addressed account is created with zero
    /// balances on first reference, then stepped; no other account changes.
    pub open spec fn apply(self, t: Transaction) -> LedgerModel {
        let c = t.client.0;
        let s0 = if self.accounts.contains_key(c) {
            self.accounts[c]
        } else {
            AccountState::initial(t.client)
        };
        LedgerModel {
            accounts: self.accounts.insert(c, Self::step(s0, t)),
            order: if self.accounts.contains_key(c) {
                self.order
            } else {
                self.order.push(c)
            },
        }
    }

    /// Replaying a whole event sequence from the empty ledger, in order.
    pub open spec fn replay(ts: Seq<Transaction>) -> LedgerModel
        decreases ts.len(),
    {
        if ts.len() == 0 {
            LedgerModel::initial()
        } else {
            Self::replay(ts.drop_last()).apply(ts.last())
        }
    }
}

/// Every transition rule preserves an account's well-formedness.
pub proof fn lemma_step_preserves_wf(s: AccountState, t: Transaction)
    requires
        s.wf(),
    ensures
        LedgerModel::step(s, t).wf(),
{
    match t.tx_type {
        TxType::Deposit => {
            if let Some(amount) = t.amount {
                if !s.locked && !s.history.contains_key(t.tx.0) && s.total() + amount
                    <= u64::MAX {
                    crate::account::lemma_disputed_total_insert_fresh(
                        s.history,
                        t.tx.0,
                        crate::account::TransactionRecord { amount, disputed: false },
                    );
                }
            }
        },
        TxType::Withdrawal => {},
        TxType::Dispute => {
            if !s.locked && s.history.contains_key(t.tx.0) && !s.history[t.tx.0].disputed
                && s.available >= s.history[t.tx.0].amount {
                let amount = s.history[t.tx.0].amount;
                crate::account::lemma_disputed_total_update(
                    s.history,
                    t.tx.0,
                    crate::account::TransactionRecord { amount, disputed: true },
                );
            }
        },
        TxType::Resolve => {
            if !s.locked && s.history.contains_key(t.tx.0) && s.history[t.tx.0].disputed {
                let amount = s.history[t.tx.0].amount;
                crate::account::lemma_record_le_disputed_total(s.history, t.tx.0);
                crate::account::lemma_disputed_total_update(
                    s.history,
                    t.tx.0,
                    crate::account::TransactionRecord { amount, disputed: false },
                );
            }
        },
        TxType::Chargeback => {
            if !s.locked && s.history.contains_key(t.tx.0) && s.history[t.tx.0].disputed {
                let amount = s.history[t.tx.0].amount;
                crate::account::lemma_record_le_disputed_total(s.history, t.tx.0);
                crate::account::lemma_disputed_total_update(
                    s.history,
                    t.tx.0,
                    crate::account::TransactionRecord { amount, disputed: false },
                );
            }
        },
    }
}

/// Applying one event preserves the ledger's well-formedness.
pub proof fn lemma_apply_preserves_wf(m: LedgerModel, t: Transaction)
    requires
        m.wf(),
    ensures
        m.apply(t).wf(),
{
    let c = t.client.0;
    let s0 = if m.accounts.contains_key(c) {
        m.accounts[c]
    } else {
        AccountState::initial(t.client)
    };
    lemma_step_preserves_wf(s0, t);
    let m1 = m.apply(t);
    if !m.accounts.contains_key(c) {
        assert forall|i: int| 0 <= i < m1.order.len() implies m1.accounts.contains_key(
            #[trigger] m1.order[i],
        ) by {
            if i < m.order.len() {
                assert(m.accounts.contains_key(m.order[i]));
            }
        }
        assert forall|k: u32| #[trigger] m1.accounts.contains_key(k) implies m1.order.contains(
            k,
        ) by {
            if k == c {
                assert(m1.order[m1.order.len() - 1] == c);
            } else {
                assert(m.accounts.contains_key(k));
                let i = choose|i: int| 0 <= i < m.order.len() && m.order[i] == k;
                assert(m1.order[i] == k);
            }
        }
    }
}

/// Replaying any event sequence yields a well-formed ledger: in particular no
/// account's available or held balance is ever negative, and held funds are
/// always exactly the sum of the amounts under dispute.
pub proof fn lemma_replay_wf(ts: Seq<Transaction>)
    ensures
        LedgerModel::replay(ts).wf(),
    decreases ts.len(),
{
    if ts.len() == 0 {
    } else {
        lemma_replay_wf(ts.drop_last());
        lemma_apply_preserves_wf(LedgerModel::replay(ts.drop_last()), ts.last());
    }
}

/// After replaying any event sequence, every account's balances are
/// non-negative: no sequence of deposits and withdrawals (or any other
/// events) can drive `available` or `held` below zero.
pub proof fn lemma_replay_balances_nonneg(ts: Seq<Transaction>, k: u32)
    requires
        LedgerModel::replay(ts).accounts.contains_key(k),
    ensures
        LedgerModel::replay(ts).accounts[k].available >= 0,
        LedgerModel::replay(ts).accounts[k].held >= 0,
    {
    lemma_replay_wf(ts);
}

/// Cross-account isolation: a dispute whose transaction id is not in the
/// addressed account's own history — for instance an id retained only by a
/// different account — changes no account at all.
pub proof fn lemma_dispute_isolation(m: LedgerModel, t: Transaction, k: u32)
    requires
        t.tx_type == TxType::Dispute,
        m.accounts.contains_key(t.client.0) ==> !m.accounts[t.client.0].history.contains_key(
            t.tx.0,
        ),
        m.accounts.contains_key(k),
    ensures
        m.apply(t).accounts[k] == m.accounts[k],
{
}

/// True of an event that is a deposit carrying an amount.
pub open spec fn is_deposit_with_amount(t: Transaction) -> bool {
    t.tx_type == TxType::Deposit && t.amount is Some
}

/// Sum of the amounts of the deposits addressed to client `c`.
pub open spec fn deposits_sum_for(ts: Seq<Transaction>, c: u32) -> int
    decreases ts.len(),
{
    if ts.len() == 0 {
        0
    } else {
        deposits_sum_for(ts.drop_last(), c) + if ts.last().client.0 == c {
            match ts.last().amount {
                Some(a) => a as int,
                None => 0,
            }
        } else {
            0
        }
    }
}

/// True when some event of `ts` addressed to client `k` carries transaction
/// id `x`.
pub open spec fn client_has_tx(ts: Seq<Transaction>, k: u32, x: u32) -> bool {
    exists|i: int| 0 <= i < ts.len() && ts[i].client.0 == k && ts[i].tx.0 == x
}

/// Replaying a stream creates an account for every client an event
/// addresses.
pub proof fn lemma_replay_contains_client(ts: Seq<Transaction>, i: int)
    requires
        0 <= i < ts.len(),
    ensures
        LedgerModel::replay(ts).accounts.contains_key(ts[i].client.0),
    decreases ts.len(),
{
    if i < ts.len() - 1 {
        lemma_replay_contains_client(ts.drop_last(), i);
        assert(ts.drop_last()[i] == ts[i]);
    }
}

proof fn lemma_deposits_only_invariant(ts: Seq<Transaction>)
    requires
        forall|i: int| 0 <= i < ts.len() ==> is_deposit_with_amount(#[trigger] ts[i]),
        forall|i: int, j: int|
            0 <= i < j < ts.len() && ts[i].client == ts[j].client ==> ts[i].tx != ts[j].tx,
        forall|k: u32| deposits_sum_for(ts, k) <= u64::MAX,
    ensures
        forall|k: u32|
            #[trigger] LedgerModel::replay(ts).accounts.contains_key(k) ==> {
                &&& LedgerModel::replay(ts).accounts[k].available == deposits_sum_for(ts, k)
                &&& LedgerModel::replay(ts).accounts[k].held == 0
                &&& !LedgerModel::replay(ts).accounts[k].locked
            },
        forall|k: u32, x: u32|
            LedgerModel::replay(ts).accounts.contains_key(k) ==> (#[trigger] LedgerModel::replay(
                ts,
            ).accounts[k].history.contains_key(x) <==> client_has_tx(ts, k, x)),
        forall|k: u32|
            !LedgerModel::replay(ts).accounts.contains_key(k) ==> #[trigger] deposits_sum_for(
                ts,
                k,
            ) == 0,
    decreases ts.len(),
{
    if ts.len() == 0 {
    } else {
        let dl = ts.drop_last();
        let t = ts.last();
        assert forall|k: u32| deposits_sum_for(dl, k) <= u64::MAX by {
            assert(deposits_sum_for(ts, k) <= u64::MAX);
        }
        lemma_deposits_only_invariant(dl);
        let m = LedgerModel::replay(dl);
        let m1 = LedgerModel::replay(ts);
        let c = t.client.0;
        let amount = t.amount->Some_0;
        let s0 = if m.accounts.contains_key(c) {
            m.accounts[c]
        } else {
            AccountState::initial(t.client)
        };
        assert(is_deposit_with_amount(t));
        // The deposited transaction id is fresh for this client.
        assert(!s0.history.contains_key(t.tx.0)) by {
            if m.accounts.contains_key(c) && s0.history.contains_key(t.tx.0) {
                assert(client_has_tx(dl, c, t.tx.0));
                let i = choose|i: int|
                    0 <= i < dl.len() && dl[i].client.0 == c && dl[i].tx.0 == t.tx.0;
                assert(ts[i].client == t.client);
                assert(ts[i].tx == t.tx);
            }
        }
        // The new total stays within the machine bound.
        if m.accounts.contains_key(c) {
            assert(s0.available == deposits_sum_for(dl, c) && s0.held == 0);
        } else {
            assert(deposits_sum_for(dl, c) == 0);
        }
        assert(s0.total() + amount == deposits_sum_for(ts, c));
        assert(deposits_sum_for(ts, c) <= u64::MAX);
        let s1 = s0.deposit(t.tx.0, amount);
        assert(s1.available == deposits_sum_for(ts, c));
        assert forall|k: u32| #[trigger] m1.accounts.contains_key(k) implies {
            &&& m1.accounts[k].available == deposits_sum_for(ts, k)
            &&& m1.accounts[k].held == 0
            &&& !m1.accounts[k].locked
        } by {
            if k != c {
                assert(m.accounts.contains_key(k));
                assert(deposits_sum_for(ts, k) == deposits_sum_for(dl, k));
            }
        }
        assert forall|k: u32, x: u32|
            m1.accounts.contains_key(k) implies (#[trigger] m1.accounts[k].history.contains_key(
            x,
        ) <==> client_has_tx(ts, k, x)) by {
            if k == c {
                if x == t.tx.0 {
                    assert(ts[ts.len() - 1].client.0 == k && ts[ts.len() - 1].tx.0 == x);
                    assert(client_has_tx(ts, k, x));
                    assert(m1.accounts[k].history.contains_key(x));
                } else {
                    assert(m1.accounts[k].history.contains_key(x) <==> s0.history.contains_key(
                        x,
                    ));
                    if client_has_tx(dl, k, x) {
                        let i = choose|i: int|
                            0 <= i < dl.len() && dl[i].client.0 == k && dl[i].tx.0 == x;
                        assert(ts[i].client.0 == k && ts[i].tx.0 == x);
                        assert(client_has_tx(ts, k, x));
                    }
                    if client_has_tx(ts, k, x) {
                        let i = choose|i: int|
                            0 <= i < ts.len() && ts[i].client.0 == k && ts[i].tx.0 == x;
                        assert(i < ts.len() - 1);
                        assert(dl[i].client.0 == k && dl[i].tx.0 == x);
                        assert(client_has_tx(dl, k, x));
                    }
                    if m.accounts.contains_key(c) {
                        assert(m.accounts[c].history.contains_key(x) <==> client_has_tx(
                            dl,
                            c,
                            x,
                        ));
                    } else {
                        assert(!s0.history.contains_key(x));
                        if client_has_tx(dl, c, x) {
                            let i = choose|i: int|
                                0 <= i < dl.len() && dl[i].client.0 == c && dl[i].tx.0 == x;
                            lemma_replay_contains_client(dl, i);
                            assert(false);
                        }
                    }
                }
            } else {
                assert(m1.accounts[k] == m.accounts[k]);
                if client_has_tx(dl, k, x) {
                    let i = choose|i: int|
                        0 <= i < dl.len() && dl[i].client.0 == k && dl[i].tx.0 == x;
                    assert(ts[i].client.0 == k && ts[i].tx.0 == x);
                    assert(client_has_tx(ts, k, x));
                }
                if client_has_tx(ts, k, x) {
                    let i = choose|i: int|
                        0 <= i < ts.len() && ts[i].client.0 == k && ts[i].tx.0 == x;
                    assert(i < ts.len() - 1);
                    assert(dl[i].client.0 == k && dl[i].tx.0 == x);
                    assert(client_has_tx(dl, k, x));
                }
            }
        }
        assert forall|k: u32|
            !m1.accounts.contains_key(k) implies #[trigger] deposits_sum_for(ts, k) == 0 by {
            assert(!m.accounts.contains_key(k));
            assert(k != c);
            assert(deposits_sum_for(ts, k) == deposits_sum_for(dl, k));
        }
    }
}

/// For a stream of deposits only — every event a deposit with an amount,
/// transaction ids distinct per client, each client's sum within the machine
/// bound — every account ends with `available` equal to the sum of its
/// deposit amounts, `held` zero, and therefore `total` equal to that same
/// sum.
pub proof fn lemma_deposits_only_sum(ts: Seq<Transaction>, c: u32)
    requires
        forall|i: int| 0 <= i < ts.len() ==> is_deposit_with_amount(#[trigger] ts[i]),
        forall|i: int, j: int|
            0 <= i < j < ts.len() && ts[i].client == ts[j].client ==> ts[i].tx != ts[j].tx,
        forall|k: u32| deposits_sum_for(ts, k) <= u64::MAX,
        LedgerModel::replay(ts).accounts.contains_key(c),
    ensures
        LedgerModel::replay(ts).accounts[c].available == deposits_sum_for(ts, c),
        LedgerModel::replay(ts).accounts[c].held == 0,
        LedgerModel::replay(ts).accounts[c].total() == deposits_sum_for(ts, c),
{
    lemma_deposits_only_invariant(ts);
}

/// The ledger engine: the owned client-to-account map, plus the order in
/// which clients first appeared, used when reporting.
pub struct Ledger {
    pub accounts: HashMap<u32, Account>,
    pub clients: Vec<u32>,
}

impl View for Ledger {
    type V = LedgerModel;

    open spec fn view(&self) -> LedgerModel {
        LedgerModel {
            accounts: self.accounts@.map_values(|a: Account| a@),
            order: self.clients@,
        }
    }
}

impl Ledger {
    /// Creates an empty ledger.
    pub fn new() -> (r: Ledger)
        ensures
            r@ == LedgerModel::initial(),
            r@.wf(),
    {
        let r = Ledger { accounts: HashMap::new(), clients: Vec::new() };
        proof {
            assert(r@.accounts =~= LedgerModel::initial().accounts);
            assert(r@.order =~= LedgerModel::initial().order);
            assert(r@ == LedgerModel::initial());
        }
        r
    }

    /// Applies one event to the addressed account, creating the account on
    /// first reference. Everything the rules reject is silently dropped.
    pub fn apply(&mut self, t: &Transaction)
        requires
            old(self)@.wf(),
        ensures
            final(self)@ == old(self)@.apply(*t),
            final(self)@.wf(),
    {
        let c = t.client.0;
        let mut acc = match self.accounts.remove(&c) {
            Some(a) => a,
            None => {
                proof {
                    if self.clients@.contains(c) {
                        let i = choose|i: int|
                            0 <= i < self.clients@.len() && self.clients@[i] == c;
                        assert(old(self)@.accounts.contains_key(self.clients@[i]));
                    }
                }
                self.clients.push(c);
                Account::new(t.client)
            },
        };
        proof {
            if old(self).accounts@.contains_key(c) {
                assert(old(self)@.accounts.contains_key(c));
                assert(acc@ == old(self)@.accounts[c]);
            } else {
                assert(!old(self)@.accounts.contains_key(c));
            }
            assert(acc@.wf());
        }
        match t.tx_type {
            TxType::Deposit => {
                if let Some(amount) = t.amount {
                    if !acc.locked && !acc.history.contains_key(&t.tx.0) && amount <= u64::MAX
                        - acc.available - acc.held {
                        acc.deposit(t.tx, amount);
                    }
                }
            },
            TxType::Withdrawal => {
                if let Some(amount) = t.amount {
                    acc.withdrawal(amount);
                }
            },
            TxType::Dispute => acc.dispute(t.tx),
            TxType::Resolve => acc.resolve(t.tx),
            TxType::Chargeback => acc.chargeback(t.tx),
        }
        self.accounts.insert(c, acc);
        proof {
            lemma_apply_preserves_wf(old(self)@, *t);
            assert(final(self)@.accounts =~= old(self)@.apply(*t).accounts);
            assert(final(self)@.order =~= old(self)@.apply(*t).order);
            assert(final(self)@ == old(self)@.apply(*t));
        }
    }

    /// Read-only access to one client's account, if the stream has referenced
    /// it.
    pub fn get_account(&self, client: ClientId) -> (r: Option<&Account>)
        ensures
            match r {
                Some(a) => self@.accounts.contains_key(client.0) && a@ == self@.accounts[client.0],
                None => !self@.accounts.contains_key(client.0),
            },
    {
        self.accounts.get(&client.0)
    }

    /// The clients known to the ledger, in first-reference order.
    pub fn client_order(&self) -> (r: &Vec<u32>)
        ensures
            r@ == self@.order,
    {
        &self.clients
    }
}

/// The meaning of a whole run: read the input into events, replay them in
/// order against an empty ledger, and render the resulting snapshot; a
/// structurally malformed input aborts with its first error and no output.
pub open spec fn spec_process(input: Seq<u8>) -> Result<Seq<char>, crate::parse::ParseError> {
    match crate::parse::spec_parse(input) {
        Result::Err(e) => Result::Err(e),
        Result::Ok(ts) => Result::Ok(crate::emit::spec_render(LedgerModel::replay(ts))),
    }
}

/// Processes one delimited-text input: parses it, replays every event in
/// arrival order, and renders the final balances of all accounts.
pub fn process_transactions(input: &[u8]) -> (r: Result<String, crate::parse::ParseError>)
    ensures
        match r {
            Result::Ok(out) => spec_process(input@) == Result::<
                Seq<char>,
                crate::parse::ParseError,
            >::Ok(out@),
            Result::Err(e) => spec_process(input@) == Result::<
                Seq<char>,
                crate::parse::ParseError,
            >::Err(e),
        },
{
    let ts = match crate::parse::parse_transactions(input) {
        Result::Ok(v) => v,
        Result::Err(e) => {
            return Result::Err(e);
        },
    };
    let mut ledger = Ledger::new();
    let mut i: usize = 0;
    proof {
        assert(ts@.take(0) =~= Seq::<Transaction>::empty());
    }
    while i < ts.len()
        invariant
            0 <= i <= ts@.len(),
            ledger@.wf(),
            ledger@ == LedgerModel::replay(ts@.take(i as int)),
        decreases ts@.len() - i,
    {
        proof {
            assert(ts@.take(i + 1).drop_last() =~= ts@.take(i as int));
            assert(ts@.take(i + 1).last() == ts@[i as int]);
        }
        ledger.apply(&ts[i]);
        i = i + 1;
    }
    proof {
        assert(ts@.take(i as int) =~= ts@);
    }
    Result::Ok(crate::emit::render(&ledger))
}

} // verus!
