//! The transaction engine: a deterministic state machine over per-client
//! accounts, live deposit records and the set of spent withdrawal ids.
//!
//! Every mutation is specified against `apply_spec`, a functional model of
//! the engine transition, and preserves the engine invariant: balances are
//! conserved, held funds equal the sum of disputed deposits, and transaction
//! ids are unique across deposits and withdrawals.

use vstd::prelude::*;
use std::collections::HashMap;
use std::collections::HashSet;
use crate::amount::Amount;
use crate::error::{
    ChargebackError, DepositError, DisputeError, EngineError, ResolveError, WithdrawalError,
};
use crate::model::{ClientId, DepositModel, DepositRecord, Transaction, TxId};
use crate::state::{AccountModel, ClientAccount};
use crate::sums::{
    map_sum, lemma_map_sum_insert, lemma_map_sum_update, lemma_map_sum_remove,
    lemma_map_sum_ge_entry, lemma_map_sum_zero,
};

verus! {

broadcast use vstd::std_specs::hash::group_hash_axioms;

/// Mathematical model of the whole engine state.
#[verifier::ext_equal]
pub struct EngineModel {
    /// Per-client account state, keyed by client id.
    pub accounts: Map<ClientId, AccountModel>,
    /// Live deposit records, keyed by transaction id. Chargedback deposits
    /// are evicted: absence is the terminal state.
    pub deposits: Map<TxId, DepositModel>,
    /// Ids of applied withdrawals, kept for uniqueness only.
    pub withdrawal_ids: Set<TxId>,
}

/// Contribution of one deposit record to a client's held balance: its amount
/// when it is that client's and under dispute, zero otherwise.
pub open spec fn held_contrib(c: ClientId) -> spec_fn(TxId, DepositModel) -> int {
    |t: TxId, r: DepositModel|
        if r.client == c && r.disputed {
            r.amount
        } else {
            0
        }
}

/// The held balance a client's disputed deposits account for.
pub open spec fn held_sum(deposits: Map<TxId, DepositModel>, c: ClientId) -> int {
    map_sum(deposits, held_contrib(c))
}

/// Sum of total funds (available plus held) over a set of accounts.
pub open spec fn total_sum(accounts: Map<ClientId, AccountModel>) -> int {
    map_sum(accounts, |c: ClientId, a: AccountModel| a.total())
}

impl EngineModel {
    /// The state of a fresh engine: no accounts, no deposits, no ids.
    pub open spec fn empty() -> EngineModel {
        EngineModel {
            accounts: Map::empty(),
            deposits: Map::empty(),
            withdrawal_ids: Set::empty(),
        }
    }

    /// A transaction id never seen before, neither as deposit nor withdrawal.
    pub open spec fn tx_unique(self, t: TxId) -> bool {
        !self.deposits.contains_key(t) && !self.withdrawal_ids.contains(t)
    }

    /// The client's account, or the zero account it would lazily get.
    pub open spec fn account_or_new(self, c: ClientId) -> AccountModel {
        if self.accounts.contains_key(c) {
            self.accounts[c]
        } else {
            AccountModel { id: c, available: 0, held: 0, frozen: false }
        }
    }

    /// The engine invariant.
    ///
    /// - accounts are keyed by their own id and hold scaled 64-bit balances;
    /// - deposit amounts are nonnegative and their owners have accounts;
    /// - no id is both a deposit and a withdrawal;
    /// - each held balance equals the sum of that client's disputed deposits.
    pub open spec fn inv(self) -> bool {
        &&& self.accounts.dom().finite()
        &&& self.deposits.dom().finite()
        &&& forall|c: ClientId|
            self.accounts.contains_key(c) ==> (#[trigger] self.accounts[c]).id == c
        &&& forall|c: ClientId|
            self.accounts.contains_key(c) ==> i64::MIN <= (
            #[trigger] self.accounts[c]).available <= i64::MAX && i64::MIN
                <= self.accounts[c].held <= i64::MAX
        &&& forall|t: TxId|
            self.deposits.contains_key(t) ==> 0 <= (#[trigger] self.deposits[t]).amount
                <= i64::MAX
        &&& forall|t: TxId|
            self.deposits.contains_key(t) ==> self.accounts.contains_key(
                (#[trigger] self.deposits[t]).client,
            )
        &&& forall|t: TxId| self.deposits.contains_key(t) ==> !self.withdrawal_ids.contains(t)
        &&& forall|c: ClientId|
            self.accounts.contains_key(c) ==> (#[trigger] self.accounts[c]).held == held_sum(
                self.deposits,
                c,
            )
    }
}

/// A deposit would pass its checks: a fresh id and an unfrozen account.
pub open spec fn deposit_applies(s: EngineModel, client: ClientId, t: TxId) -> bool {
    s.tx_unique(t) && !s.account_or_new(client).frozen
}

/// A dispute would pass its checks: a live deposit of this client, not yet
/// disputed.
pub open spec fn dispute_applies(s: EngineModel, client: ClientId, t: TxId) -> bool {
    &&& s.deposits.contains_key(t)
    &&& s.deposits[t].client == client
    &&& !s.deposits[t].disputed
    &&& s.accounts.contains_key(client)
}

/// A resolve or chargeback would pass its checks: a live deposit of this
/// client, under dispute.
pub open spec fn resolve_applies(s: EngineModel, client: ClientId, t: TxId) -> bool {
    &&& s.deposits.contains_key(t)
    &&& s.deposits[t].client == client
    &&& s.deposits[t].disputed
    &&& s.accounts.contains_key(client)
}

/// Deposit transition: credit the amount and record the deposit, or reject.
pub open spec fn deposit_step(s: EngineModel, client: ClientId, t: TxId, amount: int) -> (
    EngineModel,
    Result<(), DepositError>,
) {
    if !s.tx_unique(t) {
        (s, Err(DepositError::DuplicateTxId(t)))
    } else {
        let acct = s.account_or_new(client);
        if acct.frozen {
            (s, Err(DepositError::AccountFrozen(client)))
        } else {
            let acct2 = AccountModel { available: acct.available + amount, ..acct };
            (
                EngineModel {
                    accounts: s.accounts.insert(client, acct2),
                    deposits: s.deposits.insert(
                        t,
                        DepositModel { client, amount, disputed: false },
                    ),
                    ..s
                },
                Ok(()),
            )
        }
    }
}

/// Withdrawal transition: debit the amount and spend the id, or reject. The
/// account is created lazily even when the funds check then rejects.
pub open spec fn withdrawal_step(s: EngineModel, client: ClientId, t: TxId, amount: int) -> (
    EngineModel,
    Result<(), WithdrawalError>,
) {
    if !s.tx_unique(t) {
        (s, Err(WithdrawalError::DuplicateTxId(t)))
    } else {
        let acct = s.account_or_new(client);
        if acct.frozen {
            (s, Err(WithdrawalError::AccountFrozen(client)))
        } else if acct.available < amount {
            (
                EngineModel { accounts: s.accounts.insert(client, acct), ..s },
                Err(
                    WithdrawalError::InsufficientFunds(
                        client,
                        Amount(acct.available as i64),
                        Amount(amount as i64),
                    ),
                ),
            )
        } else {
            (
                EngineModel {
                    accounts: s.accounts.insert(
                        client,
                        AccountModel { available: acct.available - amount, ..acct },
                    ),
                    withdrawal_ids: s.withdrawal_ids.insert(t),
                    ..s
                },
                Ok(()),
            )
        }
    }
}

/// Dispute transition: move the deposit's amount from available to held and
/// mark the record, or reject. The available balance may go negative when
/// the funds were already withdrawn.
pub open spec fn dispute_step(s: EngineModel, client: ClientId, t: TxId) -> (
    EngineModel,
    Result<(), DisputeError>,
) {
    if !s.deposits.contains_key(t) {
        (s, Err(DisputeError::TxNotFound(t)))
    } else {
        let rec = s.deposits[t];
        if rec.client != client {
            (s, Err(DisputeError::ClientMismatch(t, rec.client, client)))
        } else if rec.disputed {
            (s, Err(DisputeError::InvalidState(t)))
        } else if !s.accounts.contains_key(client) {
            (s, Err(DisputeError::ClientNotFound(client)))
        } else {
            let acct = s.accounts[client];
            (
                EngineModel {
                    accounts: s.accounts.insert(
                        client,
                        AccountModel {
                            available: acct.available - rec.amount,
                            held: acct.held + rec.amount,
                            ..acct
                        },
                    ),
                    deposits: s.deposits.insert(t, DepositModel { disputed: true, ..rec }),
                    ..s
                },
                Ok(()),
            )
        }
    }
}

/// Resolve transition: move the deposit's amount from held back to available
/// and clear the mark, or reject. A resolved deposit may be disputed again.
pub open spec fn resolve_step(s: EngineModel, client: ClientId, t: TxId) -> (
    EngineModel,
    Result<(), ResolveError>,
) {
    if !s.deposits.contains_key(t) {
        (s, Err(ResolveError::TxNotFound(t)))
    } else {
        let rec = s.deposits[t];
        if rec.client != client {
            (s, Err(ResolveError::ClientMismatch(t, rec.client, client)))
        } else if !rec.disputed {
            (s, Err(ResolveError::InvalidState(t)))
        } else if !s.accounts.contains_key(client) {
            (s, Err(ResolveError::ClientNotFound(client)))
        } else {
            let acct = s.accounts[client];
            (
                EngineModel {
                    accounts: s.accounts.insert(
                        client,
                        AccountModel {
                            available: acct.available + rec.amount,
                            held: acct.held - rec.amount,
                            ..acct
                        },
                    ),
                    deposits: s.deposits.insert(t, DepositModel { disputed: false, ..rec }),
                    ..s
                },
                Ok(()),
            )
        }
    }
}

/// Chargeback transition: remove the held amount, freeze the account and
/// evict the record, or reject. Eviction is terminal: the id then reads as
/// not found.
pub open spec fn chargeback_step(s: EngineModel, client: ClientId, t: TxId) -> (
    EngineModel,
    Result<(), ChargebackError>,
) {
    if !s.deposits.contains_key(t) {
        (s, Err(ChargebackError::TxNotFound(t)))
    } else {
        let rec = s.deposits[t];
        if rec.client != client {
            (s, Err(ChargebackError::ClientMismatch(t, rec.client, client)))
        } else if !rec.disputed {
            (s, Err(ChargebackError::InvalidState(t)))
        } else if !s.accounts.contains_key(client) {
            (s, Err(ChargebackError::ClientNotFound(client)))
        } else {
            let acct = s.accounts[client];
            (
                EngineModel {
                    accounts: s.accounts.insert(
                        client,
                        AccountModel { held: acct.held - rec.amount, frozen: true, ..acct },
                    ),
                    deposits: s.deposits.remove(t),
                    ..s
                },
                Ok(()),
            )
        }
    }
}

/// The engine transition: one transaction applied to one state, yielding the
/// next state and the outcome. Rejections leave the state unchanged, except
/// that a deposit or withdrawal may have lazily created the (zero) account.
pub open spec fn apply_spec(s: EngineModel, tx: Transaction) -> (
    EngineModel,
    Result<(), EngineError>,
) {
    match tx {
        Transaction::Deposit { client, tx, amount } => {
            let r = deposit_step(s, client, tx, amount@);
            (
                r.0,
                match r.1 {
                    Ok(()) => Ok(()),
                    Err(e) => Err(EngineError::Deposit(e)),
                },
            )
        },
        Transaction::Withdrawal { client, tx, amount } => {
            let r = withdrawal_step(s, client, tx, amount@);
            (
                r.0,
                match r.1 {
                    Ok(()) => Ok(()),
                    Err(e) => Err(EngineError::Withdrawal(e)),
                },
            )
        },
        Transaction::Dispute { client, tx } => {
            let r = dispute_step(s, client, tx);
            (
                r.0,
                match r.1 {
                    Ok(()) => Ok(()),
                    Err(e) => Err(EngineError::Dispute(e)),
                },
            )
        },
        Transaction::Resolve { client, tx } => {
            let r = resolve_step(s, client, tx);
            (
                r.0,
                match r.1 {
                    Ok(()) => Ok(()),
                    Err(e) => Err(EngineError::Resolve(e)),
                },
            )
        },
        Transaction::Chargeback { client, tx } => {
            let r = chargeback_step(s, client, tx);
            (
                r.0,
                match r.1 {
                    Ok(()) => Ok(()),
                    Err(e) => Err(EngineError::Chargeback(e)),
                },
            )
        },
    }
}

/// What a caller must rule out before `apply`: negative amounts (the input
/// domain is nonnegative) and scaled 64-bit overflow on the balances the
/// transaction would touch. Overflow on ingestion input is a documented
/// non-goal of the ledger; the stream domain is assumed well within range.
pub open spec fn apply_req(s: EngineModel, tx: Transaction) -> bool {
    match tx {
        Transaction::Deposit { client, tx, amount } => amount@ >= 0 && (deposit_applies(
            s,
            client,
            tx,
        ) ==> s.account_or_new(client).available + amount@ <= i64::MAX),
        Transaction::Withdrawal { client, tx, amount } => amount@ >= 0,
        Transaction::Dispute { client, tx } => dispute_applies(s, client, tx) ==> {
            &&& s.accounts[client].available - s.deposits[tx].amount >= i64::MIN
            &&& s.accounts[client].held + s.deposits[tx].amount <= i64::MAX
        },
        Transaction::Resolve { client, tx } => resolve_applies(s, client, tx)
            ==> s.accounts[client].available + s.deposits[tx].amount <= i64::MAX,
        Transaction::Chargeback { client, tx } => true,
    }
}

/// The transaction processing engine.
///
/// It owns the client accounts, the live deposit records, and the set of
/// spent withdrawal ids.
pub struct Engine {
    clients: HashMap<ClientId, ClientAccount>,
    deposits: HashMap<TxId, DepositRecord>,
    withdrawal_ids: HashSet<TxId>,
    /// Client ids in order of first appearance; drives `clients()`.
    client_order: Vec<ClientId>,
}

impl View for Engine {
    type V = EngineModel;

    closed spec fn view(&self) -> EngineModel {
        EngineModel {
            accounts: self.clients@.map_values(|a: ClientAccount| a@),
            deposits: self.deposits@.map_values(|r: DepositRecord| r@),
            withdrawal_ids: self.withdrawal_ids@,
        }
    }
}

impl Engine {
    /// Well-formed: the model invariant holds and the client listing carries
    /// exactly the known clients, each once.
    pub closed spec fn wf(&self) -> bool {
        &&& self@.inv()
        &&& self.client_order@.no_duplicates()
        &&& forall|c: ClientId|
            #[trigger] self.client_order@.contains(c) <==> self@.accounts.contains_key(c)
    }

    /// Well-formedness gives the model invariant.
    pub proof fn lemma_wf_inv(&self)
        requires
            self.wf(),
        ensures
            self@.inv(),
    {
    }

    /// A fresh, empty engine.
    pub fn new() -> (r: Engine)
        ensures
            r.wf(),
            r@ == EngineModel::empty(),
    {
        let e = Engine {
            clients: HashMap::new(),
            deposits: HashMap::new(),
            withdrawal_ids: HashSet::new(),
            client_order: Vec::new(),
        };
        proof {
            assert(e@.accounts =~= Map::<ClientId, AccountModel>::empty());
            assert(e@.deposits =~= Map::<TxId, DepositModel>::empty());
            assert(e@ =~= EngineModel::empty());
            assert(forall|c: ClientId| !e.client_order@.contains(c));
        }
        e
    }

    /// Whether a transaction id was never used by a deposit or withdrawal.
    fn is_unique(&self, tx: &TxId) -> (r: bool)
        ensures
            r == self@.tx_unique(*tx),
    {
        !self.deposits.contains_key(tx) && !self.withdrawal_ids.contains(tx)
    }

    /// Fetch the client's account, creating the zero account when absent, as
    /// deposits and withdrawals do lazily. Returns a copy.
    fn fetch_or_create_account(&mut self, client: ClientId) -> (r: ClientAccount)
        requires
            old(self).wf(),
        ensures
            final(self).wf(),
            r@ == old(self)@.account_or_new(client),
            final(self)@ == (EngineModel {
                accounts: old(self)@.accounts.insert(client, r@),
                ..old(self)@
            }),
            final(self)@.accounts.contains_key(client),
    {
        let ghost old0 = self@;
        match self.clients.get(&client) {
            Some(a) => {
                let r = *a;
                proof {
                    assert(self@.accounts =~= old0.accounts.insert(client, r@));
                    assert(self@ =~= (EngineModel {
                        accounts: old0.accounts.insert(client, r@),
                        ..old0
                    }));
                }
                r
            },
            None => {
                let a = ClientAccount::new(client);
                self.clients.insert(client, a);
                self.client_order.push(client);
                proof {
                    assert(self@.accounts =~= old0.accounts.insert(client, a@));
                    assert(self@.deposits =~= old0.deposits);
                    assert(self@ =~= (EngineModel {
                        accounts: old0.accounts.insert(client, a@),
                        ..old0
                    }));
                    // the fresh zero account keeps the invariant: its held
                    // balance is zero, and no deposit record names it
                    assert(forall|t: TxId|
                        old0.deposits.contains_key(t) ==> #[trigger] held_contrib(client)(
                            t,
                            old0.deposits[t],
                        ) == 0);
                    lemma_map_sum_zero(old0.deposits, held_contrib(client));
                    assert(forall|c: ClientId|
                        self@.accounts.contains_key(c) ==> (#[trigger] self@.accounts[c]).held
                            == held_sum(self@.deposits, c));
                    // the listing gains exactly this client
                    assert forall|i: int|
                        0 <= i < old(self).client_order@.len() implies #[trigger] old(
                        self,
                    ).client_order@[i] != client by {
                        if old(self).client_order@[i] == client {
                            assert(old(self).client_order@.contains(client));
                        }
                    }
                    assert(self.client_order@.no_duplicates());
                    assert(forall|c: ClientId|
                        #[trigger] self.client_order@.contains(c)
                            <==> self@.accounts.contains_key(c)) by {
                        assert forall|c: ClientId|
                            self.client_order@.contains(c) implies #[trigger] self@.accounts.contains_key(
                            c,
                        ) by {
                            let i = choose|i: int|
                                0 <= i < self.client_order@.len() && self.client_order@[i] == c;
                            if i < self.client_order@.len() - 1 {
                                assert(old(self).client_order@[i] == c);
                                assert(old(self).client_order@.contains(c));
                            } else {
                                assert(c == client);
                            }
                        }
                        assert(forall|c: ClientId|
                            self@.accounts.contains_key(c)
                                ==> #[trigger] self.client_order@.contains(c)) by {
                            assert(forall|c: ClientId|
                                old0.accounts.contains_key(c)
                                    ==> #[trigger] old(self).client_order@.contains(c));
                            assert forall|c: ClientId|
                                old(self).client_order@.contains(c)
                                    implies #[trigger] self.client_order@.contains(c) by {
                                let i = choose|i: int|
                                    0 <= i < old(self).client_order@.len() && old(
                                        self,
                                    ).client_order@[i] == c;
                                assert(self.client_order@[i] == c);
                            }
                            assert(self.client_order@[self.client_order@.len() - 1] == client);
                            assert(self.client_order@.contains(client));
                        }
                    }
                }
                a
            },
        }
    }

    /// Apply a deposit: reject a reused id or a frozen account, else credit
    /// the available balance and record the deposit for later disputes.
    fn apply_deposit(&mut self, client: ClientId, tx: TxId, amount: Amount) -> (r: Result<
        (),
        DepositError,
    >)
        requires
            old(self).wf(),
            amount@ >= 0,
            deposit_applies(old(self)@, client, tx) ==> old(self)@.account_or_new(client).available
                + amount@ <= i64::MAX,
        ensures
            final(self).wf(),
            (final(self)@, r) == deposit_step(old(self)@, client, tx, amount@),
    {
        let ghost old0 = self@;
        if !self.is_unique(&tx) {
            return Err(DepositError::DuplicateTxId(tx));
        }
        let acct = self.fetch_or_create_account(client);
        let ghost mid = self@;
        if acct.is_frozen() {
            proof {
                // a frozen account existed, so its re-insertion changed nothing
                assert(old0.accounts.contains_key(client));
                assert(mid.accounts =~= old0.accounts);
                assert(mid =~= old0);
            }
            return Err(DepositError::AccountFrozen(client));
        }
        let mut acct2 = acct;
        acct2.credit(amount);
        self.clients.insert(client, acct2);
        let rec = DepositRecord::new(client, amount);
        self.deposits.insert(tx, rec);
        proof {
            let step = deposit_step(old0, client, tx, amount@);
            assert(self@.accounts =~= mid.accounts.insert(client, acct2@));
            assert(self@.accounts =~= old0.accounts.insert(client, acct2@));
            assert(self@.deposits =~= old0.deposits.insert(tx, rec@));
            assert(self@ =~= step.0);
            // held balances: the new record is not disputed, so no sum moves
            assert(forall|c: ClientId|
                self@.accounts.contains_key(c) ==> (#[trigger] self@.accounts[c]).held == held_sum(
                    self@.deposits,
                    c,
                )) by {
                assert forall|c: ClientId| self@.accounts.contains_key(c) implies (
                #[trigger] self@.accounts[c]).held == held_sum(self@.deposits, c) by {
                    lemma_map_sum_insert(old0.deposits, held_contrib(c), tx, rec@);
                    if c == client && !old0.accounts.contains_key(client) {
                        assert(forall|t: TxId|
                            old0.deposits.contains_key(t) ==> #[trigger] held_contrib(client)(
                                t,
                                old0.deposits[t],
                            ) == 0);
                        lemma_map_sum_zero(old0.deposits, held_contrib(client));
                    }
                }
            }
            assert(self@.inv());
        }
        Ok(())
    }

    /// Apply a withdrawal: reject a reused id, a frozen account or a shortage
    /// of available funds (no partial withdrawal), else debit the available
    /// balance and spend the id.
    fn apply_withdrawal(&mut self, client: ClientId, tx: TxId, amount: Amount) -> (r: Result<
        (),
        WithdrawalError,
    >)
        requires
            old(self).wf(),
            amount@ >= 0,
        ensures
            final(self).wf(),
            (final(self)@, r) == withdrawal_step(old(self)@, client, tx, amount@),
    {
        let ghost old0 = self@;
        if !self.is_unique(&tx) {
            return Err(WithdrawalError::DuplicateTxId(tx));
        }
        let acct = self.fetch_or_create_account(client);
        let ghost mid = self@;
        if acct.is_frozen() {
            proof {
                assert(old0.accounts.contains_key(client));
                assert(mid.accounts =~= old0.accounts);
                assert(mid =~= old0);
            }
            return Err(WithdrawalError::AccountFrozen(client));
        }
        let available = acct.available();
        if available.0 < amount.0 {
            proof {
                let step = withdrawal_step(old0, client, tx, amount@);
                assert(mid =~= step.0);
                assert(available == Amount(old0.account_or_new(client).available as i64));
                assert(amount == Amount(amount@ as i64));
            }
            return Err(WithdrawalError::InsufficientFunds(client, available, amount));
        }
        let mut acct2 = acct;
        acct2.debit(amount);
        self.clients.insert(client, acct2);
        self.withdrawal_ids.insert(tx);
        proof {
            let step = withdrawal_step(old0, client, tx, amount@);
            assert(self@.accounts =~= mid.accounts.insert(client, acct2@));
            assert(self@.accounts =~= old0.accounts.insert(client, acct2@));
            assert(self@.withdrawal_ids =~= old0.withdrawal_ids.insert(tx));
            assert(self@.deposits =~= old0.deposits);
            assert(self@ =~= step.0);
            // held balances: no deposit record moved
            assert forall|c: ClientId| self@.accounts.contains_key(c) implies (
            #[trigger] self@.accounts[c]).held == held_sum(self@.deposits, c) by {
                if c == client && !old0.accounts.contains_key(client) {
                    assert(forall|t: TxId|
                        old0.deposits.contains_key(t) ==> #[trigger] held_contrib(client)(
                            t,
                            old0.deposits[t],
                        ) == 0);
                    lemma_map_sum_zero(old0.deposits, held_contrib(client));
                }
            }
            assert(self@.inv());
        }
        Ok(())
    }

    /// Apply a dispute: on a live, undisputed deposit of this client, move
    /// its amount from available to held and mark the record. The available
    /// balance may go negative when the funds were already withdrawn; that is
    /// the documented debt case, not an error.
    fn apply_dispute(&mut self, client: ClientId, tx: TxId) -> (r: Result<(), DisputeError>)
        requires
            old(self).wf(),
            dispute_applies(old(self)@, client, tx) ==> {
                &&& old(self)@.accounts[client].available - old(self)@.deposits[tx].amount
                    >= i64::MIN
                &&& old(self)@.accounts[client].held + old(self)@.deposits[tx].amount <= i64::MAX
            },
        ensures
            final(self).wf(),
            (final(self)@, r) == dispute_step(old(self)@, client, tx),
    {
        let ghost old0 = self@;
        let rec = match self.deposits.get(&tx) {
            Some(r) => *r,
            None => {
                return Err(DisputeError::TxNotFound(tx));
            },
        };
        if rec.client != client {
            return Err(DisputeError::ClientMismatch(tx, rec.client, client));
        }
        if rec.state == crate::model::DepositState::Disputed {
            return Err(DisputeError::InvalidState(tx));
        }
        let acct = match self.clients.get(&client) {
            Some(a) => *a,
            None => {
                proof {
                    // the invariant ties every deposit's owner to an account
                    assert(old0.accounts.contains_key(client));
                    assert(false);
                }
                return Err(DisputeError::ClientNotFound(client));
            },
        };
        let mut acct2 = acct;
        acct2.hold(rec.amount);
        self.clients.insert(client, acct2);
        let rec2 = DepositRecord { state: crate::model::DepositState::Disputed, ..rec };
        self.deposits.insert(tx, rec2);
        proof {
            let step = dispute_step(old0, client, tx);
            assert(self@.accounts =~= old0.accounts.insert(client, acct2@));
            assert(self@.deposits =~= old0.deposits.insert(tx, rec2@));
            assert(self@ =~= step.0);
            assert forall|c: ClientId| self@.accounts.contains_key(c) implies (
            #[trigger] self@.accounts[c]).held == held_sum(self@.deposits, c) by {
                lemma_map_sum_update(old0.deposits, held_contrib(c), tx, rec2@);
            }
            assert(self@.accounts.dom() =~= old0.accounts.dom());
            assert(self@.inv());
        }
        Ok(())
    }

    /// Apply a resolve: on a live, disputed deposit of this client, move its
    /// amount from held back to available and clear the mark. A resolved
    /// deposit may be disputed again.
    fn apply_resolve(&mut self, client: ClientId, tx: TxId) -> (r: Result<(), ResolveError>)
        requires
            old(self).wf(),
            resolve_applies(old(self)@, client, tx) ==> old(self)@.accounts[client].available + old(
                self,
            )@.deposits[tx].amount <= i64::MAX,
        ensures
            final(self).wf(),
            (final(self)@, r) == resolve_step(old(self)@, client, tx),
    {
        let ghost old0 = self@;
        let rec = match self.deposits.get(&tx) {
            Some(r) => *r,
            None => {
                return Err(ResolveError::TxNotFound(tx));
            },
        };
        if rec.client != client {
            return Err(ResolveError::ClientMismatch(tx, rec.client, client));
        }
        if rec.state == crate::model::DepositState::Valid {
            return Err(ResolveError::InvalidState(tx));
        }
        let acct = match self.clients.get(&client) {
            Some(a) => *a,
            None => {
                proof {
                    assert(old0.accounts.contains_key(client));
                    assert(false);
                }
                return Err(ResolveError::ClientNotFound(client));
            },
        };
        proof {
            // the held balance covers this disputed deposit's amount
            assert(forall|t: TxId|
                old0.deposits.contains_key(t) ==> #[trigger] held_contrib(client)(
                    t,
                    old0.deposits[t],
                ) >= 0);
            lemma_map_sum_ge_entry(old0.deposits, held_contrib(client), tx);
            assert(old0.accounts[client].held >= old0.deposits[tx].amount);
        }
        let mut acct2 = acct;
        acct2.release(rec.amount);
        self.clients.insert(client, acct2);
        let rec2 = DepositRecord { state: crate::model::DepositState::Valid, ..rec };
        self.deposits.insert(tx, rec2);
        proof {
            let step = resolve_step(old0, client, tx);
            assert(self@.accounts =~= old0.accounts.insert(client, acct2@));
            assert(self@.deposits =~= old0.deposits.insert(tx, rec2@));
            assert(self@ =~= step.0);
            assert forall|c: ClientId| self@.accounts.contains_key(c) implies (
            #[trigger] self@.accounts[c]).held == held_sum(self@.deposits, c) by {
                lemma_map_sum_update(old0.deposits, held_contrib(c), tx, rec2@);
            }
            assert(self@.accounts.dom() =~= old0.accounts.dom());
            assert(self@.inv());
        }
        Ok(())
    }

    /// Apply a chargeback: on a live, disputed deposit of this client, remove
    /// the held amount (the total decreases), freeze the account, and evict
    /// the record. Eviction is terminal: the id then reads as not found.
    fn apply_chargeback(&mut self, client: ClientId, tx: TxId) -> (r: Result<(), ChargebackError>)
        requires
            old(self).wf(),
        ensures
            final(self).wf(),
            (final(self)@, r) == chargeback_step(old(self)@, client, tx),
    {
        let ghost old0 = self@;
        let rec = match self.deposits.get(&tx) {
            Some(r) => *r,
            None => {
                return Err(ChargebackError::TxNotFound(tx));
            },
        };
        if rec.client != client {
            return Err(ChargebackError::ClientMismatch(tx, rec.client, client));
        }
        if rec.state == crate::model::DepositState::Valid {
            return Err(ChargebackError::InvalidState(tx));
        }
        let acct = match self.clients.get(&client) {
            Some(a) => *a,
            None => {
                proof {
                    assert(old0.accounts.contains_key(client));
                    assert(false);
                }
                return Err(ChargebackError::ClientNotFound(client));
            },
        };
        proof {
            assert(forall|t: TxId|
                old0.deposits.contains_key(t) ==> #[trigger] held_contrib(client)(
                    t,
                    old0.deposits[t],
                ) >= 0);
            lemma_map_sum_ge_entry(old0.deposits, held_contrib(client), tx);
            assert(old0.accounts[client].held >= old0.deposits[tx].amount);
        }
        let mut acct2 = acct;
        acct2.remove_held(rec.amount);
        acct2.freeze();
        self.clients.insert(client, acct2);
        self.deposits.remove(&tx);
        proof {
            let step = chargeback_step(old0, client, tx);
            assert(self@.accounts =~= old0.accounts.insert(client, acct2@));
            assert(self@.deposits =~= old0.deposits.remove(tx));
            assert(self@ =~= step.0);
            assert forall|c: ClientId| self@.accounts.contains_key(c) implies (
            #[trigger] self@.accounts[c]).held == held_sum(self@.deposits, c) by {
                lemma_map_sum_remove(old0.deposits, held_contrib(c), tx);
            }
            assert(self@.accounts.dom() =~= old0.accounts.dom());
            assert(self@.inv());
        }
        Ok(())
    }

    /// The state of one client account, when the client is known.
    pub fn get_client(&self, client: ClientId) -> (r: Option<&ClientAccount>)
        ensures
            match r {
                Some(a) => self@.accounts.contains_key(client) && a@ == self@.accounts[client],
                None => !self@.accounts.contains_key(client),
            },
    {
        self.clients.get(&client)
    }

    /// Apply a single transaction on top of the current engine state: either
    /// the whole transaction takes effect, or a structured error comes back
    /// and balances, dispute states and id sets stand as before (a rejected
    /// deposit or withdrawal may still have lazily created its zero account).
    /// Errors are never fatal to the engine.
    pub fn apply(&mut self, tx: Transaction) -> (result: Result<(), EngineError>)
        requires
            old(self).wf(),
            apply_req(old(self)@, tx),
        ensures
            final(self).wf(),
            (final(self)@, result) == apply_spec(old(self)@, tx),
    {
        match &tx {
            Transaction::Deposit { client, tx: t, amount } => {
                match self.apply_deposit(*client, *t, *amount) {
                    Ok(()) => Ok(()),
                    Err(e) => Err(EngineError::Deposit(e)),
                }
            },
            Transaction::Withdrawal { client, tx: t, amount } => {
                match self.apply_withdrawal(*client, *t, *amount) {
                    Ok(()) => Ok(()),
                    Err(e) => Err(EngineError::Withdrawal(e)),
                }
            },
            Transaction::Dispute { client, tx: t } => {
                match self.apply_dispute(*client, *t) {
                    Ok(()) => Ok(()),
                    Err(e) => Err(EngineError::Dispute(e)),
                }
            },
            Transaction::Resolve { client, tx: t } => {
                match self.apply_resolve(*client, *t) {
                    Ok(()) => Ok(()),
                    Err(e) => Err(EngineError::Resolve(e)),
                }
            },
            Transaction::Chargeback { client, tx: t } => {
                match self.apply_chargeback(*client, *t) {
                    Ok(()) => Ok(()),
                    Err(e) => Err(EngineError::Chargeback(e)),
                }
            },
        }
    }

    /// Whether `apply` accepts this transaction now: the amount is
    /// nonnegative and no touched balance would leave the scaled 64-bit
    /// domain. A driver checks this before each `apply`; a failure is a
    /// programmer error on the stream's side, not an engine state.
    pub fn can_apply(&self, tx: &Transaction) -> (r: bool)
        requires
            self.wf(),
        ensures
            r == apply_req(self@, *tx),
    {
        match tx {
            Transaction::Deposit { client, tx: t, amount } => {
                if amount.0 < 0 {
                    return false;
                }
                if !self.is_unique(t) {
                    return true;
                }
                let available: i64 = match self.clients.get(client) {
                    Some(a) => {
                        if a.is_frozen() {
                            return true;
                        }
                        a.available().0
                    },
                    None => 0,
                };
                available.checked_add(amount.0).is_some()
            },
            Transaction::Withdrawal { client: _, tx: _, amount } => amount.0 >= 0,
            Transaction::Dispute { client, tx: t } => {
                let rec = match self.deposits.get(t) {
                    Some(r) => *r,
                    None => {
                        return true;
                    },
                };
                if rec.client != *client {
                    return true;
                }
                if rec.state == crate::model::DepositState::Disputed {
                    return true;
                }
                match self.clients.get(client) {
                    Some(a) => {
                        proof {
                            assert(self@.deposits[*t].amount >= 0);
                        }
                        a.available().0.checked_sub(rec.amount.0).is_some()
                            && a.held().0.checked_add(rec.amount.0).is_some()
                    },
                    None => true,
                }
            },
            Transaction::Resolve { client, tx: t } => {
                let rec = match self.deposits.get(t) {
                    Some(r) => *r,
                    None => {
                        return true;
                    },
                };
                if rec.client != *client {
                    return true;
                }
                if rec.state == crate::model::DepositState::Valid {
                    return true;
                }
                match self.clients.get(client) {
                    Some(a) => {
                        proof {
                            assert(self@.deposits[*t].amount >= 0);
                        }
                        a.available().0.checked_add(rec.amount.0).is_some()
                    },
                    None => true,
                }
            },
            Transaction::Chargeback { client: _, tx: _ } => true,
        }
    }

    /// The state of all client accounts, in order of first appearance: each
    /// known client exactly once, under its own id.
    pub fn clients(&self) -> (r: Vec<ClientAccount>)
        requires
            self.wf(),
        ensures
            r@.len() == self@.accounts.dom().len(),
            forall|i: int|
                0 <= i < r@.len() ==> self@.accounts.contains_key((#[trigger] r@[i])@.id) && r@[i]@
                    == self@.accounts[r@[i]@.id],
            forall|c: ClientId|
                #[trigger] self@.accounts.contains_key(c) ==> exists|i: int|
                    0 <= i < r@.len() && r@[i]@.id == c,
    {
        let mut out: Vec<ClientAccount> = Vec::new();
        let n = self.client_order.len();
        let mut idx: usize = 0;
        while idx < n
            invariant
                self.wf(),
                n == self.client_order@.len(),
                0 <= idx <= n,
                out@.len() == idx,
                forall|i: int|
                    0 <= i < idx ==> (#[trigger] out@[i])@.id == self.client_order@[i]
                        && self@.accounts.contains_key(self.client_order@[i]) && out@[i]@
                        == self@.accounts[self.client_order@[i]],
            decreases n - idx,
        {
            let c = self.client_order[idx];
            proof {
                assert(self.client_order@.contains(c));
            }
            let a = match self.clients.get(&c) {
                Some(a) => *a,
                None => {
                    proof {
                        assert(false);
                    }
                    ClientAccount::new(c)
                },
            };
            proof {
                assert(self@.accounts.contains_key(c));
                assert(self@.accounts[c].id == c);
                assert(a@ == self@.accounts[c]);
            }
            out.push(a);
            proof {
                assert(out@[idx as int]@.id == c);
            }
            idx += 1;
        }
        proof {
            self.client_order@.unique_seq_to_set();
            assert(self.client_order@.to_set() =~= self@.accounts.dom());
            assert forall|c: ClientId| #[trigger] self@.accounts.contains_key(c) implies exists|
                i: int,
            | 0 <= i < out@.len() && out@[i]@.id == c by {
                assert(self.client_order@.contains(c));
                let i = choose|i: int|
                    0 <= i < self.client_order@.len() && self.client_order@[i] == c;
                assert(out@[i]@.id == c);
            }
        }
        out
    }

    /// Freeze one client's account directly, as an administrative action;
    /// reports whether the client was known. Dispute lifecycle operations
    /// stay permitted on a frozen account.
    pub fn freeze_client(&mut self, client: ClientId) -> (r: bool)
        requires
            old(self).wf(),
        ensures
            final(self).wf(),
            r == old(self)@.accounts.contains_key(client),
            r ==> final(self)@ == (EngineModel {
                accounts: old(self)@.accounts.insert(
                    client,
                    AccountModel { frozen: true, ..old(self)@.accounts[client] },
                ),
                ..old(self)@
            }),
            !r ==> final(self)@ == old(self)@,
    {
        let ghost old0 = self@;
        match self.clients.get(&client) {
            Some(a) => {
                let mut a2 = *a;
                a2.freeze();
                self.clients.insert(client, a2);
                proof {
                    assert(self@.accounts =~= old0.accounts.insert(client, a2@));
                    assert(self@ =~= (EngineModel {
                        accounts: old0.accounts.insert(client, a2@),
                        ..old0
                    }));
                    assert(self@.accounts.dom() =~= old0.accounts.dom());
                    assert(self@.inv());
                }
                true
            },
            None => false,
        }
    }
}

impl Default for Engine {
    /// The same as `Engine::new`: a fresh, empty engine.
    fn default() -> (r: Engine)
        ensures
            r.wf(),
            r@ == EngineModel::empty(),
    {
        Engine::new()
    }
}

} // verus!

