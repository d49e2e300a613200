//! Laws of the engine transition: the quantified invariants that hold after
//! every apply, monetary conservation over whole transaction sequences, and
//! the round-trip, idempotence and boundary laws of the dispute lifecycle.

use vstd::prelude::*;
use crate::amount::Amount;
use crate::engine::{
    EngineModel, apply_spec, apply_req, dispute_applies, resolve_applies, held_contrib, held_sum,
    total_sum,
};
use crate::error::{
    ChargebackError, DepositError, DisputeError, EngineError, ResolveError, WithdrawalError,
};
use crate::model::{ClientId, DepositModel, Transaction, TxId};
use crate::state::AccountModel;
use crate::sums::{
    lemma_map_sum_insert, lemma_map_sum_update, lemma_map_sum_remove, lemma_map_sum_nonneg,
    lemma_map_sum_ge_entry, lemma_map_sum_zero,
};

verus! {

/// Every client's held balance is nonnegative: it is a sum of disputed
/// deposit amounts, each nonnegative.
pub proof fn lemma_held_nonneg(s: EngineModel, c: ClientId)
    requires
        s.inv(),
        s.accounts.contains_key(c),
    ensures
        s.accounts[c].held >= 0,
{
    assert(forall|t: TxId|
        s.deposits.contains_key(t) ==> #[trigger] held_contrib(c)(t, s.deposits[t]) >= 0);
    lemma_map_sum_nonneg(s.deposits, held_contrib(c));
}

/// No transaction id is both a deposit and a withdrawal.
pub proof fn lemma_tx_ids_disjoint(s: EngineModel, t: TxId)
    requires
        s.inv(),
    ensures
        !(s.deposits.contains_key(t) && s.withdrawal_ids.contains(t)),
{
}

/// A client's held balance equals the sum of that client's disputed deposit
/// amounts; in particular it covers each single disputed deposit.
pub proof fn lemma_held_is_disputed_sum(s: EngineModel, t: TxId)
    requires
        s.inv(),
        s.deposits.contains_key(t),
        s.deposits[t].disputed,
    ensures
        s.accounts[s.deposits[t].client].held == held_sum(s.deposits, s.deposits[t].client),
        s.accounts[s.deposits[t].client].held >= s.deposits[t].amount,
{
    let c = s.deposits[t].client;
    assert(forall|t2: TxId|
        s.deposits.contains_key(t2) ==> #[trigger] held_contrib(c)(t2, s.deposits[t2]) >= 0);
    lemma_map_sum_ge_entry(s.deposits, held_contrib(c), t);
}

/// The engine invariant holds after every apply, accepted or rejected, for
/// every transaction within the input domain.
pub proof fn lemma_apply_preserves_inv(s: EngineModel, tx: Transaction)
    requires
        s.inv(),
        apply_req(s, tx),
    ensures
        apply_spec(s, tx).0.inv(),
{
    let s2 = apply_spec(s, tx).0;
    match tx {
        Transaction::Deposit { client, tx: t, amount } => {
            if s.tx_unique(t) && !s.account_or_new(client).frozen {
                let rec = DepositModel { client, amount: amount@, disputed: false };
                assert forall|c: ClientId| s2.accounts.contains_key(c) implies (
                #[trigger] s2.accounts[c]).held == held_sum(s2.deposits, c) by {
                    lemma_map_sum_insert(s.deposits, held_contrib(c), t, rec);
                    if c == client && !s.accounts.contains_key(client) {
                        assert(forall|t2: TxId|
                            s.deposits.contains_key(t2) ==> #[trigger] held_contrib(client)(
                                t2,
                                s.deposits[t2],
                            ) == 0);
                        lemma_map_sum_zero(s.deposits, held_contrib(client));
                    }
                }
            }
        },
        Transaction::Withdrawal { client, tx: t, amount } => {
            let acct = s.account_or_new(client);
            if s.tx_unique(t) && !acct.frozen {
                assert forall|c: ClientId| s2.accounts.contains_key(c) implies (
                #[trigger] s2.accounts[c]).held == held_sum(s2.deposits, c) by {
                    if c == client && !s.accounts.contains_key(client) {
                        assert(forall|t2: TxId|
                            s.deposits.contains_key(t2) ==> #[trigger] held_contrib(client)(
                                t2,
                                s.deposits[t2],
                            ) == 0);
                        lemma_map_sum_zero(s.deposits, held_contrib(client));
                    }
                }
            }
        },
        Transaction::Dispute { client, tx: t } => {
            if dispute_applies(s, client, t) {
                let rec2 = DepositModel { disputed: true, ..s.deposits[t] };
                assert forall|c: ClientId| s2.accounts.contains_key(c) implies (
                #[trigger] s2.accounts[c]).held == held_sum(s2.deposits, c) by {
                    lemma_map_sum_update(s.deposits, held_contrib(c), t, rec2);
                }
                assert(s2.accounts.dom() =~= s.accounts.dom());
            }
        },
        Transaction::Resolve { client, tx: t } => {
            if resolve_applies(s, client, t) {
                lemma_held_is_disputed_sum(s, t);
                let rec2 = DepositModel { disputed: false, ..s.deposits[t] };
                assert forall|c: ClientId| s2.accounts.contains_key(c) implies (
                #[trigger] s2.accounts[c]).held == held_sum(s2.deposits, c) by {
                    lemma_map_sum_update(s.deposits, held_contrib(c), t, rec2);
                }
                assert(s2.accounts.dom() =~= s.accounts.dom());
            }
        },
        Transaction::Chargeback { client, tx: t } => {
            if resolve_applies(s, client, t) {
                lemma_held_is_disputed_sum(s, t);
                assert forall|c: ClientId| s2.accounts.contains_key(c) implies (
                #[trigger] s2.accounts[c]).held == held_sum(s2.deposits, c) by {
                    lemma_map_sum_remove(s.deposits, held_contrib(c), t);
                }
                assert(s2.accounts.dom() =~= s.accounts.dom());
            }
        },
    }
}

/// The amount an accepted transaction settles: positive for a deposit,
/// negative for a withdrawal or chargeback, zero for the rest and for every
/// rejection.
pub open spec fn settled_delta(s: EngineModel, tx: Transaction) -> int {
    if apply_spec(s, tx).1 is Ok {
        match tx {
            Transaction::Deposit { amount, .. } => amount@,
            Transaction::Withdrawal { amount, .. } => -amount@,
            Transaction::Dispute { .. } => 0,
            Transaction::Resolve { .. } => 0,
            Transaction::Chargeback { tx: t, .. } => -s.deposits[t].amount,
        }
    } else {
        0
    }
}

/// One step of monetary conservation: each apply moves the sum of all totals
/// by exactly what it settles. Deposits add their amount; withdrawals and
/// chargebacks remove theirs; disputes, resolves and rejections move nothing.
pub proof fn lemma_total_sum_step(s: EngineModel, tx: Transaction)
    requires
        s.accounts.dom().finite(),
    ensures
        total_sum(apply_spec(s, tx).0.accounts) == total_sum(s.accounts) + settled_delta(s, tx),
{
    let s2 = apply_spec(s, tx).0;
    let f = |c: ClientId, a: AccountModel| a.total();
    match tx {
        Transaction::Deposit { client, tx: t, amount } => {
            if s.tx_unique(t) && !s.account_or_new(client).frozen {
                let acct = s.account_or_new(client);
                let acct2 = AccountModel { available: acct.available + amount@, ..acct };
                if s.accounts.contains_key(client) {
                    lemma_map_sum_update(s.accounts, f, client, acct2);
                } else {
                    lemma_map_sum_insert(s.accounts, f, client, acct2);
                }
            }
        },
        Transaction::Withdrawal { client, tx: t, amount } => {
            let acct = s.account_or_new(client);
            if s.tx_unique(t) && !acct.frozen {
                if acct.available < amount@ {
                    if s.accounts.contains_key(client) {
                        lemma_map_sum_update(s.accounts, f, client, acct);
                    } else {
                        lemma_map_sum_insert(s.accounts, f, client, acct);
                    }
                } else {
                    let acct2 = AccountModel { available: acct.available - amount@, ..acct };
                    if s.accounts.contains_key(client) {
                        lemma_map_sum_update(s.accounts, f, client, acct2);
                    } else {
                        lemma_map_sum_insert(s.accounts, f, client, acct2);
                    }
                }
            }
        },
        Transaction::Dispute { client, tx: t } => {
            if dispute_applies(s, client, t) {
                let acct = s.accounts[client];
                let a = s.deposits[t].amount;
                let acct2 = AccountModel {
                    available: acct.available - a,
                    held: acct.held + a,
                    ..acct
                };
                lemma_map_sum_update(s.accounts, f, client, acct2);
            }
        },
        Transaction::Resolve { client, tx: t } => {
            if resolve_applies(s, client, t) {
                let acct = s.accounts[client];
                let a = s.deposits[t].amount;
                let acct2 = AccountModel {
                    available: acct.available + a,
                    held: acct.held - a,
                    ..acct
                };
                lemma_map_sum_update(s.accounts, f, client, acct2);
            }
        },
        Transaction::Chargeback { client, tx: t } => {
            if resolve_applies(s, client, t) {
                let acct = s.accounts[client];
                let a = s.deposits[t].amount;
                let acct2 = AccountModel { held: acct.held - a, frozen: true, ..acct };
                lemma_map_sum_update(s.accounts, f, client, acct2);
            }
        },
    }
}

/// The engine state after a whole sequence of transactions, rejections
/// swallowed, as the driver loop applies them.
pub open spec fn run_spec(s: EngineModel, txs: Seq<Transaction>) -> EngineModel
    decreases txs.len(),
{
    if txs.len() == 0 {
        s
    } else {
        run_spec(apply_spec(s, txs[0]).0, txs.drop_first())
    }
}

/// The net amount a whole sequence settles: deposit amounts applied, minus
/// withdrawal amounts applied, minus chargeback amounts applied.
pub open spec fn settled_total(s: EngineModel, txs: Seq<Transaction>) -> int
    decreases txs.len(),
{
    if txs.len() == 0 {
        0
    } else {
        settled_delta(s, txs[0]) + settled_total(apply_spec(s, txs[0]).0, txs.drop_first())
    }
}

/// Every apply keeps the account and deposit tables finite.
pub proof fn lemma_apply_preserves_finite(s: EngineModel, tx: Transaction)
    requires
        s.accounts.dom().finite(),
        s.deposits.dom().finite(),
    ensures
        apply_spec(s, tx).0.accounts.dom().finite(),
        apply_spec(s, tx).0.deposits.dom().finite(),
{
}

/// Monetary conservation: over any sequence of transactions, the sum of all
/// clients' totals moves by exactly the deposit amounts applied, minus the
/// withdrawal amounts applied, minus the chargeback amounts applied.
pub proof fn lemma_conservation(s: EngineModel, txs: Seq<Transaction>)
    requires
        s.accounts.dom().finite(),
        s.deposits.dom().finite(),
    ensures
        total_sum(run_spec(s, txs).accounts) == total_sum(s.accounts) + settled_total(s, txs),
    decreases txs.len(),
{
    if txs.len() > 0 {
        lemma_total_sum_step(s, txs[0]);
        lemma_apply_preserves_finite(s, txs[0]);
        lemma_conservation(apply_spec(s, txs[0]).0, txs.drop_first());
    }
}

/// Monetary conservation from an empty engine: the sum of all totals equals
/// the net settled amount of the whole input.
pub proof fn lemma_conservation_from_empty(txs: Seq<Transaction>)
    ensures
        total_sum(run_spec(EngineModel::empty(), txs).accounts) == settled_total(
            EngineModel::empty(),
            txs,
        ),
{
    lemma_conservation(EngineModel::empty(), txs);
}

/// Once an account is frozen, deposits and withdrawals that target it are
/// rejected and change neither its available nor its held balance.
pub proof fn lemma_frozen_preserves_balances(s: EngineModel, tx: Transaction, c: ClientId)
    requires
        s.accounts.contains_key(c),
        s.accounts[c].frozen,
        match tx {
            Transaction::Deposit { client, .. } => client == c,
            Transaction::Withdrawal { client, .. } => client == c,
            _ => false,
        },
    ensures
        apply_spec(s, tx).1 is Err,
        apply_spec(s, tx).0.accounts[c] == s.accounts[c],
{
    let s2 = apply_spec(s, tx).0;
    match tx {
        Transaction::Withdrawal { client, tx: t, amount } => {
            if s.tx_unique(t) {
                assert(s.account_or_new(c).frozen);
            }
        },
        _ => {},
    }
}

/// Dispute then resolve on an undisputed deposit restores the engine state
/// exactly: the account, the record, and everything else.
pub proof fn lemma_dispute_resolve_round_trip(s: EngineModel, c: ClientId, t: TxId)
    requires
        dispute_applies(s, c, t),
    ensures
        ({
            let s1 = apply_spec(s, Transaction::Dispute { client: c, tx: t }).0;
            &&& apply_spec(s, Transaction::Dispute { client: c, tx: t }).1 is Ok
            &&& apply_spec(s1, Transaction::Resolve { client: c, tx: t }).1 is Ok
            &&& apply_spec(s1, Transaction::Resolve { client: c, tx: t }).0 == s
        }),
{
    let s1 = apply_spec(s, Transaction::Dispute { client: c, tx: t }).0;
    let s2 = apply_spec(s1, Transaction::Resolve { client: c, tx: t }).0;
    assert(s2.accounts =~= s.accounts);
    assert(s2.deposits =~= s.deposits);
    assert(s2 =~= s);
}

/// A repeated dispute on an already-disputed deposit is a rejected no-op.
pub proof fn lemma_repeat_dispute_invalid(s: EngineModel, c: ClientId, t: TxId)
    requires
        s.deposits.contains_key(t),
        s.deposits[t].client == c,
        s.deposits[t].disputed,
    ensures
        apply_spec(s, Transaction::Dispute { client: c, tx: t }).0 == s,
        apply_spec(s, Transaction::Dispute { client: c, tx: t }).1 == Result::<
            (),
            EngineError,
        >::Err(EngineError::Dispute(DisputeError::InvalidState(t))),
{
}

/// A resolve on an undisputed deposit is a rejected no-op.
pub proof fn lemma_resolve_undisputed_invalid(s: EngineModel, c: ClientId, t: TxId)
    requires
        s.deposits.contains_key(t),
        s.deposits[t].client == c,
        !s.deposits[t].disputed,
    ensures
        apply_spec(s, Transaction::Resolve { client: c, tx: t }).0 == s,
        apply_spec(s, Transaction::Resolve { client: c, tx: t }).1 == Result::<
            (),
            EngineError,
        >::Err(EngineError::Resolve(ResolveError::InvalidState(t))),
{
}

/// Withdrawing exactly the available balance succeeds and leaves zero
/// available.
pub proof fn lemma_withdraw_exact_available(s: EngineModel, c: ClientId, t: TxId, a: Amount)
    requires
        s.tx_unique(t),
        !s.account_or_new(c).frozen,
        a@ == s.account_or_new(c).available,
        a@ >= 0,
    ensures
        apply_spec(s, Transaction::Withdrawal { client: c, tx: t, amount: a }).1 is Ok,
        apply_spec(s, Transaction::Withdrawal { client: c, tx: t, amount: a }).0.accounts[c].available
            == 0,
{
}

/// Withdrawing more than the available balance fails with
/// `InsufficientFunds` and moves no balance; one smallest unit over is
/// already too much.
pub proof fn lemma_withdraw_insufficient(s: EngineModel, c: ClientId, t: TxId, a: Amount)
    requires
        s.inv(),
        s.tx_unique(t),
        !s.account_or_new(c).frozen,
        a@ > s.account_or_new(c).available,
    ensures
        ({
            let r = apply_spec(s, Transaction::Withdrawal { client: c, tx: t, amount: a });
            &&& r.1 == Result::<(), EngineError>::Err(
                EngineError::Withdrawal(
                    WithdrawalError::InsufficientFunds(
                        c,
                        Amount(s.account_or_new(c).available as i64),
                        a,
                    ),
                ),
            )
            &&& r.0.accounts[c].available == s.account_or_new(c).available
            &&& r.0.accounts[c].held == s.account_or_new(c).held
        }),
{
    assert(Amount(a@ as i64) == a);
}

/// A dispute on funds already withdrawn still succeeds: the available
/// balance goes negative, the held balance grows by the deposit, and the
/// total stands.
pub proof fn lemma_dispute_negative_available(s: EngineModel, c: ClientId, t: TxId)
    requires
        dispute_applies(s, c, t),
        s.accounts[c].available < s.deposits[t].amount,
    ensures
        ({
            let r = apply_spec(s, Transaction::Dispute { client: c, tx: t });
            &&& r.1 is Ok
            &&& r.0.accounts[c].available < 0
            &&& r.0.accounts[c].held == s.accounts[c].held + s.deposits[t].amount
            &&& r.0.accounts[c].total() == s.accounts[c].total()
        }),
{
}

/// A chargeback on a disputed deposit removes the held amount, freezes the
/// account and evicts the record; the id thereafter reads as not found for
/// dispute, resolve and chargeback alike, with no further state change.
pub proof fn lemma_chargeback_terminal(s: EngineModel, c: ClientId, t: TxId)
    requires
        resolve_applies(s, c, t),
    ensures
        ({
            let r = apply_spec(s, Transaction::Chargeback { client: c, tx: t });
            &&& r.1 is Ok
            &&& r.0.accounts[c].held == s.accounts[c].held - s.deposits[t].amount
            &&& r.0.accounts[c].frozen
            &&& !r.0.deposits.contains_key(t)
            &&& apply_spec(r.0, Transaction::Dispute { client: c, tx: t }) == (
            r.0,
            Result::<(), EngineError>::Err(EngineError::Dispute(DisputeError::TxNotFound(t))),
            )
            &&& apply_spec(r.0, Transaction::Resolve { client: c, tx: t }) == (
            r.0,
            Result::<(), EngineError>::Err(EngineError::Resolve(ResolveError::TxNotFound(t))),
            )
            &&& apply_spec(r.0, Transaction::Chargeback { client: c, tx: t }) == (
            r.0,
            Result::<(), EngineError>::Err(
                EngineError::Chargeback(ChargebackError::TxNotFound(t)),
            ),
            )
        }),
{
}

/// A transaction id once used by a withdrawal rejects every later deposit or
/// withdrawal with `DuplicateTxId`, leaving the state unchanged.
pub proof fn lemma_withdrawal_id_blocks_reuse(s: EngineModel, t: TxId, tx: Transaction)
    requires
        s.withdrawal_ids.contains(t),
        match tx {
            Transaction::Deposit { tx: t2, .. } => t2 == t,
            Transaction::Withdrawal { tx: t2, .. } => t2 == t,
            _ => false,
        },
    ensures
        apply_spec(s, tx).0 == s,
        match tx {
            Transaction::Deposit { .. } => apply_spec(s, tx).1 == Result::<
                (),
                EngineError,
            >::Err(EngineError::Deposit(DepositError::DuplicateTxId(t))),
            _ => apply_spec(s, tx).1 == Result::<(), EngineError>::Err(
                EngineError::Withdrawal(WithdrawalError::DuplicateTxId(t)),
            ),
        },
{
}

} // verus!
