//! Error values of transaction processing. Per-transaction errors are data:
//! they are returned from `apply` and never abort the stream.

use vstd::prelude::*;
use crate::amount::Amount;
use crate::model::{ClientId, TxId};

verus! {

/// Error during deposit processing.
#[derive(Debug, Clone, Copy, PartialEq, Eq, Structural)]
pub enum DepositError {
    /// The target account is frozen.
    AccountFrozen(ClientId),
    /// The transaction id was already used by a deposit or a withdrawal.
    DuplicateTxId(TxId),
}

/// Error during withdrawal processing.
#[derive(Debug, Clone, Copy, PartialEq, Eq, Structural)]
pub enum WithdrawalError {
    /// The target account is frozen.
    AccountFrozen(ClientId),
    /// Not enough available funds: the client, the available balance, and the
    /// requested amount. No partial withdrawal happens.
    InsufficientFunds(ClientId, Amount, Amount),
    /// The transaction id was already used by a deposit or a withdrawal.
    DuplicateTxId(TxId),
}

/// Error during dispute processing.
#[derive(Debug, Clone, Copy, PartialEq, Eq, Structural)]
pub enum DisputeError {
    /// No live deposit carries this id: never deposited, a withdrawal id, or
    /// charged back.
    TxNotFound(TxId),
    /// The deposit belongs to another client: the id, the owner, and the
    /// claimant.
    ClientMismatch(TxId, ClientId, ClientId),
    /// The deposit is already disputed.
    InvalidState(TxId),
    /// The owning account is missing: an internal inconsistency that a
    /// well-formed engine never reports.
    ClientNotFound(ClientId),
}

/// Error during resolve processing.
#[derive(Debug, Clone, Copy, PartialEq, Eq, Structural)]
pub enum ResolveError {
    /// No live deposit carries this id.
    TxNotFound(TxId),
    /// The deposit belongs to another client: the id, the owner, and the
    /// claimant.
    ClientMismatch(TxId, ClientId, ClientId),
    /// The deposit is not disputed.
    InvalidState(TxId),
    /// The owning account is missing: an internal inconsistency that a
    /// well-formed engine never reports.
    ClientNotFound(ClientId),
}

/// Error during chargeback processing.
#[derive(Debug, Clone, Copy, PartialEq, Eq, Structural)]
pub enum ChargebackError {
    /// No live deposit carries this id.
    TxNotFound(TxId),
    /// The deposit belongs to another client: the id, the owner, and the
    /// claimant.
    ClientMismatch(TxId, ClientId, ClientId),
    /// The deposit is not disputed.
    InvalidState(TxId),
    /// The owning account is missing: an internal inconsistency that a
    /// well-formed engine never reports.
    ClientNotFound(ClientId),
}

/// Top-level error returned by `Engine::apply`, tagged with the operation.
#[derive(Debug, Clone, Copy, PartialEq, Eq, Structural)]
pub enum EngineError {
    Deposit(DepositError),
    Withdrawal(WithdrawalError),
    Dispute(DisputeError),
    Resolve(ResolveError),
    Chargeback(ChargebackError),
}

} // verus!
