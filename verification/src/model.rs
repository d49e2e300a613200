//! Core domain types of the transaction engine.

use vstd::prelude::*;
use crate::amount::Amount;

verus! {

/// Client identifier.
pub type ClientId = u16;

/// Transaction identifier.
pub type TxId = u32;

/// A transaction: the possible inputs of the engine.
#[derive(Debug, Clone)]
pub enum Transaction {
    /// Credit funds to a client's available balance.
    Deposit { client: ClientId, tx: TxId, amount: Amount },
    /// Debit funds from a client's available balance.
    Withdrawal { client: ClientId, tx: TxId, amount: Amount },
    /// Claim a deposit was erroneous; moves its funds from available to held.
    Dispute { client: ClientId, tx: TxId },
    /// Release disputed funds back to available.
    Resolve { client: ClientId, tx: TxId },
    /// Reverse a disputed deposit; removes held funds and freezes the account.
    Chargeback { client: ClientId, tx: TxId },
}

/// State of a deposit for dispute tracking. A chargeback is terminal and is
/// encoded by eviction from the deposit store, not by a third state.
#[derive(Debug, Clone, Copy, PartialEq, Eq, Structural, Default)]
pub enum DepositState {
    /// Deposit is valid and can be disputed.
    #[default]
    Valid,
    /// Deposit is currently under dispute.
    Disputed,
}

/// Record of a deposit for dispute tracking.
#[derive(Debug, Clone, Copy)]
pub struct DepositRecord {
    /// The client who made the deposit.
    pub client: ClientId,
    /// The deposited amount.
    pub amount: Amount,
    /// Current dispute state.
    pub state: DepositState,
}

/// Mathematical model of a deposit record: the amount as an integer.
pub struct DepositModel {
    pub client: ClientId,
    pub amount: int,
    pub disputed: bool,
}

impl View for DepositRecord {
    type V = DepositModel;

    open spec fn view(&self) -> DepositModel {
        DepositModel {
            client: self.client,
            amount: self.amount@,
            disputed: self.state is Disputed,
        }
    }
}

impl DepositRecord {
    /// Create a new deposit record in the `Valid` state.
    pub fn new(client: ClientId, amount: Amount) -> (r: DepositRecord)
        ensures
            r@ == (DepositModel { client, amount: amount@, disputed: false }),
    {
        DepositRecord { client, amount, state: DepositState::Valid }
    }
}

} // verus!
