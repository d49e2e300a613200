//! Client account state: available and held balances and the freeze flag.

use vstd::prelude::*;
use crate::amount::Amount;
use crate::model::ClientId;

verus! {

/// A client's account with available and held balances.
///
/// Accounts are frozen after a chargeback, which blocks further deposits and
/// withdrawals.
#[derive(Debug, Clone, Copy)]
pub struct ClientAccount {
    id: ClientId,
    available: Amount,
    held: Amount,
    frozen: bool,
}

/// Mathematical model of an account: balances as integers.
pub struct AccountModel {
    pub id: ClientId,
    pub available: int,
    pub held: int,
    pub frozen: bool,
}

impl AccountModel {
    /// Total funds: available plus held, by definition and not stored.
    pub open spec fn total(self) -> int {
        self.available + self.held
    }
}

impl View for ClientAccount {
    type V = AccountModel;

    closed spec fn view(&self) -> AccountModel {
        AccountModel {
            id: self.id,
            available: self.available@,
            held: self.held@,
            frozen: self.frozen,
        }
    }
}

impl ClientAccount {
    /// Create a new account with zero balances for the given client.
    pub fn new(id: ClientId) -> (r: ClientAccount)
        ensures
            r@ == (AccountModel { id, available: 0, held: 0, frozen: false }),
    {
        ClientAccount { id, available: Amount(0), held: Amount(0), frozen: false }
    }

    /// The client identifier.
    pub fn id(&self) -> (r: ClientId)
        ensures
            r == self@.id,
    {
        self.id
    }

    /// The available balance.
    pub fn available(&self) -> (r: Amount)
        ensures
            r@ == self@.available,
    {
        self.available
    }

    /// The held balance.
    pub fn held(&self) -> (r: Amount)
        ensures
            r@ == self@.held,
    {
        self.held
    }

    /// Whether the account is frozen.
    pub fn is_frozen(&self) -> (r: bool)
        ensures
            r == self@.frozen,
    {
        self.frozen
    }

    /// Total funds: available plus held, always.
    pub fn total(&self) -> (r: Amount)
        requires
            i64::MIN <= self@.total() <= i64::MAX,
        ensures
            r@ == self@.total(),
    {
        self.available.add(self.held)
    }

    /// Credit funds to the available balance. Used for deposits.
    pub fn credit(&mut self, amount: Amount)
        requires
            i64::MIN <= old(self)@.available + amount@ <= i64::MAX,
        ensures
            final(self)@ == (AccountModel {
                available: old(self)@.available + amount@,
                ..old(self)@
            }),
    {
        self.available.add_assign(amount);
    }

    /// Debit funds from the available balance. Used for withdrawals.
    pub fn debit(&mut self, amount: Amount)
        requires
            i64::MIN <= old(self)@.available - amount@ <= i64::MAX,
        ensures
            final(self)@ == (AccountModel {
                available: old(self)@.available - amount@,
                ..old(self)@
            }),
    {
        self.available.sub_assign(amount);
    }

    /// Hold funds: move them from available to held. Used for disputes. The
    /// available balance may go negative when the funds were already
    /// withdrawn.
    pub fn hold(&mut self, amount: Amount)
        requires
            i64::MIN <= old(self)@.available - amount@ <= i64::MAX,
            i64::MIN <= old(self)@.held + amount@ <= i64::MAX,
        ensures
            final(self)@ == (AccountModel {
                available: old(self)@.available - amount@,
                held: old(self)@.held + amount@,
                ..old(self)@
            }),
    {
        self.available.sub_assign(amount);
        self.held.add_assign(amount);
    }

    /// Release funds: move them from held back to available. Used for
    /// resolves.
    pub fn release(&mut self, amount: Amount)
        requires
            i64::MIN <= old(self)@.held - amount@ <= i64::MAX,
            i64::MIN <= old(self)@.available + amount@ <= i64::MAX,
        ensures
            final(self)@ == (AccountModel {
                available: old(self)@.available + amount@,
                held: old(self)@.held - amount@,
                ..old(self)@
            }),
    {
        self.held.sub_assign(amount);
        self.available.add_assign(amount);
    }

    /// Remove held funds; the only primitive that decreases the total. Used
    /// for chargebacks.
    pub fn remove_held(&mut self, amount: Amount)
        requires
            i64::MIN <= old(self)@.held - amount@ <= i64::MAX,
        ensures
            final(self)@ == (AccountModel { held: old(self)@.held - amount@, ..old(self)@ }),
    {
        self.held.sub_assign(amount);
    }

    /// Freeze the account: no further deposits or withdrawals.
    pub fn freeze(&mut self)
        ensures
            final(self)@ == (AccountModel { frozen: true, ..old(self)@ }),
    {
        self.frozen = true;
    }

    /// Unfreeze the account.
    pub fn unfreeze(&mut self)
        ensures
            final(self)@ == (AccountModel { frozen: false, ..old(self)@ }),
    {
        self.frozen = false;
    }
}

} // verus!
