use txs_eng::{Amount, Engine, Transaction};
use txs_eng::error::{
    ChargebackError, DepositError, DisputeError, EngineError, ResolveError, WithdrawalError,
};
use txs_eng::model::{ClientId, TxId};

// test utils

fn deposit(client: ClientId, tx: TxId, amount: i64) -> Transaction {
    Transaction::Deposit { client, tx, amount: Amount::from_scaled(amount) }
}

fn withdrawal(client: ClientId, tx: TxId, amount: i64) -> Transaction {
    Transaction::Withdrawal { client, tx, amount: Amount::from_scaled(amount) }
}

fn dispute(client: ClientId, tx: TxId) -> Transaction {
    Transaction::Dispute { client, tx }
}

fn resolve(client: ClientId, tx: TxId) -> Transaction {
    Transaction::Resolve { client, tx }
}

fn chargeback(client: ClientId, tx: TxId) -> Transaction {
    Transaction::Chargeback { client, tx }
}

#[test]
fn new_engine() {
    let engine = Engine::new();
    assert_eq!(engine.clients().len(), 0);
}

// Deposit

#[test]
fn deposit_creates_account_and_increases_balance() {
    let mut engine = Engine::new();
    engine.apply(deposit(1, 1, 100)).unwrap();

    let client = engine.get_client(1).unwrap();
    assert_eq!(client.available(), Amount::from_scaled(100));
    assert_eq!(client.held(), Amount::from_scaled(0));
    assert!(!client.is_frozen());
}

#[test]
fn deposit_accumulates_balance() {
    let mut engine = Engine::new();
    engine.apply(deposit(1, 1, 100)).unwrap();
    engine.apply(deposit(1, 2, 50)).unwrap();

    let client = engine.get_client(1).unwrap();
    assert_eq!(client.available(), Amount::from_scaled(150));
}

#[test]
fn deposit_to_frozen_account_fails() {
    let mut engine = Engine::new();
    engine.apply(deposit(1, 1, 100)).unwrap();
    assert!(engine.freeze_client(1));

    let result = engine.apply(deposit(1, 2, 50));
    assert!(matches!(
        result,
        Err(EngineError::Deposit(DepositError::AccountFrozen(1)))
    ));

    // Balance unchanged
    let client = engine.get_client(1).unwrap();
    assert_eq!(client.available(), Amount::from_scaled(100));
}

// Withdrawal

#[test]
fn withdrawal_decreases_balance() {
    let mut engine = Engine::new();
    engine.apply(deposit(1, 1, 100)).unwrap();
    engine.apply(withdrawal(1, 2, 30)).unwrap();

    let client = engine.get_client(1).unwrap();
    assert_eq!(client.available(), Amount::from_scaled(70));
}

#[test]
fn withdrawal_exact_amount_succeeds() {
    let mut engine = Engine::new();
    engine.apply(deposit(1, 1, 100)).unwrap();
    engine.apply(withdrawal(1, 2, 100)).unwrap();

    let client = engine.get_client(1).unwrap();
    assert_eq!(client.available(), Amount::from_scaled(0));
}

#[test]
fn withdrawal_insufficient_funds_fails() {
    let mut engine = Engine::new();
    engine.apply(deposit(1, 1, 100)).unwrap();

    let result = engine.apply(withdrawal(1, 2, 101));
    assert!(matches!(
        result,
        Err(EngineError::Withdrawal(WithdrawalError::InsufficientFunds(1, _, _)))
    ));

    // Balance unchanged
    let client = engine.get_client(1).unwrap();
    assert_eq!(client.available(), Amount::from_scaled(100));
}

#[test]
fn withdrawal_from_frozen_account_fails() {
    let mut engine = Engine::new();
    engine.apply(deposit(1, 1, 100)).unwrap();
    assert!(engine.freeze_client(1));

    let result = engine.apply(withdrawal(1, 2, 50));
    assert!(matches!(
        result,
        Err(EngineError::Withdrawal(WithdrawalError::AccountFrozen(1)))
    ));

    // Balance unchanged
    let client = engine.get_client(1).unwrap();
    assert_eq!(client.available(), Amount::from_scaled(100));
}

#[test]
fn withdrawal_from_nonexistent_account_fails() {
    let mut engine = Engine::new();

    // equivalent to zero account
    let result = engine.apply(withdrawal(1, 1, 50));
    assert!(matches!(
        result,
        Err(EngineError::Withdrawal(WithdrawalError::InsufficientFunds(1, _, _)))
    ));
}

// Multiple Clients

#[test]
fn multiple_clients_are_independent() {
    let mut engine = Engine::new();
    engine.apply(deposit(1, 1, 100)).unwrap();
    engine.apply(deposit(2, 2, 200)).unwrap();
    engine.apply(withdrawal(1, 3, 30)).unwrap();

    let client1 = engine.get_client(1).unwrap();
    let client2 = engine.get_client(2).unwrap();

    assert_eq!(client1.available(), Amount::from_scaled(70));
    assert_eq!(client2.available(), Amount::from_scaled(200));
}

// clients() listing

#[test]
fn clients_iterator_returns_all_clients() {
    let mut engine = Engine::new();
    engine.apply(deposit(1, 1, 100)).unwrap();
    engine.apply(deposit(2, 2, 200)).unwrap();

    let clients = engine.clients();
    assert_eq!(clients.len(), 2);

    // Find each client (without any ordering guarantees)
    let c1 = clients.iter().find(|c| c.id() == 1).unwrap();
    let c2 = clients.iter().find(|c| c.id() == 2).unwrap();

    assert_eq!(c1.available(), Amount::from_scaled(100));
    assert_eq!(c2.available(), Amount::from_scaled(200));
}

// Driving a whole sequence through apply, as the stream loop does

#[test]
fn sequential_apply_processes_all_transactions() {
    let mut engine = Engine::new();
    let transactions = vec![deposit(1, 1, 100), deposit(2, 2, 200), withdrawal(1, 3, 25)];

    for tx in transactions {
        assert!(engine.can_apply(&tx));
        let _ = engine.apply(tx);
    }

    let client1 = engine.get_client(1).unwrap();
    let client2 = engine.get_client(2).unwrap();

    assert_eq!(client1.available(), Amount::from_scaled(75));
    assert_eq!(client2.available(), Amount::from_scaled(200));
}

#[test]
fn sequential_apply_skips_failed_transactions_and_continues() {
    let mut engine = Engine::new();
    let transactions = vec![
        deposit(1, 1, 100),
        withdrawal(1, 2, 200), // Should fail with insufficient funds
        deposit(1, 3, 50),     // Should still process
    ];

    for tx in transactions {
        assert!(engine.can_apply(&tx));
        let _ = engine.apply(tx);
    }

    let client = engine.get_client(1).unwrap();

    assert_eq!(client.available(), Amount::from_scaled(150)); // 100 + 50 with withdrawal skipped
}

// Dispute tests

#[test]
fn dispute_deposit_moves_funds_to_held() {
    let mut engine = Engine::new();
    engine.apply(deposit(1, 1, 100)).unwrap();
    engine.apply(dispute(1, 1)).unwrap();

    let client = engine.get_client(1).unwrap();
    assert_eq!(client.available(), Amount::from_scaled(0));
    assert_eq!(client.held(), Amount::from_scaled(100));
    assert_eq!(client.total(), Amount::from_scaled(100));
    assert!(!client.is_frozen());
}

#[test]
fn dispute_withdrawal_fails() {
    let mut engine = Engine::new();
    engine.apply(deposit(1, 1, 100)).unwrap();
    engine.apply(withdrawal(1, 2, 40)).unwrap();

    // Withdrawals can't be disputed - they're not in the deposits map
    let result = engine.apply(dispute(1, 2));
    assert!(matches!(
        result,
        Err(EngineError::Dispute(DisputeError::TxNotFound(2)))
    ));

    // Balance unchanged
    let client = engine.get_client(1).unwrap();
    assert_eq!(client.available(), Amount::from_scaled(60));
    assert_eq!(client.held(), Amount::from_scaled(0));
}

#[test]
fn dispute_nonexistent_tx_fails() {
    let mut engine = Engine::new();
    engine.apply(deposit(1, 1, 100)).unwrap();

    let result = engine.apply(dispute(1, 999));
    assert!(matches!(
        result,
        Err(EngineError::Dispute(DisputeError::TxNotFound(999)))
    ));
}

#[test]
fn dispute_wrong_client_fails() {
    let mut engine = Engine::new();
    engine.apply(deposit(1, 1, 100)).unwrap();
    engine.apply(deposit(2, 2, 50)).unwrap();

    let result = engine.apply(dispute(2, 1)); // tx 1 belongs to client 1
    assert!(matches!(
        result,
        Err(EngineError::Dispute(DisputeError::ClientMismatch(1, 1, 2)))
    ));
}

#[test]
fn dispute_already_disputed_fails() {
    let mut engine = Engine::new();
    engine.apply(deposit(1, 1, 100)).unwrap();
    engine.apply(dispute(1, 1)).unwrap();

    let result = engine.apply(dispute(1, 1));
    assert!(matches!(
        result,
        Err(EngineError::Dispute(DisputeError::InvalidState(1)))
    ));
}

#[test]
fn dispute_deposit_insufficient_funds_causes_negative_balance() {
    let mut engine = Engine::new();
    engine.apply(deposit(1, 1, 100)).unwrap();
    engine.apply(withdrawal(1, 2, 60)).unwrap(); // leaves 40 available

    // Dispute succeeds even with insufficient funds
    engine.apply(dispute(1, 1)).unwrap(); // needs 100, has 40

    // Available is now negative (-60), held is 100
    let client = engine.get_client(1).unwrap();
    assert_eq!(client.available(), Amount::from_scaled(-60));
    assert_eq!(client.held(), Amount::from_scaled(100));
    assert_eq!(client.total(), Amount::from_scaled(40)); // total unchanged
}

// Resolve tests

#[test]
fn resolve_deposit_returns_funds_to_available() {
    let mut engine = Engine::new();
    engine.apply(deposit(1, 1, 100)).unwrap();
    engine.apply(dispute(1, 1)).unwrap();
    engine.apply(resolve(1, 1)).unwrap();

    let client = engine.get_client(1).unwrap();
    assert_eq!(client.available(), Amount::from_scaled(100));
    assert_eq!(client.held(), Amount::from_scaled(0));
    assert!(!client.is_frozen());
}

#[test]
fn resolve_not_disputed_fails() {
    let mut engine = Engine::new();
    engine.apply(deposit(1, 1, 100)).unwrap();

    let result = engine.apply(resolve(1, 1));
    assert!(matches!(
        result,
        Err(EngineError::Resolve(ResolveError::InvalidState(1)))
    ));
}

#[test]
fn resolved_tx_can_be_disputed_again() {
    let mut engine = Engine::new();
    engine.apply(deposit(1, 1, 100)).unwrap();
    engine.apply(dispute(1, 1)).unwrap();
    engine.apply(resolve(1, 1)).unwrap();
    engine.apply(dispute(1, 1)).unwrap(); // should succeed

    let client = engine.get_client(1).unwrap();
    assert_eq!(client.available(), Amount::from_scaled(0));
    assert_eq!(client.held(), Amount::from_scaled(100));
}

// Chargeback tests

#[test]
fn chargeback_deposit_removes_held_and_freezes() {
    let mut engine = Engine::new();
    engine.apply(deposit(1, 1, 100)).unwrap();
    engine.apply(dispute(1, 1)).unwrap();
    engine.apply(chargeback(1, 1)).unwrap();

    let client = engine.get_client(1).unwrap();
    assert_eq!(client.available(), Amount::from_scaled(0));
    assert_eq!(client.held(), Amount::from_scaled(0));
    assert_eq!(client.total(), Amount::from_scaled(0));
    assert!(client.is_frozen());
}

#[test]
fn chargeback_not_disputed_fails() {
    let mut engine = Engine::new();
    engine.apply(deposit(1, 1, 100)).unwrap();

    let result = engine.apply(chargeback(1, 1));
    assert!(matches!(
        result,
        Err(EngineError::Chargeback(ChargebackError::InvalidState(1)))
    ));
}

#[test]
fn chargedback_tx_cannot_be_disputed() {
    let mut engine = Engine::new();
    engine.apply(deposit(1, 1, 100)).unwrap();
    engine.apply(dispute(1, 1)).unwrap();
    engine.apply(chargeback(1, 1)).unwrap();

    // Chargedback transactions are evicted, so they appear as "not found"
    let result = engine.apply(dispute(1, 1));
    assert!(matches!(
        result,
        Err(EngineError::Dispute(DisputeError::TxNotFound(1)))
    ));
}

// Duplicate transaction ID tests

#[test]
fn duplicate_deposit_tx_id_fails() {
    let mut engine = Engine::new();
    engine.apply(deposit(1, 1, 100)).unwrap();

    let result = engine.apply(deposit(1, 1, 50));
    assert!(matches!(
        result,
        Err(EngineError::Deposit(DepositError::DuplicateTxId(1)))
    ));
}

#[test]
fn duplicate_withdrawal_tx_id_fails() {
    let mut engine = Engine::new();
    engine.apply(deposit(1, 1, 100)).unwrap();
    engine.apply(withdrawal(1, 2, 30)).unwrap();

    let result = engine.apply(withdrawal(1, 2, 20));
    assert!(matches!(
        result,
        Err(EngineError::Withdrawal(WithdrawalError::DuplicateTxId(2)))
    ));
}

#[test]
fn withdrawal_id_blocks_later_deposit_reuse() {
    let mut engine = Engine::new();
    engine.apply(deposit(1, 1, 100)).unwrap();
    engine.apply(withdrawal(1, 2, 30)).unwrap();

    let result = engine.apply(deposit(1, 2, 10));
    assert!(matches!(
        result,
        Err(EngineError::Deposit(DepositError::DuplicateTxId(2)))
    ));
}

#[test]
fn can_apply_rejects_negative_and_overflowing_amounts() {
    let mut engine = Engine::new();
    assert!(!engine.can_apply(&deposit(1, 1, -5)));
    assert!(engine.can_apply(&deposit(1, 1, i64::MAX)));
    engine.apply(deposit(1, 1, i64::MAX)).unwrap();
    // a second huge deposit would overflow the available balance
    assert!(!engine.can_apply(&deposit(1, 2, 1)));
    // but a duplicate id is rejected before any arithmetic, so it is safe
    assert!(engine.can_apply(&deposit(1, 1, 1)));
}
