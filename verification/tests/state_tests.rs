use txs_eng::Amount;
use txs_eng::state::ClientAccount;

#[test]
fn client_account_new() {
    let account = ClientAccount::new(42);
    assert_eq!(account.id(), 42);
    assert_eq!(account.available(), Amount::default());
    assert_eq!(account.held(), Amount::default());
    assert!(!account.is_frozen());
}

#[test]
fn client_account_total_sums_available_and_held() {
    let mut account = ClientAccount::new(1);
    account.credit(Amount::from_scaled(100));
    account.hold(Amount::from_scaled(50));
    // available is now 50, held is 50
    assert_eq!(account.total(), Amount::from_scaled(100));
}

#[test]
fn credit_and_debit() {
    let mut account = ClientAccount::new(1);
    account.credit(Amount::from_scaled(100));
    assert_eq!(account.available(), Amount::from_scaled(100));
    account.debit(Amount::from_scaled(30));
    assert_eq!(account.available(), Amount::from_scaled(70));
}

#[test]
fn hold_and_release() {
    let mut account = ClientAccount::new(1);
    account.credit(Amount::from_scaled(100));
    account.hold(Amount::from_scaled(40));
    assert_eq!(account.available(), Amount::from_scaled(60));
    assert_eq!(account.held(), Amount::from_scaled(40));

    account.release(Amount::from_scaled(40));
    assert_eq!(account.available(), Amount::from_scaled(100));
    assert_eq!(account.held(), Amount::from_scaled(0));
}

#[test]
fn remove_held() {
    let mut account = ClientAccount::new(1);
    account.credit(Amount::from_scaled(100));
    account.hold(Amount::from_scaled(100));
    account.remove_held(Amount::from_scaled(100));
    assert_eq!(account.held(), Amount::from_scaled(0));
    assert_eq!(account.available(), Amount::from_scaled(0));
}

#[test]
fn freeze_and_unfreeze() {
    let mut account = ClientAccount::new(1);
    assert!(!account.is_frozen());
    account.freeze();
    assert!(account.is_frozen());
    account.unfreeze();
    assert!(!account.is_frozen());
}
