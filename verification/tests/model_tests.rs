use std::mem::size_of;
use txs_eng::model::{DepositRecord, DepositState};

#[test]
fn deposit_record_size() {
    // DepositRecord layout:
    // - amount: 8 bytes
    // - client: 2 bytes
    // - state: 1 byte
    // - padding: 5 bytes
    assert_eq!(size_of::<DepositRecord>(), 16);
}

#[test]
fn deposit_state_default() {
    assert_eq!(DepositState::default(), DepositState::Valid);
}
