use txs_eng::{Amount, Transaction};
use txs_eng::csv::{row_to_transaction, CsvError};

#[test]
fn read_deposit() {
    let tx = row_to_transaction(2, "deposit", 1, 1, Some("10.5")).unwrap();
    match tx {
        Transaction::Deposit { client, tx, amount } => {
            assert_eq!(client, 1);
            assert_eq!(tx, 1);
            assert_eq!(amount, Amount::from_scaled(105_000));
        }
        _ => panic!("expected deposit"),
    }
}

#[test]
fn read_withdrawal() {
    let tx = row_to_transaction(2, "withdrawal", 2, 3, Some("5.25")).unwrap();
    match tx {
        Transaction::Withdrawal { client, tx, amount } => {
            assert_eq!(client, 2);
            assert_eq!(tx, 3);
            assert_eq!(amount, Amount::from_scaled(52_500));
        }
        _ => panic!("expected withdrawal"),
    }
}

#[test]
fn read_returns_error_for_unknown_type() {
    let err = row_to_transaction(2, "unknown", 1, 1, Some("10.0")).unwrap_err();
    assert!(matches!(err, CsvError::UnrecognizedType { line: 2, .. }));
}

#[test]
fn read_returns_error_for_missing_amount() {
    let err = row_to_transaction(2, "deposit", 1, 1, None).unwrap_err();
    assert!(matches!(err, CsvError::MissingAmount { line: 2, .. }));
}

#[test]
fn read_returns_error_for_bad_amount() {
    let err = row_to_transaction(3, "withdrawal", 1, 1, Some("1.2.3")).unwrap_err();
    assert!(matches!(err, CsvError::Parse { line: 3, .. }));
}

#[test]
fn read_dispute() {
    let tx = row_to_transaction(2, "dispute", 1, 5, None).unwrap();
    match tx {
        Transaction::Dispute { client, tx } => {
            assert_eq!(client, 1);
            assert_eq!(tx, 5);
        }
        _ => panic!("expected dispute"),
    }
}

#[test]
fn read_resolve() {
    let tx = row_to_transaction(2, "resolve", 2, 10, None).unwrap();
    match tx {
        Transaction::Resolve { client, tx } => {
            assert_eq!(client, 2);
            assert_eq!(tx, 10);
        }
        _ => panic!("expected resolve"),
    }
}

#[test]
fn read_chargeback() {
    let tx = row_to_transaction(2, "chargeback", 3, 15, None).unwrap();
    match tx {
        Transaction::Chargeback { client, tx } => {
            assert_eq!(client, 3);
            assert_eq!(tx, 15);
        }
        _ => panic!("expected chargeback"),
    }
}

#[test]
fn read_ignores_amount_on_dispute_lifecycle_rows() {
    // the amount column is ignored for dispute, resolve and chargeback
    let tx = row_to_transaction(2, "resolve", 7, 8, Some("3.5")).unwrap();
    assert!(matches!(tx, Transaction::Resolve { client: 7, tx: 8 }));
}
