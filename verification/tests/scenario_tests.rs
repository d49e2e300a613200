//! End-to-end scenarios: each drives literal input rows through the engine
//! and checks the resulting `(client, available, held, total, locked)` rows,
//! sorted by client.

use txs_eng::{Engine, Transaction};
use txs_eng::csv::row_to_transaction;

fn apply_rows(rows: &[(&str, u16, u32, Option<&str>)]) -> Engine {
    let mut engine = Engine::new();
    for (i, (ty, client, tx, amount)) in rows.iter().enumerate() {
        let tx: Transaction = row_to_transaction(i + 2, ty, *client, *tx, *amount).unwrap();
        assert!(engine.can_apply(&tx));
        // row errors are swallowed: the stream always goes on
        let _ = engine.apply(tx);
    }
    engine
}

fn output_rows(engine: &Engine) -> Vec<(u16, String, String, String, bool)> {
    let mut rows: Vec<(u16, String, String, String, bool)> = engine
        .clients()
        .iter()
        .map(|a| {
            (
                a.id(),
                a.available().display_string(),
                a.held().display_string(),
                a.total().display_string(),
                a.is_frozen(),
            )
        })
        .collect();
    rows.sort();
    rows
}

fn row(
    client: u16,
    available: &str,
    held: &str,
    total: &str,
    locked: bool,
) -> (u16, String, String, String, bool) {
    (client, available.to_string(), held.to_string(), total.to_string(), locked)
}

#[test]
fn simple_deposit_withdrawal() {
    let engine = apply_rows(&[
        ("deposit", 1, 1, Some("100.0")),
        ("deposit", 2, 2, Some("50.0")),
        ("withdrawal", 1, 3, Some("25.0")),
    ]);
    assert_eq!(
        output_rows(&engine),
        vec![
            row(1, "75.0000", "0.0000", "75.0000", false),
            row(2, "50.0000", "0.0000", "50.0000", false),
        ]
    );
}

#[test]
fn insufficient_funds_is_a_no_op() {
    let engine = apply_rows(&[
        ("deposit", 1, 1, Some("100.0")),
        ("withdrawal", 1, 2, Some("200.0")),
        ("deposit", 1, 3, Some("50.0")),
    ]);
    assert_eq!(
        output_rows(&engine),
        vec![row(1, "150.0000", "0.0000", "150.0000", false)]
    );
}

#[test]
fn dispute_resolve_cycle() {
    let engine = apply_rows(&[
        ("deposit", 1, 1, Some("100.0")),
        ("dispute", 1, 1, None),
        ("resolve", 1, 1, None),
    ]);
    assert_eq!(
        output_rows(&engine),
        vec![row(1, "100.0000", "0.0000", "100.0000", false)]
    );
}

#[test]
fn chargeback_freezes_and_removes_funds() {
    let engine = apply_rows(&[
        ("deposit", 1, 1, Some("100.0")),
        ("dispute", 1, 1, None),
        ("chargeback", 1, 1, None),
        // the post-chargeback deposit is rejected: the account is frozen
        ("deposit", 1, 2, Some("50.0")),
    ]);
    assert_eq!(
        output_rows(&engine),
        vec![row(1, "0.0000", "0.0000", "0.0000", true)]
    );
}

#[test]
fn dispute_causes_negative_available() {
    let engine = apply_rows(&[
        ("deposit", 1, 1, Some("100.0")),
        ("withdrawal", 1, 2, Some("60.0")),
        ("dispute", 1, 1, None),
    ]);
    assert_eq!(
        output_rows(&engine),
        vec![row(1, "-60.0000", "100.0000", "40.0000", false)]
    );
}

#[test]
fn client_mismatched_dispute_is_rejected() {
    let engine = apply_rows(&[
        ("deposit", 1, 1, Some("100.0")),
        ("deposit", 2, 2, Some("50.0")),
        ("dispute", 2, 1, None),
    ]);
    assert_eq!(
        output_rows(&engine),
        vec![
            row(1, "100.0000", "0.0000", "100.0000", false),
            row(2, "50.0000", "0.0000", "50.0000", false),
        ]
    );
}
