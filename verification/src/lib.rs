//! A payment ledger: a transaction engine that applies deposits, withdrawals
//! and the dispute lifecycle (dispute, resolve, chargeback) to per-client
//! accounts, over an exact fixed-point monetary type.

pub mod amount;
pub mod csv;
pub mod decimal;
pub mod error;
pub mod laws;
pub mod model;
pub mod engine;
pub mod state;
pub mod sums;

pub use amount::Amount;
pub use engine::Engine;
pub use model::{ClientId, Transaction, TxId};
