//! Conversion of delimited-text rows into transactions. Reading the file and
//! splitting rows stays with the caller; this module owns the row logic: the
//! transaction-type words, the amount requirement, and decimal amounts.

use vstd::prelude::*;
use crate::amount::Amount;
use crate::model::{ClientId, Transaction, TxId};

verus! {

use vstd::string::{StringExecFns, StrSliceExecFns};
use crate::decimal::spec_parse;

/// Errors of single input rows. Row errors never abort ingestion: the caller
/// reports them and reads on. Lines are 1-indexed and the header is line 1,
/// so data rows start at line 2.
#[derive(Debug, Clone, PartialEq, Eq)]
pub enum CsvError {
    /// The row does not parse; carries the offending text.
    Parse { line: usize, message: String },
    /// The transaction type is none of the five known words.
    UnrecognizedType { line: usize, tx_type: String },
    /// A deposit or withdrawal row without an amount.
    MissingAmount { line: usize, tx_type: String },
}

/// Character-exact string equality.
fn str_eq(a: &str, b: &str) -> (r: bool)
    ensures
        r == (a@ == b@),
{
    let n = a.unicode_len();
    if n != b.unicode_len() {
        proof {
            if a@ == b@ {
                assert(a@.len() == b@.len());
            }
        }
        return false;
    }
    let mut i: usize = 0;
    while i < n
        invariant
            n == a@.len(),
            n == b@.len(),
            0 <= i <= n,
            forall|j: int| 0 <= j < i ==> a@[j] == b@[j],
        decreases n - i,
    {
        if a.get_char(i) != b.get_char(i) {
            proof {
                if a@ == b@ {
                    assert(a@[i as int] == b@[i as int]);
                }
            }
            return false;
        }
        i += 1;
    }
    proof {
        assert(a@ =~= b@);
    }
    true
}

/// Turn one trimmed row into a transaction: dispatch on the type word,
/// require an amount for deposits and withdrawals, and parse it as an exact
/// decimal. Amounts of the other three operations are the caller's to drop.
pub fn row_to_transaction(
    line: usize,
    tx_type: &str,
    client: ClientId,
    tx: TxId,
    amount: Option<&str>,
) -> (r: Result<Transaction, CsvError>)
    ensures
        match r {
            Ok(t2) => match t2 {
                Transaction::Deposit { client: c2, tx: t3, amount: a } => tx_type@ == "deposit"@
                    && c2 == client && t3 == tx && (amount matches Some(s) && spec_parse(s@)
                    == Some(a@)),
                Transaction::Withdrawal { client: c2, tx: t3, amount: a } => tx_type@
                    == "withdrawal"@ && c2 == client && t3 == tx && (amount matches Some(s)
                    && spec_parse(s@) == Some(a@)),
                Transaction::Dispute { client: c2, tx: t3 } => tx_type@ == "dispute"@ && c2
                    == client && t3 == tx,
                Transaction::Resolve { client: c2, tx: t3 } => tx_type@ == "resolve"@ && c2
                    == client && t3 == tx,
                Transaction::Chargeback { client: c2, tx: t3 } => tx_type@ == "chargeback"@ && c2
                    == client && t3 == tx,
            },
            Err(e) => match e {
                CsvError::MissingAmount { line: l, tx_type: ty } => l == line && ty@ == tx_type@
                    && (tx_type@ == "deposit"@ || tx_type@ == "withdrawal"@) && amount is None,
                CsvError::Parse { line: l, message } => l == line && (tx_type@ == "deposit"@
                    || tx_type@ == "withdrawal"@) && (amount matches Some(s) && spec_parse(s@)
                    is None && message@ == s@),
                CsvError::UnrecognizedType { line: l, tx_type: ty } => l == line && ty@ == tx_type@
                    && tx_type@ != "deposit"@ && tx_type@ != "withdrawal"@ && tx_type@
                    != "dispute"@ && tx_type@ != "resolve"@ && tx_type@ != "chargeback"@,
            },
        },
{
    let is_deposit = str_eq(tx_type, "deposit");
    let is_withdrawal = str_eq(tx_type, "withdrawal");
    if is_deposit || is_withdrawal {
        match amount {
            None => Err(
                CsvError::MissingAmount { line, tx_type: String::from_str(tx_type) },
            ),
            Some(s) => match Amount::from_decimal_str(s) {
                None => Err(CsvError::Parse { line, message: String::from_str(s) }),
                Some(a) => {
                    if is_deposit {
                        Ok(Transaction::Deposit { client, tx, amount: a })
                    } else {
                        Ok(Transaction::Withdrawal { client, tx, amount: a })
                    }
                },
            },
        }
    } else if str_eq(tx_type, "dispute") {
        Ok(Transaction::Dispute { client, tx })
    } else if str_eq(tx_type, "resolve") {
        Ok(Transaction::Resolve { client, tx })
    } else if str_eq(tx_type, "chargeback") {
        Ok(Transaction::Chargeback { client, tx })
    } else {
        Err(CsvError::UnrecognizedType { line, tx_type: String::from_str(tx_type) })
    }
}

} // verus!
