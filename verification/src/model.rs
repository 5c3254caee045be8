//! The client data that the analysis reads: securities with their price
//! history and the transactions of all accounts and portfolios.
//!
//! Amounts are integer cents; shares and prices are integers scaled by 10^8.
//! Price dates are days since the UNIX epoch; transaction dates are seconds
//! since the UNIX epoch.

use vstd::prelude::*;

verus! {

/// One close price of a security.
#[derive(Clone, Copy, Debug, PartialEq, Eq, Structural)]
pub struct PHistoricalPrice {
    /// Days since 1970-01-01.
    pub date: i64,
    /// Close price, scaled by 10^8.
    pub close: i64,
}

/// A security and its price history.
#[derive(Debug)]
pub struct PSecurity {
    pub uuid: String,
    /// Historical close prices, in no particular order.
    pub prices: Vec<PHistoricalPrice>,
    /// The latest quote, if any.
    pub latest: Option<PHistoricalPrice>,
}

/// A transaction. `tx_type` is the Portfolio Performance transaction type:
/// 0 purchase, 1 sale, 2 inbound delivery, 3 outbound delivery, 4 security
/// transfer, 5 cash transfer, 6 deposit, 7 removal, 8 dividend, 9 interest,
/// 10 interest charge, 11 tax, 12 tax refund, 13 fee, 14 fee refund.
#[derive(Debug)]
pub struct PTransaction {
    pub tx_type: i32,
    /// Seconds since the UNIX epoch, where the transaction is dated.
    pub date_seconds: Option<i64>,
    /// Amount in cents.
    pub amount: i64,
    /// Shares, scaled by 10^8.
    pub shares: Option<i64>,
    pub account: Option<String>,
    pub portfolio: Option<String>,
    pub other_account: Option<String>,
    pub other_portfolio: Option<String>,
    /// UUID of the security the transaction moves.
    pub security: Option<String>,
}

/// The contents of a `.portfolio` file that the analysis reads.
#[derive(Debug)]
pub struct PClient {
    pub securities: Vec<PSecurity>,
    pub transactions: Vec<PTransaction>,
}

/// The sort key of a transaction: its timestamp, undated ones counting as 0.
pub open spec fn tx_key(t: PTransaction) -> i64 {
    match t.date_seconds {
        Some(s) => s,
        None => 0,
    }
}

/// The sort keys of a list of transactions.
pub open spec fn tx_keys(txs: Seq<PTransaction>) -> Seq<i64> {
    txs.map_values(|t: PTransaction| tx_key(t))
}

/// Seconds to days, truncating toward zero as Rust's `/` does.
pub open spec fn trunc_day(secs: int) -> int {
    if secs >= 0 {
        secs / 86400
    } else {
        -((-secs) / 86400)
    }
}

/// `secs / 86_400` with Rust's truncating division.
pub fn epoch_day_of(secs: i64) -> (d: i64)
    ensures
        d == trunc_day(secs as int),
{
    if secs >= 0 {
        secs / 86400
    } else {
        let pos: i128 = -(secs as i128);
        let q: i128 = pos / 86400;
        (-q) as i64
    }
}

} // verus!
