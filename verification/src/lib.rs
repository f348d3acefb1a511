//! A staged stock-quote summary pipeline: analytics over ordered price
//! series, row assembly, and CSV output, with the fetch and scheduling
//! edges kept outside the library.
use vstd::prelude::*;

pub mod download_symbols;
pub mod output_symbols;
pub mod process_symbols;
pub mod stock_signal;
pub mod symbol_data;

verus! {

/// Prices are fixed-point amounts in hundredths of a currency unit.
/// Every price handled by the pipeline stays within this magnitude,
/// so that sums and scaled quotients fit the machine integers.
pub const PRICE_LIMIT: i64 = 100_000_000_000_000;

/// A single price value is valid when its magnitude is bounded.
pub open spec fn valid_price(p: i64) -> bool {
    -PRICE_LIMIT <= p <= PRICE_LIMIT
}

} // verus!
