//! The process-request event: one run's fetched series, handed from the
//! fetch stage to the row assembler after the fan-in completes.
use vstd::prelude::*;

use crate::symbol_data::FetchedSymbolData;

verus! {

/// Everything the row assembler needs for one run: the series that were
/// fetched, and the run window they were fetched for.
pub struct ProcessSymbolsData {
    pub fetched_symbols_data: Vec<FetchedSymbolData>,
    pub beginning: i64,
    pub end: i64,
}

} // verus!
