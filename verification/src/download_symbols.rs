//! The orchestrator's fetch-request event: the symbols to fetch and the
//! `[beginning, end]` window for one pipeline run.
//!
//! The orchestrator emits one request immediately at startup and then
//! one per tick of the poll interval, with the same symbols and
//! beginning and with `end` refreshed to the time of the tick. The
//! timer itself, and the bus the request travels on, stay outside the
//! library: a caller builds each request here and dispatches it.
use vstd::prelude::*;

verus! {

/// The fixed poll interval between pipeline runs, in seconds.
pub const POLL_INTERVAL_SECS: u64 = 30;

/// A fetch request: fetch each of `symbols` over `[beginning, end]`
/// (Unix seconds).
pub struct DownloadSymbols {
    pub symbols: Vec<String>,
    pub beginning: i64,
    pub end: i64,
}

impl DownloadSymbols {
    /// The request for one run: exactly the requested symbols, the
    /// configured beginning, and the tick's time as the end.
    pub fn new(symbols: Vec<String>, beginning: i64, end: i64) -> (r: Self)
        ensures
            r.symbols == symbols,
            r.beginning == beginning,
            r.end == end,
    {
        DownloadSymbols { symbols, beginning, end }
    }
}

} // verus!
