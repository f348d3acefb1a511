//! The fetch-stage data model and the row assembler.
//!
//! The fetch edge itself (the quote provider, the network) stays outside
//! the library: callers hand in the timestamped points a provider
//! returned, or `None` where the provider failed, and the functions here
//! order the points, reduce them to price series, and assemble one
//! output row per non-empty series.
use vstd::multiset::Multiset;
use vstd::prelude::*;
use vstd::seq_lib::group_to_multiset_ensures;
use vstd::seq_lib::lemma_multiset_commutative;

use crate::output_symbols::OutputSymbolsData;
use crate::stock_signal::{
    max_spec, min_spec, rel_change_spec, sma_at, MaxPrice, MinPrice, PriceDifference, WindowedSMA,
};
use crate::valid_price;

verus! {

/// The window size, in data points, of the trailing moving average that
/// the row assembler reports.
pub const SMA_WINDOW: usize = 30;

/// One quote as a provider returns it: a timestamp (Unix seconds) and a
/// closing price in hundredths of a currency unit.
#[derive(Clone, Copy, PartialEq, Eq, Structural)]
pub struct PricePoint {
    pub timestamp: i64,
    pub price: i64,
}

/// The points stand in chronological (non-strictly ascending) order.
pub open spec fn sorted_by_timestamp(s: Seq<PricePoint>) -> bool {
    forall|i: int, j: int| 0 <= i < j < s.len() ==> s[i].timestamp <= s[j].timestamp
}

/// Inserting an element anywhere in a sequence adds it, and nothing
/// else, to the sequence's multiset of elements.
proof fn lemma_to_multiset_insert<A>(s: Seq<A>, j: int, x: A)
    requires
        0 <= j <= s.len(),
    ensures
        s.insert(j, x).to_multiset() =~= s.to_multiset().insert(x),
{
    broadcast use group_to_multiset_ensures;

    let a = s.subrange(0, j);
    let b = s.subrange(j, s.len() as int);
    assert(s =~= a + b);
    assert(s.insert(j, x) =~= (a + seq![x]) + b);
    lemma_multiset_commutative(a, b);
    lemma_multiset_commutative(a + seq![x], b);
    lemma_multiset_commutative(a, seq![x]);
    assert(seq![x] =~= Seq::<A>::empty().push(x));
    assert(Seq::<A>::empty().push(x).to_multiset() =~= Seq::<A>::empty().to_multiset().insert(x));
    assert forall|y: A| Seq::<A>::empty().to_multiset().count(y) == 0 by {
        assert(!Seq::<A>::empty().contains(y));
    }
    assert(Seq::<A>::empty().to_multiset() =~= Multiset::<A>::empty());
    assert(s.insert(j, x).to_multiset() =~= s.to_multiset().insert(x));
}

/// Orders the fetched points ascending by timestamp, keeping exactly the
/// points that came in.
pub fn sort_price_points(points: Vec<PricePoint>) -> (r: Vec<PricePoint>)
    ensures
        sorted_by_timestamp(r@),
        r@.to_multiset() == points@.to_multiset(),
        r@.len() == points@.len(),
{
    broadcast use group_to_multiset_ensures;

    let n = points.len();
    let mut r: Vec<PricePoint> = Vec::new();
    let mut i: usize = 0;
    while i < n
        invariant
            n == points@.len(),
            0 <= i <= n,
            r@.len() == i,
            sorted_by_timestamp(r@),
            r@.to_multiset() =~= points@.subrange(0, i as int).to_multiset(),
        decreases n - i,
    {
        let p = points[i];
        let mut j: usize = 0;
        while j < r.len() && r[j].timestamp <= p.timestamp
            invariant
                0 <= j <= r@.len(),
                forall|k: int| 0 <= k < j ==> r@[k].timestamp <= p.timestamp,
            decreases r@.len() - j,
        {
            j = j + 1;
        }
        let ghost old_r = r@;
        r.insert(j, p);
        proof {
            assert forall|a: int, b: int| 0 <= a < b < r@.len() implies r@[a].timestamp
                <= r@[b].timestamp by {
                if b < j {
                    assert(r@[a] == old_r[a]);
                    assert(r@[b] == old_r[b]);
                } else if b == j {
                    assert(r@[a] == old_r[a]);
                } else {
                    assert(r@[b] == old_r[b - 1]);
                    if a < j {
                        assert(r@[a] == old_r[a]);
                        if j < old_r.len() {
                            assert(old_r[a].timestamp <= p.timestamp);
                        }
                        assert(a <= b - 1);
                        if a < b - 1 {
                            assert(old_r[a].timestamp <= old_r[b - 1].timestamp);
                        }
                    } else if a == j {
                        assert(r@[a] == p);
                        assert(p.timestamp < old_r[j as int].timestamp);
                        assert(old_r[j as int].timestamp <= old_r[b - 1].timestamp);
                    } else {
                        assert(r@[a] == old_r[a - 1]);
                    }
                }
            }
            broadcast use group_to_multiset_ensures;

            lemma_to_multiset_insert(old_r, j as int, p);
            assert(r@.to_multiset() =~= old_r.to_multiset().insert(p));
            assert(points@.subrange(0, i + 1) =~= points@.subrange(0, i as int).push(
                points@[i as int],
            ));
            assert(points@.subrange(0, i + 1).to_multiset() =~= points@.subrange(
                0,
                i as int,
            ).to_multiset().insert(points@[i as int]));
        }
        i = i + 1;
    }
    proof {
        assert(points@.subrange(0, n as int) =~= points@);
    }
    r
}

/// Reduces fetched points to the chronological sequence of their closing
/// prices: some ordering of the points that is ascending by timestamp,
/// mapped to the price alone.
pub fn closing_prices(points: Vec<PricePoint>) -> (r: Vec<i64>)
    ensures
        exists|s: Seq<PricePoint>|
            sorted_by_timestamp(s) && s.to_multiset() == points@.to_multiset() && r@ == s.map_values(
                |p: PricePoint| p.price,
            ),
        r@.len() == points@.len(),
{
    let sorted = sort_price_points(points);
    let n = sorted.len();
    let mut prices: Vec<i64> = Vec::new();
    let mut i: usize = 0;
    while i < n
        invariant
            n == sorted@.len(),
            0 <= i <= n,
            prices@ =~= sorted@.subrange(0, i as int).map_values(|p: PricePoint| p.price),
        decreases n - i,
    {
        prices.push(sorted[i].price);
        proof {
            assert(sorted@.subrange(0, i + 1) =~= sorted@.subrange(0, i as int).push(
                sorted@[i as int],
            ));
            assert(sorted@.subrange(0, i + 1).map_values(|p: PricePoint| p.price)
                =~= sorted@.subrange(0, i as int).map_values(|p: PricePoint| p.price).push(
                sorted@[i as int].price,
            ));
        }
        i = i + 1;
    }
    proof {
        assert(sorted@.subrange(0, n as int) =~= sorted@);
        assert(prices@ =~= sorted@.map_values(|p: PricePoint| p.price));
    }
    prices
}

/// One symbol's fetched price series for a run, in chronological order.
/// An empty series means the symbol returned no data this run.
pub struct FetchedSymbolData {
    pub symbol: String,
    pub symbol_data: Vec<i64>,
}

impl FetchedSymbolData {
    /// Every price of the series is within the machine bound.
    pub open spec fn wf(&self) -> bool {
        forall|i: int| 0 <= i < self.symbol_data@.len() ==> valid_price(
            #[trigger] self.symbol_data@[i],
        )
    }
}

/// The series owed for one symbol's fetch outcome: a series exactly when
/// the provider returned data, always carrying the requested symbol.
pub open spec fn assemble_spec(symbol: String, closing_data: Option<Vec<i64>>) -> Option<
    FetchedSymbolData,
> {
    match closing_data {
        Some(data) => Some(FetchedSymbolData { symbol, symbol_data: data }),
        None => None,
    }
}

/// Pairs a fetch outcome with the symbol it was requested for.
pub fn assemble_symbol_data(symbol: String, closing_data: Option<Vec<i64>>) -> (r: Option<
    FetchedSymbolData,
>)
    ensures
        r == assemble_spec(symbol, closing_data),
        r is Some <==> closing_data is Some,
        r is Some ==> r->Some_0.symbol == symbol && r->Some_0.symbol_data == closing_data->Some_0,
{
    match closing_data {
        Some(data) => Some(FetchedSymbolData { symbol, symbol_data: data }),
        None => None,
    }
}

/// The fan-in of one run's fetch results: the series that succeeded, in
/// arrival order, failures dropped.
pub open spec fn collect_spec(s: Seq<Option<FetchedSymbolData>>) -> Seq<FetchedSymbolData>
    decreases s.len(),
{
    if s.len() == 0 {
        Seq::empty()
    } else {
        collect_spec(s.drop_last()) + (if s.last() is Some {
            seq![s.last()->Some_0]
        } else {
            Seq::empty()
        })
    }
}

/// Keeps the successful fetch results, in the order they stand, and
/// drops the failed ones.
pub fn collect_symbol_data(fetched: Vec<Option<FetchedSymbolData>>) -> (r: Vec<FetchedSymbolData>)
    ensures
        r@ == collect_spec(fetched@),
{
    let mut fetched = fetched;
    let mut out: Vec<FetchedSymbolData> = Vec::new();
    let ghost orig = fetched@;
    let n = fetched.len();
    let mut i: usize = 0;
    while fetched.len() > 0
        invariant
            n == orig.len(),
            0 <= i <= orig.len(),
            i + fetched@.len() == orig.len(),
            fetched@ =~= orig.subrange(i as int, orig.len() as int),
            out@ =~= collect_spec(orig.subrange(0, i as int)),
        decreases fetched@.len(),
    {
        proof {
            assert(orig.subrange(0, i + 1).drop_last() =~= orig.subrange(0, i as int));
            assert(orig.subrange(0, i + 1).last() == orig[i as int]);
            assert(fetched@[0] == orig[i as int]);
        }
        let item = fetched.remove(0);
        match item {
            Some(d) => out.push(d),
            None => {},
        }
        proof {
            assert(fetched@ =~= orig.subrange(i + 1, orig.len() as int));
        }
        i = i + 1;
    }
    proof {
        assert(orig.subrange(0, orig.len() as int) =~= orig);
    }
    out
}

/// One run's fan-out, as far as the library sees it: the outcome of each
/// symbol's fetch, paired with the symbol it was requested for, in
/// request order.
pub open spec fn fan_out_spec(symbols: Seq<String>, outcomes: Seq<Option<Vec<i64>>>) -> Seq<
    Option<FetchedSymbolData>,
>
    recommends
        symbols.len() == outcomes.len(),
{
    Seq::new(symbols.len(), |i: int| assemble_spec(symbols[i], outcomes[i]))
}

/// For pairwise-distinct requested symbols, every series the fan-in
/// collects carries one of the requested symbols together with exactly
/// the data fetched for that symbol, and no symbol appears twice.
pub proof fn lemma_fan_out_pairing(symbols: Seq<String>, outcomes: Seq<Option<Vec<i64>>>)
    requires
        symbols.len() == outcomes.len(),
        forall|i: int, j: int| 0 <= i < j < symbols.len() ==> symbols[i]@ != symbols[j]@,
    ensures
        ({
            let collected = collect_spec(fan_out_spec(symbols, outcomes));
            &&& forall|k: int|
                0 <= k < collected.len() ==> exists|i: int|
                    0 <= i < symbols.len() && (#[trigger] collected[k]).symbol == symbols[i]
                        && outcomes[i] == Some(collected[k].symbol_data)
            &&& forall|k: int, l: int|
                0 <= k < l < collected.len() ==> collected[k].symbol@ != collected[l].symbol@
        }),
    decreases symbols.len(),
{
    let f = fan_out_spec(symbols, outcomes);
    let collected = collect_spec(f);
    if symbols.len() == 0 {
        assert(f =~= Seq::<Option<FetchedSymbolData>>::empty());
    } else {
        let n = symbols.len() as int;
        let sp = symbols.drop_last();
        let op = outcomes.drop_last();
        lemma_fan_out_pairing(sp, op);
        let fp = fan_out_spec(sp, op);
        assert(f.drop_last() =~= fp);
        let prev = collect_spec(fp);
        assert(f.last() == assemble_spec(symbols[n - 1], outcomes[n - 1]));
        assert forall|k: int| 0 <= k < collected.len() implies exists|i: int|
            0 <= i < symbols.len() && (#[trigger] collected[k]).symbol == symbols[i] && outcomes[i]
                == Some(collected[k].symbol_data) by {
            if k < prev.len() {
                assert(collected[k] == prev[k]);
                assert(exists|i: int|
                    0 <= i < sp.len() && (#[trigger] prev[k]).symbol == sp[i] && op[i] == Some(
                        prev[k].symbol_data,
                    ));
                let i = choose|i: int|
                    0 <= i < sp.len() && (#[trigger] prev[k]).symbol == sp[i] && op[i] == Some(
                        prev[k].symbol_data,
                    );
                assert(sp[i] == symbols[i] && op[i] == outcomes[i]);
                assert(0 <= i < symbols.len() && collected[k].symbol == symbols[i] && outcomes[i]
                    == Some(collected[k].symbol_data));
            } else {
                assert(f.last() is Some);
                assert(collected[k] == f.last()->Some_0);
                assert(collected[k].symbol == symbols[n - 1] && outcomes[n - 1] == Some(
                    collected[k].symbol_data,
                ));
            }
        }
        assert forall|k: int, l: int| 0 <= k < l < collected.len() implies collected[k].symbol@
            != collected[l].symbol@ by {
            if l < prev.len() {
                assert(collected[k] == prev[k] && collected[l] == prev[l]);
            } else {
                assert(f.last() is Some);
                assert(collected[l] == f.last()->Some_0);
                assert(collected[k] == prev[k]);
                assert(exists|i: int|
                    0 <= i < sp.len() && (#[trigger] prev[k]).symbol == sp[i] && op[i] == Some(
                        prev[k].symbol_data,
                    ));
                let i = choose|i: int|
                    0 <= i < sp.len() && (#[trigger] prev[k]).symbol == sp[i] && op[i] == Some(
                        prev[k].symbol_data,
                    );
                assert(sp[i] == symbols[i]);
                assert(symbols[i]@ != symbols[n - 1]@);
            }
        }
    }
}

/// Two series assembled for distinct requested symbols can never carry
/// each other's symbol: each carries exactly the symbol requested for
/// it, however the two fetches were interleaved.
pub proof fn lemma_no_cross_assignment(
    sym_a: String,
    data_a: Option<Vec<i64>>,
    sym_b: String,
    data_b: Option<Vec<i64>>,
)
    requires
        sym_a@ != sym_b@,
        assemble_spec(sym_a, data_a) is Some,
        assemble_spec(sym_b, data_b) is Some,
    ensures
        assemble_spec(sym_a, data_a)->Some_0.symbol == sym_a,
        assemble_spec(sym_b, data_b)->Some_0.symbol == sym_b,
        assemble_spec(sym_a, data_a)->Some_0.symbol@ != assemble_spec(sym_b, data_b)->Some_0.symbol@,
{
}

/// The last element of a non-empty sequence of prices.
pub open spec fn last_of(s: Seq<i64>) -> i64
    recommends
        s.len() > 0,
{
    s[s.len() - 1]
}

/// The moving average the row assembler reports: the last trailing mean,
/// or zero when the series is shorter than the window.
pub open spec fn sma_last_spec(s: Seq<i64>) -> int {
    if s.len() < SMA_WINDOW {
        0
    } else {
        sma_at(s, SMA_WINDOW as int, s.len() - SMA_WINDOW)
    }
}

/// The row the assembler owes for one non-empty series.
pub open spec fn row_spec(d: FetchedSymbolData, beginning: i64) -> OutputSymbolsData {
    let s = d.symbol_data@;
    OutputSymbolsData {
        beginning,
        symbol: d.symbol,
        last_price: last_of(s),
        pct_change: rel_change_spec(s[0] as int, last_of(s) as int) as i64,
        period_min: min_spec(s),
        period_max: max_spec(s),
        sma: sma_last_spec(s) as i64,
    }
}

/// Builds the output row for one symbol's series: the last price, the
/// percentage change over the period, the minimum, the maximum, and the
/// trailing moving average. An empty series yields no row.
pub fn process_symbol_data(fetched_symbol_data: FetchedSymbolData, beginning: i64) -> (r: Option<
    OutputSymbolsData,
>)
    requires
        fetched_symbol_data.wf(),
    ensures
        r is Some <==> fetched_symbol_data.symbol_data@.len() > 0,
        r is Some ==> r->Some_0 == row_spec(fetched_symbol_data, beginning),
{
    let FetchedSymbolData { symbol, symbol_data } = fetched_symbol_data;
    if symbol_data.len() == 0 {
        return None;
    }
    let period_max = (MaxPrice {}).calculate(&symbol_data).unwrap();
    let period_min = (MinPrice {}).calculate(&symbol_data).unwrap();
    let last_price = symbol_data[symbol_data.len() - 1];
    let (_, pct_change) = (PriceDifference {}).calculate(&symbol_data).unwrap();
    let sma_values = (WindowedSMA { window_size: SMA_WINDOW }).calculate(&symbol_data).unwrap();
    let sma = if sma_values.len() > 0 {
        sma_values[sma_values.len() - 1]
    } else {
        0
    };
    Some(
        OutputSymbolsData {
            beginning,
            symbol,
            last_price,
            pct_change,
            period_min,
            period_max,
            sma,
        },
    )
}

/// The rows owed for a run: one per non-empty series, in arrival order.
pub open spec fn rows_spec(s: Seq<FetchedSymbolData>, beginning: i64) -> Seq<OutputSymbolsData>
    decreases s.len(),
{
    if s.len() == 0 {
        Seq::empty()
    } else {
        rows_spec(s.drop_last(), beginning) + (if s.last().symbol_data@.len() > 0 {
            seq![row_spec(s.last(), beginning)]
        } else {
            Seq::<OutputSymbolsData>::empty()
        })
    }
}

/// The number of series in a run that carry any data.
pub open spec fn count_nonempty(s: Seq<FetchedSymbolData>) -> int
    decreases s.len(),
{
    if s.len() == 0 {
        0
    } else {
        count_nonempty(s.drop_last()) + (if s.last().symbol_data@.len() > 0 {
            1int
        } else {
            0int
        })
    }
}

/// A run yields exactly one row per non-empty series: empty series yield
/// nothing, and the number of rows never exceeds the number of series.
pub proof fn lemma_rows_bounded(s: Seq<FetchedSymbolData>, beginning: i64)
    ensures
        rows_spec(s, beginning).len() == count_nonempty(s),
        rows_spec(s, beginning).len() <= s.len(),
        (forall|i: int| 0 <= i < s.len() ==> #[trigger] s[i].symbol_data@.len() == 0)
            ==> rows_spec(s, beginning).len() == 0,
    decreases s.len(),
{
    if s.len() > 0 {
        lemma_rows_bounded(s.drop_last(), beginning);
        assert(forall|i: int| 0 <= i < s.len() - 1 ==> #[trigger] s.drop_last()[i] == s[i]);
        assert(s.last() == s[s.len() - 1]);
    }
}

/// Builds the run's output rows from its fetched series, one row per
/// non-empty series, in arrival order; empty series are dropped.
pub fn process_symbols_data(fetched_symbols_data: Vec<FetchedSymbolData>, beginning: i64) -> (r:
    Vec<OutputSymbolsData>)
    requires
        forall|i: int| 0 <= i < fetched_symbols_data@.len()
            ==> (#[trigger] fetched_symbols_data@[i]).wf(),
    ensures
        r@ == rows_spec(fetched_symbols_data@, beginning),
{
    let mut fetched = fetched_symbols_data;
    let ghost orig = fetched@;
    let n = fetched.len();
    let mut out: Vec<OutputSymbolsData> = Vec::new();
    let mut i: usize = 0;
    while fetched.len() > 0
        invariant
            n == orig.len(),
            0 <= i <= orig.len(),
            i + fetched@.len() == orig.len(),
            fetched@ =~= orig.subrange(i as int, orig.len() as int),
            forall|k: int| 0 <= k < orig.len() ==> (#[trigger] orig[k]).wf(),
            out@ =~= rows_spec(orig.subrange(0, i as int), beginning),
        decreases fetched@.len(),
    {
        proof {
            assert(orig.subrange(0, i + 1).drop_last() =~= orig.subrange(0, i as int));
            assert(orig.subrange(0, i + 1).last() == orig[i as int]);
            assert(fetched@[0] == orig[i as int]);
        }
        let item = fetched.remove(0);
        match process_symbol_data(item, beginning) {
            Some(row) => out.push(row),
            None => {},
        }
        proof {
            assert(fetched@ =~= orig.subrange(i + 1, orig.len() as int));
        }
        i = i + 1;
    }
    proof {
        assert(orig.subrange(0, orig.len() as int) =~= orig);
    }
    out
}

} // verus!
