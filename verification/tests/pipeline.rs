use stock_pipeline::output_symbols::{check_symbol, csv_header, csv_row, OutputSymbolsData};
use stock_pipeline::symbol_data::{
    assemble_symbol_data, closing_prices, collect_symbol_data, process_symbol_data,
    process_symbols_data, sort_price_points, FetchedSymbolData, PricePoint,
};

fn point(timestamp: i64, price: i64) -> PricePoint {
    PricePoint { timestamp, price }
}

#[test]
fn sort_orders_by_timestamp() {
    let points = vec![point(30, 300), point(10, 100), point(20, 200)];
    let sorted = sort_price_points(points);
    let ts: Vec<i64> = sorted.iter().map(|p| p.timestamp).collect();
    let ps: Vec<i64> = sorted.iter().map(|p| p.price).collect();
    assert_eq!(ts, vec![10, 20, 30]);
    assert_eq!(ps, vec![100, 200, 300]);
}

#[test]
fn closing_prices_follow_time_order() {
    let points = vec![point(5, 50), point(1, 10), point(3, 30), point(2, 20)];
    assert_eq!(closing_prices(points), vec![10, 20, 30, 50]);
}

#[test]
fn closing_prices_empty() {
    assert_eq!(closing_prices(vec![]), Vec::<i64>::new());
}

#[test]
fn assemble_keeps_requested_symbol() {
    let r = assemble_symbol_data("AAPL".to_string(), Some(vec![100, 200])).unwrap();
    assert_eq!(r.symbol, "AAPL");
    assert_eq!(r.symbol_data, vec![100, 200]);
    assert!(assemble_symbol_data("MSFT".to_string(), None).is_none());
}

#[test]
fn distinct_symbols_stay_distinct() {
    let a = assemble_symbol_data("AAPL".to_string(), Some(vec![1])).unwrap();
    let b = assemble_symbol_data("MSFT".to_string(), Some(vec![2])).unwrap();
    assert_eq!(a.symbol, "AAPL");
    assert_eq!(b.symbol, "MSFT");
    assert_ne!(a.symbol, b.symbol);
}

#[test]
fn collect_drops_failures_keeps_order() {
    let a = FetchedSymbolData { symbol: "A".to_string(), symbol_data: vec![1] };
    let b = FetchedSymbolData { symbol: "B".to_string(), symbol_data: vec![2] };
    let collected = collect_symbol_data(vec![Some(a), None, Some(b), None]);
    let symbols: Vec<&str> = collected.iter().map(|d| d.symbol.as_str()).collect();
    assert_eq!(symbols, vec!["A", "B"]);
}

#[test]
fn empty_series_yields_no_row() {
    let d = FetchedSymbolData { symbol: "AAPL".to_string(), symbol_data: vec![] };
    assert!(process_symbol_data(d, 0).is_none());
}

#[test]
fn row_count_never_exceeds_nonempty_series() {
    let series = vec![
        FetchedSymbolData { symbol: "A".to_string(), symbol_data: vec![] },
        FetchedSymbolData { symbol: "B".to_string(), symbol_data: vec![100, 300] },
        FetchedSymbolData { symbol: "C".to_string(), symbol_data: vec![] },
        FetchedSymbolData { symbol: "D".to_string(), symbol_data: vec![200] },
    ];
    let rows = process_symbols_data(series, 0);
    assert_eq!(rows.len(), 2);
    assert_eq!(rows[0].symbol, "B");
    assert_eq!(rows[1].symbol, "D");
}

#[test]
fn row_statistics_for_one_series() {
    let d = FetchedSymbolData {
        symbol: "AAPL".to_string(),
        symbol_data: vec![1000, 500],
    };
    let row = process_symbol_data(d, 7).unwrap();
    assert_eq!(row.beginning, 7);
    assert_eq!(row.symbol, "AAPL");
    assert_eq!(row.last_price, 500);
    // -50% expressed in hundredths of a percent
    assert_eq!(row.pct_change, -5000);
    assert_eq!(row.period_min, 500);
    assert_eq!(row.period_max, 1000);
    // two points are fewer than the 30-point window
    assert_eq!(row.sma, 0);
}

#[test]
fn check_symbol_accepts_separator_free_strings() {
    assert!(check_symbol("AAPL"));
    assert!(check_symbol("brk.b"));
    assert!(check_symbol("caf\u{e9}"));
    assert!(!check_symbol(""));
    assert!(!check_symbol("A,B"));
    assert!(!check_symbol("A\nB"));
}

#[test]
fn header_line_is_fixed() {
    let header = String::from_utf8(csv_header()).unwrap();
    assert_eq!(header, "period start,symbol,price,change %,min,max,30d avg\n");
}

#[test]
fn csv_row_renders_all_fields() {
    let row = OutputSymbolsData {
        beginning: 1609459200,
        symbol: "AAPL".to_string(),
        last_price: 10500,
        pct_change: 500,
        period_min: 10000,
        period_max: 10500,
        sma: 0,
    };
    let line = String::from_utf8(csv_row(&row)).unwrap();
    let start = chrono::DateTime::<chrono::Utc>::from_timestamp(1609459200, 0)
        .unwrap()
        .to_rfc3339();
    assert_eq!(
        line,
        format!("{},AAPL,$105.00,5.00%,$100.00,$105.00,$0.00\n", start)
    );
}

#[test]
fn csv_row_renders_negative_change() {
    let row = OutputSymbolsData {
        beginning: 0,
        symbol: "XYZ".to_string(),
        last_price: 500,
        pct_change: -5000,
        period_min: 500,
        period_max: 1000,
        sma: 0,
    };
    let line = String::from_utf8(csv_row(&row)).unwrap();
    let start = chrono::DateTime::<chrono::Utc>::from_timestamp(0, 0)
        .unwrap()
        .to_rfc3339();
    assert_eq!(
        line,
        format!("{},XYZ,$5.00,-50.00%,$5.00,$10.00,$0.00\n", start)
    );
}

#[test]
fn csv_row_renders_period_starts_before_1970() {
    let beginning = -252374400;
    let row = OutputSymbolsData {
        beginning,
        symbol: "IBM".to_string(),
        last_price: 578,
        pct_change: 0,
        period_min: 578,
        period_max: 578,
        sma: 0,
    };
    let line = String::from_utf8(csv_row(&row)).unwrap();
    let start = chrono::DateTime::<chrono::Utc>::from_timestamp(beginning, 0)
        .unwrap()
        .to_rfc3339();
    assert!(start.starts_with("1962-01-02T00:00:00"));
    assert_eq!(line, format!("{},IBM,$5.78,0.00%,$5.78,$5.78,$0.00\n", start));
}

#[test]
fn csv_row_renders_non_ascii_symbols() {
    let row = OutputSymbolsData {
        beginning: 0,
        symbol: "caf\u{e9}".to_string(),
        last_price: 100,
        pct_change: 0,
        period_min: 100,
        period_max: 100,
        sma: 0,
    };
    let line = String::from_utf8(csv_row(&row)).unwrap();
    let start = chrono::DateTime::<chrono::Utc>::from_timestamp(0, 0)
        .unwrap()
        .to_rfc3339();
    assert_eq!(
        line,
        format!("{},caf\u{e9},$1.00,0.00%,$1.00,$1.00,$0.00\n", start)
    );
}

#[test]
fn end_to_end_one_run() {
    // Two requested symbols; the provider returns data for one of them.
    let aapl_prices: Vec<i64> = vec![10000, 10200, 10100, 10500];
    let fetched = vec![
        assemble_symbol_data("AAPL".to_string(), Some(aapl_prices)),
        assemble_symbol_data("MSFT".to_string(), None),
    ];
    let series = collect_symbol_data(fetched);
    assert_eq!(series.len(), 1);

    let beginning = 1609459200;
    let rows = process_symbols_data(series, beginning);
    assert_eq!(rows.len(), 1);
    let row = &rows[0];
    assert_eq!(row.symbol, "AAPL");
    assert_eq!(row.last_price, 10500);
    assert_eq!(row.period_min, 10000);
    assert_eq!(row.period_max, 10500);
    // +5% expressed in hundredths of a percent
    assert_eq!(row.pct_change, 500);
    assert_eq!(row.sma, 0);

    let start = chrono::DateTime::<chrono::Utc>::from_timestamp(beginning, 0)
        .unwrap()
        .to_rfc3339();
    let line = String::from_utf8(csv_row(row)).unwrap();
    assert_eq!(
        line,
        format!("{},AAPL,$105.00,5.00%,$100.00,$105.00,$0.00\n", start)
    );
    assert!(!line.contains("MSFT"));
}

#[test]
fn sma_covers_full_window() {
    // Thirty equal prices and one higher one: the trailing mean moves.
    let mut prices: Vec<i64> = vec![1000; 30];
    prices.push(4000);
    let d = FetchedSymbolData { symbol: "AAPL".to_string(), symbol_data: prices };
    let row = process_symbol_data(d, 0).unwrap();
    // last window: 29 prices of 10.00 and one of 40.00 -> mean 11.00
    assert_eq!(row.sma, 1100);
    assert_eq!(row.last_price, 4000);
}

#[test]
fn download_request_carries_its_arguments() {
    let req = stock_pipeline::download_symbols::DownloadSymbols::new(
        vec!["AAPL".to_string(), "MSFT".to_string()],
        100,
        200,
    );
    assert_eq!(req.symbols, vec!["AAPL", "MSFT"]);
    assert_eq!(req.beginning, 100);
    assert_eq!(req.end, 200);
}

#[test]
fn equal_timestamps_keep_both_points() {
    let points = vec![point(10, 700), point(10, 300), point(5, 100)];
    let mut prices = closing_prices(points);
    assert_eq!(prices.remove(0), 100);
    prices.sort();
    assert_eq!(prices, vec![300, 700]);
}

#[test]
fn single_point_is_its_own_min_and_max() {
    let d = FetchedSymbolData { symbol: "ONE".to_string(), symbol_data: vec![500] };
    let row = process_symbol_data(d, 0).unwrap();
    assert_eq!(row.last_price, 500);
    assert_eq!(row.period_min, 500);
    assert_eq!(row.period_max, 500);
    assert_eq!(row.pct_change, 0);
}

#[test]
fn csv_row_always_has_seven_fields() {
    let row = OutputSymbolsData {
        beginning: 1609459200,
        symbol: "brk.b".to_string(),
        last_price: -12345,
        pct_change: -9999,
        period_min: -20000,
        period_max: 300,
        sma: 7,
    };
    let line = String::from_utf8(csv_row(&row)).unwrap();
    assert_eq!(line.matches(',').count(), 6);
    assert_eq!(line.matches('\n').count(), 1);
    assert!(line.ends_with('\n'));
    assert!(line.ends_with(",$-123.45,-99.99%,$-200.00,$3.00,$0.07\n"));
}
