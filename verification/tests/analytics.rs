use stock_pipeline::stock_signal::{MaxPrice, MinPrice, PriceDifference, WindowedSMA};

#[test]
fn min_price_empty() {
    let prices: Vec<i64> = vec![];
    assert_eq!((MinPrice {}).calculate(&prices), None);
}

#[test]
fn max_price_empty() {
    let prices: Vec<i64> = vec![];
    assert_eq!((MaxPrice {}).calculate(&prices), None);
}

#[test]
fn price_difference_empty() {
    let prices: Vec<i64> = vec![];
    assert_eq!((PriceDifference {}).calculate(&prices), None);
}

#[test]
fn windowed_sma_empty() {
    let prices: Vec<i64> = vec![];
    assert_eq!((WindowedSMA { window_size: 3 }).calculate(&prices), None);
}

#[test]
fn min_max_bound_every_element() {
    let prices: Vec<i64> = vec![300, 100, 400, 100, 500, 900, 200];
    let min = (MinPrice {}).calculate(&prices).unwrap();
    let max = (MaxPrice {}).calculate(&prices).unwrap();
    assert_eq!(min, 100);
    assert_eq!(max, 900);
    for &p in &prices {
        assert!(min <= p && p <= max);
    }
}

#[test]
fn price_difference_single_element() {
    // A one-element series changes by nothing, absolutely and relatively.
    let prices: Vec<i64> = vec![500];
    assert_eq!((PriceDifference {}).calculate(&prices), Some((0, 0)));
}

#[test]
fn price_difference_drop_by_half() {
    // 10.00 down to 5.00: difference -5.00, relative change -50.00%.
    let prices: Vec<i64> = vec![1000, 500];
    assert_eq!((PriceDifference {}).calculate(&prices), Some((-500, -5000)));
}

#[test]
fn price_difference_zero_first_price() {
    // A zero first price defines the relative change as zero.
    let prices: Vec<i64> = vec![0, 500];
    assert_eq!((PriceDifference {}).calculate(&prices), Some((500, 0)));
}

#[test]
fn windowed_sma_window_three() {
    let prices: Vec<i64> = vec![1, 2, 3, 4, 5];
    let sma = (WindowedSMA { window_size: 3 }).calculate(&prices).unwrap();
    assert_eq!(sma, vec![2, 3, 4]);
    assert_eq!(*sma.last().unwrap(), 4);
}

#[test]
fn windowed_sma_shorter_than_window() {
    let prices: Vec<i64> = vec![1, 2, 3];
    let sma = (WindowedSMA { window_size: 10 }).calculate(&prices).unwrap();
    assert!(sma.is_empty());
}

#[test]
fn windowed_sma_window_one_is_identity() {
    let prices: Vec<i64> = vec![7, 9, 11];
    let sma = (WindowedSMA { window_size: 1 }).calculate(&prices).unwrap();
    assert_eq!(sma, prices);
}

#[test]
fn windowed_sma_truncates_toward_zero() {
    let prices: Vec<i64> = vec![-1, -1, 0];
    let sma = (WindowedSMA { window_size: 3 }).calculate(&prices).unwrap();
    assert_eq!(sma, vec![0]);
}
