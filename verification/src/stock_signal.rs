//! The analytics kernel: pure, stateless calculators over an ordered
//! price series. Each calculator returns no result for an empty input.
//!
//! Prices are fixed-point integers (hundredths of a currency unit), so
//! every statistic is stated exactly. The relative change reported by
//! [`PriceDifference`] is scaled by 10_000 (hundredths of a percent)
//! and truncated toward zero, and each moving average is the window sum
//! divided by the window size, truncated toward zero.
use vstd::arithmetic::div_mod::{
    lemma_div_is_ordered, lemma_div_multiples_vanish, lemma_div_nonincreasing,
};
use vstd::arithmetic::mul::lemma_mul_inequality;
use vstd::math::abs;
use vstd::prelude::*;

use crate::valid_price;
use crate::PRICE_LIMIT;

verus! {

/// The minimum element of a non-empty sequence.
pub open spec fn min_spec(s: Seq<i64>) -> i64
    recommends
        s.len() > 0,
    decreases s.len(),
{
    if s.len() <= 1 {
        s[0]
    } else if s.last() < min_spec(s.drop_last()) {
        s.last()
    } else {
        min_spec(s.drop_last())
    }
}

/// The maximum element of a non-empty sequence.
pub open spec fn max_spec(s: Seq<i64>) -> i64
    recommends
        s.len() > 0,
    decreases s.len(),
{
    if s.len() <= 1 {
        s[0]
    } else if s.last() > max_spec(s.drop_last()) {
        s.last()
    } else {
        max_spec(s.drop_last())
    }
}

/// The sum of a sequence of prices, as an unbounded integer.
pub open spec fn sum_spec(s: Seq<i64>) -> int
    decreases s.len(),
{
    if s.len() == 0 {
        0
    } else {
        sum_spec(s.drop_last()) + s.last()
    }
}

/// Integer division truncated toward zero, the rounding used for both
/// the relative change and the moving averages.
pub open spec fn div_trunc(a: int, b: int) -> int
    recommends
        b != 0,
{
    if (a < 0) == (b < 0) {
        (abs(a) / abs(b)) as int
    } else {
        -((abs(a) / abs(b)) as int)
    }
}

/// The relative change from `first` to `last`, in hundredths of a
/// percent, truncated toward zero; zero when `first` is zero.
pub open spec fn rel_change_spec(first: int, last: int) -> int {
    if first == 0 {
        0
    } else {
        div_trunc((last - first) * 10000, first)
    }
}

/// The trailing mean over the window of length `w` ending at index
/// `i + w - 1`, truncated toward zero.
pub open spec fn sma_at(s: Seq<i64>, w: int, i: int) -> int
    recommends
        w >= 1,
        0 <= i && i + w <= s.len(),
{
    div_trunc(sum_spec(s.subrange(i, i + w)), w)
}

/// Every element of a non-empty sequence lies between its minimum and
/// its maximum, and both bounds are themselves elements.
pub proof fn lemma_min_max_bound(s: Seq<i64>)
    requires
        s.len() > 0,
    ensures
        forall|i: int| 0 <= i < s.len() ==> min_spec(s) <= #[trigger] s[i] <= max_spec(s),
        s.contains(min_spec(s)),
        s.contains(max_spec(s)),
    decreases s.len(),
{
    if s.len() == 1 {
        assert(s[0] == s.last());
    } else {
        let d = s.drop_last();
        lemma_min_max_bound(d);
        assert(forall|i: int| 0 <= i < d.len() ==> #[trigger] s[i] == d[i]);
        if d.contains(min_spec(d)) {
            let j = choose|j: int| 0 <= j < d.len() && d[j] == min_spec(d);
            assert(s[j] == min_spec(d));
        }
        if d.contains(max_spec(d)) {
            let j = choose|j: int| 0 <= j < d.len() && d[j] == max_spec(d);
            assert(s[j] == max_spec(d));
        }
        assert(s[s.len() - 1] == s.last());
    }
}

/// Computes the minimum price of a series; no result for an empty series.
pub struct MinPrice;

/// Computes the maximum price of a series; no result for an empty series.
pub struct MaxPrice;

/// Computes the absolute and relative change from the first to the last
/// price of a series; no result for an empty series.
pub struct PriceDifference;

/// Computes the trailing simple moving averages of a series for a fixed
/// window size; no result for an empty series.
pub struct WindowedSMA {
    pub window_size: usize,
}

impl MinPrice {
    /// The least price in the series, or `None` when the series is empty.
    pub fn calculate(&self, series: &Vec<i64>) -> (r: Option<i64>)
        ensures
            r is Some <==> series@.len() > 0,
            r is Some ==> r->Some_0 == min_spec(series@),
    {
        if series.len() == 0 {
            return None;
        }
        let mut m: i64 = series[0];
        let mut i: usize = 1;
        while i < series.len()
            invariant
                1 <= i <= series@.len(),
                m == min_spec(series@.subrange(0, i as int)),
            decreases series@.len() - i,
        {
            proof {
                assert(series@.subrange(0, i + 1).drop_last() =~= series@.subrange(0, i as int));
                assert(series@.subrange(0, i + 1).last() == series@[i as int]);
            }
            if series[i] < m {
                m = series[i];
            }
            i = i + 1;
        }
        proof {
            assert(series@.subrange(0, series@.len() as int) =~= series@);
        }
        Some(m)
    }
}

impl MaxPrice {
    /// The greatest price in the series, or `None` when the series is empty.
    pub fn calculate(&self, series: &Vec<i64>) -> (r: Option<i64>)
        ensures
            r is Some <==> series@.len() > 0,
            r is Some ==> r->Some_0 == max_spec(series@),
    {
        if series.len() == 0 {
            return None;
        }
        let mut m: i64 = series[0];
        let mut i: usize = 1;
        while i < series.len()
            invariant
                1 <= i <= series@.len(),
                m == max_spec(series@.subrange(0, i as int)),
            decreases series@.len() - i,
        {
            proof {
                assert(series@.subrange(0, i + 1).drop_last() =~= series@.subrange(0, i as int));
                assert(series@.subrange(0, i + 1).last() == series@[i as int]);
            }
            if series[i] > m {
                m = series[i];
            }
            i = i + 1;
        }
        proof {
            assert(series@.subrange(0, series@.len() as int) =~= series@);
        }
        Some(m)
    }
}

impl PriceDifference {
    /// The difference between the last and the first price, paired with
    /// the relative change in hundredths of a percent; `None` for an
    /// empty series.
    pub fn calculate(&self, series: &Vec<i64>) -> (r: Option<(i64, i64)>)
        requires
            forall|i: int| 0 <= i < series@.len() ==> valid_price(#[trigger] series@[i]),
        ensures
            r is Some <==> series@.len() > 0,
            r is Some ==> r->Some_0.0 == series@.last() - series@[0],
            r is Some ==> r->Some_0.1 == rel_change_spec(series@[0] as int, series@.last() as int),
    {
        let n = series.len();
        if n == 0 {
            return None;
        }
        let first = series[0];
        let last = series[n - 1];
        assert(valid_price(series@[0]));
        assert(valid_price(series@[n - 1]));
        let diff: i64 = last - first;
        let rel: i64;
        if first == 0 {
            rel = 0;
        } else {
            let num_mag: u64 = if diff < 0 {
                (-diff) as u64
            } else {
                diff as u64
            };
            let den_mag: u64 = if first < 0 {
                (-first) as u64
            } else {
                first as u64
            };
            let scaled: u64 = num_mag * 10000;
            let q: u64 = scaled / den_mag;
            proof {
                lemma_div_nonincreasing(scaled as int, den_mag as int);
            }
            rel = if (diff < 0) != (first < 0) {
                -(q as i64)
            } else {
                q as i64
            };
            assert(scaled as int == abs((last - first) * 10000));
            assert(den_mag as int == abs(first as int));
        }
        Some((diff, rel))
    }
}

impl WindowedSMA {
    /// The sequence of trailing means, one per position from index
    /// `window_size - 1` onward; an empty sequence when the series is
    /// shorter than the window; `None` for an empty series.
    pub fn calculate(&self, series: &Vec<i64>) -> (r: Option<Vec<i64>>)
        requires
            self.window_size >= 1,
            forall|i: int| 0 <= i < series@.len() ==> valid_price(#[trigger] series@[i]),
        ensures
            r is Some <==> series@.len() > 0,
            r is Some ==> r->Some_0@.len() == (if series@.len() < self.window_size {
                0int
            } else {
                series@.len() - self.window_size + 1
            }),
            r is Some ==> forall|k: int|
                0 <= k < r->Some_0@.len() ==> r->Some_0@[k] == sma_at(
                    series@,
                    self.window_size as int,
                    k,
                ),
    {
        if series.len() == 0 {
            return None;
        }
        let w = self.window_size;
        let n = series.len();
        let mut out: Vec<i64> = Vec::new();
        if n >= w {
            let n_out = n - w + 1;
            let mut i: usize = 0;
            while i < n_out
                invariant
                    w >= 1,
                    n == series@.len(),
                    n_out == series@.len() - w + 1,
                    w <= series@.len(),
                    0 <= i <= n_out,
                    forall|t: int| 0 <= t < series@.len() ==> valid_price(#[trigger] series@[t]),
                    out@.len() == i,
                    forall|k: int| 0 <= k < i ==> out@[k] == sma_at(series@, w as int, k),
                decreases n_out - i,
            {
                let mut acc: i128 = 0;
                let mut j: usize = i;
                proof {
                    assert(series@.subrange(i as int, i as int) =~= Seq::<i64>::empty());
                }
                while j < i + w
                    invariant
                        w >= 1,
                        0 <= i,
                        n == series@.len(),
                        i <= j <= i + w,
                        i + w <= n,
                        forall|t: int| 0 <= t < series@.len() ==> valid_price(
                            #[trigger] series@[t],
                        ),
                        acc == sum_spec(series@.subrange(i as int, j as int)),
                        -((j - i) * PRICE_LIMIT) <= acc <= (j - i) * PRICE_LIMIT,
                    decreases i + w - j,
                {
                    proof {
                        assert(series@.subrange(i as int, j + 1).drop_last() =~= series@.subrange(
                            i as int,
                            j as int,
                        ));
                        assert(series@.subrange(i as int, j + 1).last() == series@[j as int]);
                        assert(valid_price(series@[j as int]));
                        lemma_mul_inequality(j - i + 1, 0x1_0000_0000_0000_0000, PRICE_LIMIT as int);
                        assert((j - i + 1) * PRICE_LIMIT == (j - i) * PRICE_LIMIT + PRICE_LIMIT)
                            by (nonlinear_arith);
                    }
                    acc = acc + (series[j] as i128);
                    j = j + 1;
                }
                let mag: u128 = if acc < 0 {
                    (-acc) as u128
                } else {
                    acc as u128
                };
                proof {
                    lemma_mul_inequality(w as int, 0x1_0000_0000_0000_0000, PRICE_LIMIT as int);
                    lemma_div_is_ordered(mag as int, (w as int) * PRICE_LIMIT, w as int);
                    lemma_div_multiples_vanish(PRICE_LIMIT as int, w as int);
                }
                let q: u128 = mag / (w as u128);
                let m: i64 = if acc < 0 {
                    -(q as i64)
                } else {
                    q as i64
                };
                proof {
                    assert(mag as int == abs(sum_spec(series@.subrange(i as int, i + w))));
                    assert(m == sma_at(series@, w as int, i as int));
                }
                out.push(m);
                i = i + 1;
            }
        }
        Some(out)
    }
}

} // verus!
