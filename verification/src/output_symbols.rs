//! The sink-side data model: one output row per symbol per run, and the
//! exact CSV encoding of the header and of each row.
//!
//! Fixed-point amounts (hundredths) are rendered with two decimals;
//! prices carry a leading `$`, the change a trailing `%`. The period
//! start is rendered by chrono as an RFC 3339 timestamp.
use vstd::math::abs;
use vstd::prelude::*;
use vstd::string::StrSliceExecFns;
use vstd::utf8::encode_utf8;

verus! {

/// One CSV row's worth of statistics for a symbol, built by the row
/// assembler and consumed once by the sink. `beginning` is the period
/// start in Unix seconds; `last_price`, `period_min`, `period_max` and
/// `sma` are prices in hundredths of a currency unit; `pct_change` is in
/// hundredths of a percent.
pub struct OutputSymbolsData {
    pub beginning: i64,
    pub symbol: String,
    pub last_price: i64,
    pub pct_change: i64,
    pub period_min: i64,
    pub period_max: i64,
    pub sma: i64,
}

/// The first Unix second the RFC 3339 rendering covers with a four-digit
/// year (0000-01-01T00:00:00Z).
pub const MIN_TIMESTAMP: i64 = -62_167_219_200;

/// The last Unix second the RFC 3339 rendering covers with a four-digit
/// year (9999-12-31T23:59:59Z).
pub const MAX_TIMESTAMP: i64 = 253_402_300_799;

/// The bytes chrono renders for a Unix timestamp as an RFC 3339 string.
pub uninterp spec fn rfc3339_of(ts: int) -> Seq<u8>;

/// Relies on chrono's `DateTime::<Utc>::from_timestamp` and
/// `DateTime::to_rfc3339`: with the zone fixed to UTC, the rendering is
/// a function of the timestamp alone; `from_timestamp` is `Some` over
/// the whole admitted range (years 0 through 9999), and the rendering is
/// made of digits and the separators `-T:+.Z`, so it never contains a
/// comma or a newline.
#[verifier::external_body]
fn rfc3339_bytes(ts: i64) -> (r: Vec<u8>)
    requires
        MIN_TIMESTAMP <= ts <= MAX_TIMESTAMP,
    ensures
        r@ == rfc3339_of(ts as int),
        forall|i: int| 0 <= i < r@.len() ==> #[trigger] r@[i] != 44u8 && r@[i] != 10u8,
{
    match chrono::DateTime::<chrono::Utc>::from_timestamp(ts, 0) {
        Some(dt) => dt.to_rfc3339().into_bytes(),
        None => Vec::new(),
    }
}

/// The decimal digits of `n`, most significant first, as ASCII bytes.
pub open spec fn digits_spec(n: nat) -> Seq<u8>
    decreases n,
{
    if n < 10 {
        seq![(48 + n) as u8]
    } else {
        digits_spec(n / 10).push((48 + n % 10) as u8)
    }
}

/// A fixed-point amount in hundredths, rendered with a minus sign for
/// negative values, the whole part, a dot, and exactly two decimals.
pub open spec fn fixed2_spec(v: int) -> Seq<u8> {
    let m = abs(v);
    let frac = m % 100;
    (if v < 0 {
        seq![45u8]
    } else {
        Seq::<u8>::empty()
    }) + digits_spec((m / 100) as nat) + seq![46u8, (48 + frac / 10) as u8, (48 + frac % 10) as u8]
}

/// A price amount: `$` followed by the two-decimal rendering.
pub open spec fn money_spec(v: int) -> Seq<u8> {
    seq![36u8] + fixed2_spec(v)
}

/// A percentage amount: the two-decimal rendering followed by `%`.
pub open spec fn pct_spec(v: int) -> Seq<u8> {
    fixed2_spec(v) + seq![37u8]
}

/// A symbol that can stand in a CSV row: its UTF-8 encoding is
/// non-empty and free of the field and record separators. (A byte of a
/// multi-byte character is never one of those, so any separator-free
/// string qualifies.)
pub open spec fn wf_symbol(s: Seq<char>) -> bool {
    &&& encode_utf8(s).len() > 0
    &&& forall|i: int|
        0 <= i < encode_utf8(s).len() ==> #[trigger] encode_utf8(s)[i] != 44u8 && encode_utf8(
            s,
        )[i] != 10u8
}

impl OutputSymbolsData {
    /// A row the CSV encoder accepts: a well-formed symbol, a timestamp
    /// the RFC 3339 rendering covers, and amounts whose magnitude the
    /// renderer can take.
    pub open spec fn wf(&self) -> bool {
        &&& wf_symbol(self.symbol@)
        &&& MIN_TIMESTAMP <= self.beginning <= MAX_TIMESTAMP
        &&& self.last_price > i64::MIN
        &&& self.pct_change > i64::MIN
        &&& self.period_min > i64::MIN
        &&& self.period_max > i64::MIN
        &&& self.sma > i64::MIN
    }
}

/// Decides whether a string can stand as a symbol in a CSV row.
pub fn check_symbol(s: &str) -> (r: bool)
    ensures
        r == wf_symbol(s@),
{
    let bytes = s.as_bytes_vec();
    let n = bytes.len();
    if n == 0 {
        return false;
    }
    let mut i: usize = 0;
    while i < n
        invariant
            n == bytes@.len(),
            bytes@ == encode_utf8(s@),
            0 <= i <= n,
            forall|k: int|
                0 <= k < i ==> #[trigger] encode_utf8(s@)[k] != 44u8 && encode_utf8(s@)[k] != 10u8,
        decreases n - i,
    {
        let b = bytes[i];
        if b == 44 || b == 10 {
            return false;
        }
        i = i + 1;
    }
    true
}

/// The decimal digits of `n`, most significant first.
fn fmt_u64(n: u64) -> (r: Vec<u8>)
    ensures
        r@ == digits_spec(n as nat),
    decreases n,
{
    if n < 10 {
        let mut v: Vec<u8> = Vec::new();
        v.push((48 + n) as u8);
        proof {
            assert(v@ =~= digits_spec(n as nat));
        }
        v
    } else {
        let mut v = fmt_u64(n / 10);
        v.push((48 + n % 10) as u8);
        v
    }
}

/// Renders a fixed-point amount in hundredths with two decimals.
fn fmt_fixed2(v: i64) -> (r: Vec<u8>)
    requires
        v > i64::MIN,
    ensures
        r@ == fixed2_spec(v as int),
{
    let mag: u64 = if v < 0 {
        (-v) as u64
    } else {
        v as u64
    };
    let whole: u64 = mag / 100;
    let frac: u64 = mag % 100;
    let mut out: Vec<u8> = Vec::new();
    if v < 0 {
        out.push(45);
    }
    let mut ds = fmt_u64(whole);
    out.append(&mut ds);
    out.push(46);
    out.push((48 + frac / 10) as u8);
    out.push((48 + frac % 10) as u8);
    proof {
        assert(mag as int == abs(v as int));
        assert(out@ =~= fixed2_spec(v as int));
    }
    out
}

/// Renders a price amount with its currency prefix.
fn fmt_money(v: i64) -> (r: Vec<u8>)
    requires
        v > i64::MIN,
    ensures
        r@ == money_spec(v as int),
{
    let mut out: Vec<u8> = Vec::new();
    out.push(36);
    let mut f = fmt_fixed2(v);
    out.append(&mut f);
    proof {
        assert(out@ =~= money_spec(v as int));
    }
    out
}

/// The fixed CSV header line, newline-terminated.
pub fn csv_header() -> (r: Vec<u8>)
    ensures
        r@ == encode_utf8("period start,symbol,price,change %,min,max,30d avg\n"@),
{
    let s: &str = "period start,symbol,price,change %,min,max,30d avg\n";
    s.as_bytes_vec()
}

/// How often the byte `b` occurs in `s`.
pub open spec fn count_byte(s: Seq<u8>, b: u8) -> int
    decreases s.len(),
{
    if s.len() == 0 {
        0
    } else {
        count_byte(s.drop_last(), b) + (if s.last() == b {
            1int
        } else {
            0int
        })
    }
}

proof fn lemma_count_concat(a: Seq<u8>, c: Seq<u8>, b: u8)
    ensures
        count_byte(a + c, b) == count_byte(a, b) + count_byte(c, b),
    decreases c.len(),
{
    if c.len() == 0 {
        assert(a + c =~= a);
    } else {
        lemma_count_concat(a, c.drop_last(), b);
        assert((a + c).drop_last() =~= a + c.drop_last());
        assert((a + c).last() == c.last());
    }
}

proof fn lemma_count_absent(s: Seq<u8>, b: u8)
    requires
        forall|i: int| 0 <= i < s.len() ==> s[i] != b,
    ensures
        count_byte(s, b) == 0,
    decreases s.len(),
{
    if s.len() > 0 {
        assert(forall|i: int| 0 <= i < s.len() - 1 ==> s.drop_last()[i] == s[i]);
        lemma_count_absent(s.drop_last(), b);
    }
}

/// Every byte of a decimal rendering is a digit.
proof fn lemma_digits_are_digits(n: nat)
    ensures
        forall|i: int| 0 <= i < digits_spec(n).len() ==> 48 <= #[trigger] digits_spec(n)[i] <= 57,
    decreases n,
{
    if n >= 10 {
        lemma_digits_are_digits(n / 10);
        assert(forall|i: int|
            0 <= i < digits_spec(n).len() - 1 ==> digits_spec(n)[i] == digits_spec(n / 10)[i]);
        assert(digits_spec(n).last() == (48 + n % 10) as u8);
    }
}

/// A two-decimal rendering holds neither a field nor a record separator.
proof fn lemma_fixed2_counts(v: int)
    ensures
        count_byte(fixed2_spec(v), 44u8) == 0,
        count_byte(fixed2_spec(v), 10u8) == 0,
{
    let m = abs(v);
    let frac = (m as int) % 100;
    let sign: Seq<u8> = if v < 0 {
        seq![45u8]
    } else {
        Seq::<u8>::empty()
    };
    let digs = digits_spec((m as int / 100) as nat);
    let tail = seq![46u8, (48 + frac / 10) as u8, (48 + frac % 10) as u8];
    lemma_digits_are_digits((m as int / 100) as nat);
    assert(0 <= frac < 100);
    assert(0 <= frac / 10 <= 9);
    assert(forall|i: int| 0 <= i < sign.len() ==> sign[i] != 44u8 && sign[i] != 10u8);
    assert(forall|i: int| 0 <= i < tail.len() ==> tail[i] != 44u8 && tail[i] != 10u8);
    lemma_count_absent(sign, 44u8);
    lemma_count_absent(sign, 10u8);
    lemma_count_absent(digs, 44u8);
    lemma_count_absent(digs, 10u8);
    lemma_count_absent(tail, 44u8);
    lemma_count_absent(tail, 10u8);
    lemma_count_concat(sign, digs, 44u8);
    lemma_count_concat(sign, digs, 10u8);
    lemma_count_concat(sign + digs, tail, 44u8);
    lemma_count_concat(sign + digs, tail, 10u8);
}

proof fn lemma_money_counts(v: int)
    ensures
        count_byte(money_spec(v), 44u8) == 0,
        count_byte(money_spec(v), 10u8) == 0,
{
    lemma_fixed2_counts(v);
    lemma_count_absent(seq![36u8], 44u8);
    lemma_count_absent(seq![36u8], 10u8);
    lemma_count_concat(seq![36u8], fixed2_spec(v), 44u8);
    lemma_count_concat(seq![36u8], fixed2_spec(v), 10u8);
}

proof fn lemma_pct_counts(v: int)
    ensures
        count_byte(pct_spec(v), 44u8) == 0,
        count_byte(pct_spec(v), 10u8) == 0,
{
    lemma_fixed2_counts(v);
    lemma_count_absent(seq![37u8], 44u8);
    lemma_count_absent(seq![37u8], 10u8);
    lemma_count_concat(fixed2_spec(v), seq![37u8], 44u8);
    lemma_count_concat(fixed2_spec(v), seq![37u8], 10u8);
}

/// A row whose period-start rendering is free of separators splits into
/// exactly seven CSV fields and carries its only newline at the end.
proof fn lemma_row_counts(row: OutputSymbolsData, ts_bytes: Seq<u8>)
    requires
        row.wf(),
        ts_bytes == rfc3339_of(row.beginning as int),
        forall|i: int| 0 <= i < ts_bytes.len() ==> #[trigger] ts_bytes[i] != 44u8 && ts_bytes[i]
            != 10u8,
    ensures
        count_byte(row_bytes_spec(row), 44u8) == 6,
        count_byte(row_bytes_spec(row), 10u8) == 1,
{
    let c = seq![44u8];
    let nl = seq![10u8];
    let sym = encode_utf8(row.symbol@);
    let m1 = money_spec(row.last_price as int);
    let p = pct_spec(row.pct_change as int);
    let m2 = money_spec(row.period_min as int);
    let m3 = money_spec(row.period_max as int);
    let m4 = money_spec(row.sma as int);
    lemma_count_absent(ts_bytes, 44u8);
    lemma_count_absent(ts_bytes, 10u8);
    lemma_count_absent(sym, 44u8);
    lemma_count_absent(sym, 10u8);
    lemma_money_counts(row.last_price as int);
    lemma_money_counts(row.period_min as int);
    lemma_money_counts(row.period_max as int);
    lemma_money_counts(row.sma as int);
    lemma_pct_counts(row.pct_change as int);
    assert(count_byte(Seq::<u8>::empty(), 44u8) == 0);
    assert(count_byte(Seq::<u8>::empty(), 10u8) == 0);
    assert(c.drop_last() =~= Seq::<u8>::empty());
    assert(nl.drop_last() =~= Seq::<u8>::empty());
    assert(count_byte(c, 44u8) == 1 && count_byte(c, 10u8) == 0);
    assert(count_byte(nl, 44u8) == 0 && count_byte(nl, 10u8) == 1);
    let t1 = ts_bytes + c;
    let t2 = t1 + sym;
    let t3 = t2 + c;
    let t4 = t3 + m1;
    let t5 = t4 + c;
    let t6 = t5 + p;
    let t7 = t6 + c;
    let t8 = t7 + m2;
    let t9 = t8 + c;
    let t10 = t9 + m3;
    let t11 = t10 + c;
    let t12 = t11 + m4;
    lemma_count_concat(ts_bytes, c, 44u8);
    lemma_count_concat(t1, sym, 44u8);
    lemma_count_concat(t2, c, 44u8);
    lemma_count_concat(t3, m1, 44u8);
    lemma_count_concat(t4, c, 44u8);
    lemma_count_concat(t5, p, 44u8);
    lemma_count_concat(t6, c, 44u8);
    lemma_count_concat(t7, m2, 44u8);
    lemma_count_concat(t8, c, 44u8);
    lemma_count_concat(t9, m3, 44u8);
    lemma_count_concat(t10, c, 44u8);
    lemma_count_concat(t11, m4, 44u8);
    lemma_count_concat(t12, nl, 44u8);
    lemma_count_concat(ts_bytes, c, 10u8);
    lemma_count_concat(t1, sym, 10u8);
    lemma_count_concat(t2, c, 10u8);
    lemma_count_concat(t3, m1, 10u8);
    lemma_count_concat(t4, c, 10u8);
    lemma_count_concat(t5, p, 10u8);
    lemma_count_concat(t6, c, 10u8);
    lemma_count_concat(t7, m2, 10u8);
    lemma_count_concat(t8, c, 10u8);
    lemma_count_concat(t9, m3, 10u8);
    lemma_count_concat(t10, c, 10u8);
    lemma_count_concat(t11, m4, 10u8);
    lemma_count_concat(t12, nl, 10u8);
    assert(row_bytes_spec(row) == t12 + nl);
}

/// The exact CSV encoding of one row: the RFC 3339 period start, the
/// symbol, the last price, the percentage change, the minimum, the
/// maximum, and the moving average, comma-separated and
/// newline-terminated.
pub open spec fn row_bytes_spec(row: OutputSymbolsData) -> Seq<u8> {
    rfc3339_of(row.beginning as int) + seq![44u8] + encode_utf8(row.symbol@) + seq![44u8]
        + money_spec(row.last_price as int) + seq![44u8] + pct_spec(row.pct_change as int)
        + seq![44u8] + money_spec(row.period_min as int) + seq![44u8] + money_spec(
        row.period_max as int,
    ) + seq![44u8] + money_spec(row.sma as int) + seq![10u8]
}

/// Serializes one output row as a CSV line: it splits into exactly seven
/// fields, and its only newline stands at the end.
pub fn csv_row(row: &OutputSymbolsData) -> (r: Vec<u8>)
    requires
        row.wf(),
    ensures
        r@ == row_bytes_spec(*row),
        count_byte(r@, 44u8) == 6,
        count_byte(r@, 10u8) == 1,
        r@.len() > 0 && r@.last() == 10u8,
{
    let ts = rfc3339_bytes(row.beginning);
    proof {
        lemma_row_counts(*row, ts@);
    }
    let mut out = ts;
    out.push(44);
    let mut sb = row.symbol.as_str().as_bytes_vec();
    out.append(&mut sb);
    out.push(44);
    let mut f1 = fmt_money(row.last_price);
    out.append(&mut f1);
    out.push(44);
    let mut f2 = fmt_fixed2(row.pct_change);
    out.append(&mut f2);
    out.push(37);
    out.push(44);
    let mut f3 = fmt_money(row.period_min);
    out.append(&mut f3);
    out.push(44);
    let mut f4 = fmt_money(row.period_max);
    out.append(&mut f4);
    out.push(44);
    let mut f5 = fmt_money(row.sma);
    out.append(&mut f5);
    out.push(10);
    proof {
        assert(out@ =~= row_bytes_spec(*row));
    }
    out
}

} // verus!
