//! Calendar dates and their text forms.

use vstd::prelude::*;

use crate::text;

verus! {

// ── Decimal numbers ─────────────────────────────────────────────────────────

/// The character of a decimal digit.
pub open spec fn digit(d: int) -> char {
    (48 + d) as char
}

/// A number in decimal, without leading zeros.
pub open spec fn decimal_spec(n: nat) -> Seq<char>
    decreases n,
{
    if n < 10 {
        seq![digit(n as int)]
    } else {
        decimal_spec(n / 10).push(digit((n % 10) as int))
    }
}

/// A number in decimal, with zeros in front up to a width.
pub open spec fn padded_spec(n: nat, width: nat) -> Seq<char> {
    let d = decimal_spec(n);
    Seq::new(
        if d.len() < width {
            (width - d.len()) as nat
        } else {
            0
        },
        |i: int| '0',
    ) + d
}

/// The digits of a number in decimal.
fn digits_of(n: u128) -> (r: Vec<char>)
    ensures
        r@ == decimal_spec(n as nat),
    decreases n,
{
    if n < 10 {
        let mut v: Vec<char> = Vec::new();
        v.push((48 + n as u8) as char);
        proof {
            assert(v@ =~= decimal_spec(n as nat));
        }
        v
    } else {
        let mut v = digits_of(n / 10);
        v.push((48 + (n % 10) as u8) as char);
        v
    }
}

/// A number in decimal.
pub fn decimal(n: u64) -> (r: String)
    ensures
        r@ == decimal_spec(n as nat),
{
    decimal_wide(n as u128)
}

/// A number of up to 128 bits in decimal.
pub fn decimal_wide(n: u128) -> (r: String)
    ensures
        r@ == decimal_spec(n as nat),
{
    text::string_of(&digits_of(n))
}

/// Different numbers have different decimal forms.
pub proof fn law_decimal_injective(a: nat, b: nat)
    requires
        decimal_spec(a) == decimal_spec(b),
    ensures
        a == b,
    decreases a + b,
{
    let x = decimal_spec(a);
    let y = decimal_spec(b);
    lemma_decimal_len(a);
    lemma_decimal_len(b);
    if a < 10 && b < 10 {
        assert(x[0] == digit(a as int) && y[0] == digit(b as int));
        lemma_digit_injective(a as int, b as int);
    } else if a >= 10 && b >= 10 {
        assert(x.last() == digit((a % 10) as int) && y.last() == digit((b % 10) as int));
        assert(x.drop_last() =~= decimal_spec(a / 10));
        assert(y.drop_last() =~= decimal_spec(b / 10));
        law_decimal_injective(a / 10, b / 10);
        lemma_digit_injective((a % 10) as int, (b % 10) as int);
    }
}

proof fn lemma_digit_injective(a: int, b: int)
    requires
        0 <= a < 10,
        0 <= b < 10,
        digit(a) == digit(b),
    ensures
        a == b,
{
    assert(digit(a) as int == 48 + a);
    assert(digit(b) as int == 48 + b);
}

proof fn lemma_decimal_len(n: nat)
    ensures
        n < 10 ==> decimal_spec(n).len() == 1,
        n >= 10 ==> decimal_spec(n).len() > 1,
    decreases n,
{
    if n >= 10 {
        lemma_decimal_len(n / 10);
    }
}

/// A number in decimal, with zeros in front up to a width.
pub fn padded(n: u64, width: usize) -> (r: String)
    ensures
        r@ == padded_spec(n as nat, width as nat),
{
    let d = digits_of(n as u128);
    let mut s = String::new();
    let fill: usize = if d.len() < width {
        width - d.len()
    } else {
        0
    };
    let mut i: usize = 0;
    while i < fill
        invariant
            i <= fill,
            s@ == Seq::new(i as nat, |k: int| '0'),
        decreases fill - i,
    {
        s.push('0');
        i += 1;
        proof {
            assert(s@ =~= Seq::new(i as nat, |k: int| '0'));
        }
    }
    let digits = text::string_of(&d);
    s.append(digits.as_str());
    s
}

// ── The calendar ────────────────────────────────────────────────────────────

/// Whether a year of the Gregorian calendar has a 29 February.
pub open spec fn is_leap(y: int) -> bool {
    y % 4 == 0 && (y % 100 != 0 || y % 400 == 0)
}

/// The number of days of a month.
pub open spec fn days_in_month(y: int, m: int) -> int {
    if m == 2 {
        if is_leap(y) {
            29
        } else {
            28
        }
    } else if m == 4 || m == 6 || m == 9 || m == 11 {
        30
    } else {
        31
    }
}

/// The number of days from the start of year 0 to the start of year `y`: 365 for each year, and
/// one for each leap year among them.
pub open spec fn days_before_year(y: int) -> int {
    365 * y + (y + 3) / 4 - (y + 99) / 100 + (y + 399) / 400
}

/// The number of days from the start of a year to the start of month `m`.
pub open spec fn days_before_month(y: int, m: int) -> int
    decreases m,
{
    if m <= 1 {
        0
    } else {
        days_before_month(y, m - 1) + days_in_month(y, m - 1)
    }
}

/// Whether a year, month and day name a date.
pub open spec fn is_date(y: int, m: int, d: int) -> bool {
    0 <= y && 1 <= m <= 12 && 1 <= d <= days_in_month(y, m)
}

/// The number of days from 1 January 1970 to a date.
pub open spec fn day_number(y: int, m: int, d: int) -> int {
    days_before_year(y) + days_before_month(y, m) + (d - 1) - 719528
}

/// A year adds its days to those before it.
proof fn lemma_next_year(y: int)
    requires
        0 <= y,
    ensures
        days_before_year(y + 1) == days_before_year(y) + (if is_leap(y) {
            366int
        } else {
            365int
        }),
{
    lemma_step_4(y);
    lemma_step_100(y);
    lemma_step_400(y);
    lemma_multiples(y);
}

proof fn lemma_step_4(y: int)
    requires
        0 <= y,
    ensures
        (y + 4) / 4 == (y + 3) / 4 + (if y % 4 == 0 {
            1int
        } else {
            0int
        }),
{
}

proof fn lemma_step_100(y: int)
    requires
        0 <= y,
    ensures
        (y + 100) / 100 == (y + 99) / 100 + (if y % 100 == 0 {
            1int
        } else {
            0int
        }),
{
}

proof fn lemma_step_400(y: int)
    requires
        0 <= y,
    ensures
        (y + 400) / 400 == (y + 399) / 400 + (if y % 400 == 0 {
            1int
        } else {
            0int
        }),
{
}

proof fn lemma_multiples(y: int)
    requires
        0 <= y,
    ensures
        y % 400 == 0 ==> y % 100 == 0,
        y % 100 == 0 ==> y % 4 == 0,
{
    let a = y / 400;
    let b = y / 100;
    assert(y % 400 == 0 ==> y == 100 * (4 * a));
    assert(y % 100 == 0 ==> y == 4 * (25 * b));
}

proof fn lemma_months(y: int)
    ensures
        days_before_month(y, 1) == 0,
        days_before_month(y, 2) == 31,
        days_before_month(y, 3) == if is_leap(y) {
            60int
        } else {
            59int
        },
        days_before_month(y, 4) == days_before_month(y, 3) + 31,
        days_before_month(y, 5) == days_before_month(y, 3) + 61,
        days_before_month(y, 6) == days_before_month(y, 3) + 92,
        days_before_month(y, 7) == days_before_month(y, 3) + 122,
        days_before_month(y, 8) == days_before_month(y, 3) + 153,
        days_before_month(y, 9) == days_before_month(y, 3) + 184,
        days_before_month(y, 10) == days_before_month(y, 3) + 214,
        days_before_month(y, 11) == days_before_month(y, 3) + 245,
        days_before_month(y, 12) == days_before_month(y, 3) + 275,
{
    reveal_with_fuel(days_before_month, 13);
}

/// The year within a cycle of 400 years that starts in March, from the day within the cycle.
proof fn lemma_year_of_era(doe: int)
    requires
        0 <= doe < 146097,
    ensures
        ({
            let yoe = (doe - doe / 1460 + doe / 36524 - doe / 146096) / 365;
            let doy = doe - (365 * yoe + yoe / 4 - yoe / 100);
            &&& 0 <= yoe < 400
            &&& 0 <= doy <= 365
            &&& doy == 365 ==> is_leap(yoe + 1)
        }),
{
    let c = doe / 36524;
    let yoe = (doe - doe / 1460 + doe / 36524 - doe / 146096) / 365;
    assert(0 <= c <= 4);
}

/// Leap years repeat every 400 years.
proof fn lemma_leap_cycle(yoe: int, era: int)
    requires
        0 <= yoe,
        0 <= era,
    ensures
        is_leap(yoe + 400 * era) == is_leap(yoe),
        is_leap(yoe + 1 + 400 * era) == is_leap(yoe + 1),
{
    lemma_mod_cycle(yoe, era);
    lemma_mod_cycle(yoe + 1, era);
}

proof fn lemma_mod_cycle(y: int, era: int)
    ensures
        (y + 400 * era) % 4 == y % 4,
        (y + 400 * era) % 100 == y % 100,
        (y + 400 * era) % 400 == y % 400,
{
    vstd::arithmetic::div_mod::lemma_mod_multiples_vanish(100 * era, y, 4);
    vstd::arithmetic::div_mod::lemma_mod_multiples_vanish(4 * era, y, 100);
    vstd::arithmetic::div_mod::lemma_mod_multiples_vanish(era, y, 400);
}

/// The days from 1 March of year 0 to 1 March of year `yoe + 400 * era`.
proof fn lemma_march(yoe: int, era: int)
    requires
        0 <= yoe < 400,
        0 <= era,
    ensures
        days_before_year(yoe + 400 * era) + days_before_month(yoe + 400 * era, 3) == 60 + 146097
            * era + 365 * yoe + yoe / 4 - yoe / 100,
{
    let y = yoe + 400 * era;
    lemma_months(y);
    lemma_leap_cycle(yoe, era);
    assert((y + 3) / 4 == 100 * era + (yoe + 3) / 4);
    assert((y + 99) / 100 == 4 * era + (yoe + 99) / 100);
    assert((y + 399) / 400 == era + (yoe + 399) / 400);
    assert((yoe + 3) / 4 - (yoe + 99) / 100 + (yoe + 399) / 400 + (if is_leap(yoe) {
        1int
    } else {
        0int
    }) == yoe / 4 - yoe / 100 + 1);
}

/// The month that starts in March, and the day within it, from the day within the year that
/// starts in March.
proof fn lemma_month_of_year(doy: int)
    requires
        0 <= doy <= 365,
    ensures
        ({
            let mp = (5 * doy + 2) / 153;
            let start = (153 * mp + 2) / 5;
            &&& 0 <= mp <= 11
            &&& start <= doy
            &&& mp == 0 ==> start == 0 && doy < 31
            &&& mp == 1 ==> start == 31 && doy < 61
            &&& mp == 2 ==> start == 61 && doy < 92
            &&& mp == 3 ==> start == 92 && doy < 122
            &&& mp == 4 ==> start == 122 && doy < 153
            &&& mp == 5 ==> start == 153 && doy < 184
            &&& mp == 6 ==> start == 184 && doy < 214
            &&& mp == 7 ==> start == 214 && doy < 245
            &&& mp == 8 ==> start == 245 && doy < 275
            &&& mp == 9 ==> start == 275 && doy < 306
            &&& mp == 10 ==> start == 306 && doy < 337
            &&& mp == 11 ==> start == 337
        }),
{
}

/// The date that a day within a March-based year of a 400-year cycle is.
proof fn lemma_civil(days: int, era: int, yoe: int, doy: int)
    requires
        0 <= era,
        0 <= yoe < 400,
        0 <= doy <= 365,
        doy == 365 ==> is_leap(yoe + 1),
        days + 719468 == 146097 * era + 365 * yoe + yoe / 4 - yoe / 100 + doy,
    ensures
        ({
            let y0 = yoe + 400 * era;
            let mp = (5 * doy + 2) / 153;
            let d = doy - (153 * mp + 2) / 5 + 1;
            let m = if mp < 10 {
                mp + 3
            } else {
                mp - 9
            };
            let y = if m <= 2 {
                y0 + 1
            } else {
                y0
            };
            &&& is_date(y, m, d)
            &&& day_number(y, m, d) == days
        }),
{
    let y0 = yoe + 400 * era;
    lemma_march(yoe, era);
    lemma_month_of_year(doy);
    lemma_months(y0);
    lemma_months(y0 + 1);
    lemma_next_year(y0);
    lemma_leap_cycle(yoe, era);
}

/// The date of a day number.
pub fn days_to_ymd(days: u64) -> (r: (u64, u64, u64))
    requires
        days <= u64::MAX - 719468,
    ensures
        is_date(r.0 as int, r.1 as int, r.2 as int),
        day_number(r.0 as int, r.1 as int, r.2 as int) == days,
{
    let z: u64 = days + 719468;
    let era: u64 = z / 146097;
    let doe: u64 = z % 146097;
    proof {
        lemma_year_of_era(doe as int);
    }
    let yoe: u64 = (doe - doe / 1460 + doe / 36524 - doe / 146096) / 365;
    let y0: u64 = yoe + era * 400;
    let doy: u64 = doe - (365 * yoe + yoe / 4 - yoe / 100);
    proof {
        lemma_month_of_year(doy as int);
        lemma_civil(days as int, era as int, yoe as int, doy as int);
    }
    let mp: u64 = (5 * doy + 2) / 153;
    let d: u64 = doy - (153 * mp + 2) / 5 + 1;
    let m: u64 = if mp < 10 {
        mp + 3
    } else {
        mp - 9
    };
    let y: u64 = if m <= 2 {
        y0 + 1
    } else {
        y0
    };
    (y, m, d)
}

/// Two dates with the same day number are the same date.
pub proof fn law_day_number_unique(y1: int, m1: int, d1: int, y2: int, m2: int, d2: int)
    requires
        is_date(y1, m1, d1),
        is_date(y2, m2, d2),
        day_number(y1, m1, d1) == day_number(y2, m2, d2),
    ensures
        y1 == y2 && m1 == m2 && d1 == d2,
{
    lemma_date_in_year(y1, m1, d1);
    lemma_date_in_year(y2, m2, d2);
    if y1 < y2 {
        lemma_years_ascend(y1 + 1, y2);
    } else if y2 < y1 {
        lemma_years_ascend(y2 + 1, y1);
    }
    lemma_months(y1);
}

proof fn lemma_years_ascend(a: int, b: int)
    requires
        0 <= a <= b,
    ensures
        days_before_year(a) <= days_before_year(b),
    decreases b - a,
{
    if a < b {
        lemma_next_year(a);
        lemma_years_ascend(a + 1, b);
    }
}

/// A date lies within its year.
proof fn lemma_date_in_year(y: int, m: int, d: int)
    requires
        is_date(y, m, d),
    ensures
        days_before_year(y) <= day_number(y, m, d) + 719528 < days_before_year(y + 1),
{
    lemma_months(y);
    lemma_next_year(y);
}

// ── Text forms ──────────────────────────────────────────────────────────────

/// The seconds of a timestamp, where one before the epoch counts as the epoch.
pub open spec fn epoch_seconds(ts: i64) -> int {
    if ts < 0 {
        0
    } else {
        ts as int
    }
}

/// The text `YYYY-MM-DD hh:mmZ` of a date and a time of day.
pub open spec fn timestamp_text(y: int, m: int, d: int, hour: int, minute: int) -> Seq<char> {
    padded_spec(y as nat, 4).push('-') + padded_spec(m as nat, 2).push('-') + padded_spec(
        d as nat,
        2,
    ).push(' ') + padded_spec(hour as nat, 2).push(':') + padded_spec(minute as nat, 2).push('Z')
}

/// A timestamp as `YYYY-MM-DD hh:mmZ`.
pub fn format_timestamp(ts: i64) -> (r: String)
    ensures
        exists|y: int, m: int, d: int|
            #![trigger is_date(y, m, d)]
            is_date(y, m, d) && day_number(y, m, d) == epoch_seconds(ts) / 86400 && r@
                == timestamp_text(
                y,
                m,
                d,
                (epoch_seconds(ts) % 86400) / 3600,
                (epoch_seconds(ts) % 3600) / 60,
            ),
{
    let secs: u64 = if ts < 0 {
        0
    } else {
        ts as u64
    };
    let (y, m, d) = days_to_ymd(secs / 86400);
    let h: u64 = (secs % 86400) / 3600;
    let min: u64 = (secs % 3600) / 60;
    let mut s = padded(y, 4);
    s.push('-');
    s.append(padded(m, 2).as_str());
    s.push('-');
    s.append(padded(d, 2).as_str());
    s.push(' ');
    s.append(padded(h, 2).as_str());
    s.push(':');
    s.append(padded(min, 2).as_str());
    s.push('Z');
    proof {
        assert(s@ =~= timestamp_text(y as int, m as int, d as int, h as int, min as int));
        assert(is_date(y as int, m as int, d as int));
    }
    s
}

/// The text of a moment in the form that the Confluence API takes. Years have 365 days and
/// months 30, and the time of day is left out.
pub open spec fn confluence_datetime_spec(ts: i64) -> Seq<char> {
    let days = epoch_seconds(ts) / 86400;
    padded_spec((1970 + days / 365) as nat, 4).push('-') + padded_spec(
        ((days % 365) / 30 + 1) as nat,
        2,
    ).push('-') + padded_spec(((days % 365) % 30 + 1) as nat, 2) + "T00:00:00.000Z"@
}

/// The text of a moment in the form that the Confluence API takes.
pub fn format_confluence_datetime(ts: i64) -> (r: String)
    ensures
        r@ == confluence_datetime_spec(ts),
{
    let secs: u64 = if ts < 0 {
        0
    } else {
        ts as u64
    };
    let days: u64 = secs / 86400;
    let mut s = padded(1970 + days / 365, 4);
    s.push('-');
    s.append(padded((days % 365) / 30 + 1, 2).as_str());
    s.push('-');
    s.append(padded((days % 365) % 30 + 1, 2).as_str());
    s.append("T00:00:00.000Z");
    proof {
        assert(s@ =~= confluence_datetime_spec(ts));
    }
    s
}

// ── Reading ─────────────────────────────────────────────────────────────────

/// The value of decimal digits, where there are only digits.
pub open spec fn digits_value(b: Seq<u8>) -> Option<int>
    decreases b.len(),
{
    if b.len() == 0 {
        Some(0)
    } else if 48 <= b.last() <= 57 {
        match digits_value(b.drop_last()) {
            Some(v) => Some(v * 10 + (b.last() - 48)),
            None => None,
        }
    } else {
        None
    }
}

/// The value of a decimal number: digits behind an optional sign.
pub open spec fn number_value(b: Seq<u8>) -> Option<int> {
    if b.len() == 0 {
        None
    } else if b[0] == 43 || b[0] == 45 {
        if b.len() == 1 {
            None
        } else {
            match digits_value(b.subrange(1, b.len() as int)) {
                Some(v) => Some(
                    if b[0] == 45 {
                        -v
                    } else {
                        v
                    },
                ),
                None => None,
            }
        }
    } else {
        digits_value(b)
    }
}

/// The moment that a text such as `2024-01-15T12:34:56.789Z` names, in seconds since the epoch.
/// Years have 365 days and months 30.
pub open spec fn iso8601_spec(b: Seq<u8>) -> Option<int> {
    if b.len() < 19 {
        None
    } else {
        match (
            number_value(b.subrange(0, 4)),
            number_value(b.subrange(5, 7)),
            number_value(b.subrange(8, 10)),
            number_value(b.subrange(11, 13)),
            number_value(b.subrange(14, 16)),
            number_value(b.subrange(17, 19)),
        ) {
            (Some(y), Some(mo), Some(d), Some(h), Some(mi), Some(s)) => Some(
                ((y - 1970) * 365 + (mo - 1) * 30 + (d - 1)) * 86400 + h * 3600 + mi * 60 + s,
            ),
            _ => None,
        }
    }
}

/// The number at positions `from..to`, at most four bytes long.
fn number_at(b: &[u8], from: usize, to: usize) -> (r: Option<i64>)
    requires
        from < to <= b@.len(),
        to - from <= 4,
    ensures
        match r {
            Some(v) => number_value(b@.subrange(from as int, to as int)) == Some(v as int) && -9999
                <= v <= 9999,
            None => number_value(b@.subrange(from as int, to as int)) is None,
        },
{
    let ghost part = b@.subrange(from as int, to as int);
    let signed = b[from] == 43 || b[from] == 45;
    let start: usize = if signed {
        from + 1
    } else {
        from
    };
    if start == to {
        return None;
    }
    let ghost ds = b@.subrange(start as int, to as int);
    proof {
        if signed {
            assert(part.subrange(1, part.len() as int) =~= ds);
        } else {
            assert(part =~= ds);
        }
        assert(ds.take(0) =~= Seq::<u8>::empty());
    }
    let mut v: i64 = 0;
    let mut bound: i64 = 1;
    let mut i: usize = start;
    while i < to
        invariant
            from <= start <= i <= to <= b@.len(),
            to - from <= 4,
            ds == b@.subrange(start as int, to as int),
            part == b@.subrange(from as int, to as int),
            start < to,
            signed == (b@[from as int] == 43 || b@[from as int] == 45),
            signed ==> part.subrange(1, part.len() as int) == ds,
            !signed ==> part == ds,
            digits_value(ds.take(i - start)) == Some(v as int),
            0 <= v < bound,
            i - start == 0 ==> bound == 1,
            i - start == 1 ==> bound == 10,
            i - start == 2 ==> bound == 100,
            i - start == 3 ==> bound == 1000,
            i - start == 4 ==> bound == 10000,
        decreases to - i,
    {
        let ghost t = ds.take(i - start + 1);
        proof {
            assert(t.drop_last() =~= ds.take(i - start));
            assert(t.last() == b@[i as int]);
        }
        if b[i] < 48 || b[i] > 57 {
            proof {
                lemma_bad_digit(ds, i - start + 1);
            }
            return None;
        }
        v = v * 10 + (b[i] - 48) as i64;
        bound = bound * 10;
        i += 1;
    }
    proof {
        assert(ds.take(to - start) =~= ds);
    }
    if signed && b[from] == 45 {
        Some(-v)
    } else {
        Some(v)
    }
}

/// A prefix that is no number spoils the whole.
proof fn lemma_bad_digit(b: Seq<u8>, n: int)
    requires
        0 <= n <= b.len(),
        digits_value(b.take(n)) is None,
    ensures
        digits_value(b) is None,
    decreases b.len() - n,
{
    if n == b.len() {
        assert(b.take(n) =~= b);
    } else {
        assert(b.take(n + 1).drop_last() =~= b.take(n));
        lemma_bad_digit(b, n + 1);
    }
}

/// The moment that a text such as `2024-01-15T12:34:56.789Z` names, roughly. A field that holds part
/// of a character is no number.
pub fn parse_iso8601(s: &str) -> (r: Option<i64>)
    ensures
        match r {
            Some(v) => iso8601_spec(vstd::utf8::encode_utf8(s@)) == Some(v as int),
            None => iso8601_spec(vstd::utf8::encode_utf8(s@)) is None,
        },
{
    let b = s.as_bytes();
    if b.len() < 19 {
        return None;
    }
    match (
        number_at(b, 0, 4),
        number_at(b, 5, 7),
        number_at(b, 8, 10),
        number_at(b, 11, 13),
        number_at(b, 14, 16),
        number_at(b, 17, 19),
    ) {
        (Some(y), Some(mo), Some(d), Some(h), Some(mi), Some(sec)) => Some(
            ((y - 1970) * 365 + (mo - 1) * 30 + (d - 1)) * 86400 + h * 3600 + mi * 60 + sec,
        ),
        _ => None,
    }
}

} // verus!
