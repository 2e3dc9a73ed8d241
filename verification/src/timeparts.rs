use vstd::prelude::*;
use vstd::arithmetic::div_mod::lemma_fundamental_div_mod;

verus! {

pub const NANOS_IN_SEC: i64 = 1_000_000_000;

/// The widest bucket is a leap year: 366 days of nanoseconds.
pub const MAX_BUCKET_WIDTH: i64 = 31_622_400_000_000_000;

/// The largest timestamp the partition mapping accepts: one maximal bucket
/// below `i64::MAX`, so that the upper bucket bound cannot overflow.
pub const MAX_PARTITION_TS: i64 = 9_191_749_636_854_775_807;

/// `p` occurs in `s` starting at position `i`.
pub open spec fn matches_at(s: Seq<char>, p: Seq<char>, i: int) -> bool {
    forall|k: int| 0 <= k < p.len() ==> s[i + k] == p[k]
}

/// Plain substring containment.
pub open spec fn str_has(s: Seq<char>, p: Seq<char>) -> bool {
    exists|i: int| 0 <= i && i + p.len() <= s.len() && matches_at(s, p, i)
}

/// True exactly when `pat` occurs in `s` as a substring.
pub fn contains_sub(s: &str, pat: &str) -> (b: bool)
    ensures
        b == str_has(s@, pat@),
{
    let n: usize = s.unicode_len();
    let m: usize = pat.unicode_len();
    if m > n {
        return false;
    }
    let mut i: usize = 0;
    while i <= n - m
        invariant
            n == s@.len(),
            m == pat@.len(),
            m <= n,
            0 <= i <= n - m + 1,
            forall|q: int| 0 <= q < i ==> !matches_at(s@, pat@, q),
        decreases n - m + 1 - i,
    {
        let mut k: usize = 0;
        let mut hit: bool = true;
        while k < m
            invariant
                n == s@.len(),
                m == pat@.len(),
                m <= n,
                0 <= i <= n - m,
                0 <= k <= m,
                hit ==> forall|q: int| 0 <= q < k ==> s@[i + q] == pat@[q],
                !hit ==> !matches_at(s@, pat@, i as int),
            decreases m - k,
        {
            if s.get_char(i + k) != pat.get_char(k) {
                hit = false;
                k = m;
            } else {
                k += 1;
            }
        }
        if hit {
            proof {
                assert(matches_at(s@, pat@, i as int));
            }
            return true;
        }
        i += 1;
    }
    false
}

pub open spec fn spec_is_leap(year: int) -> bool {
    if year % 400 == 0 {
        true
    } else if year % 100 == 0 {
        false
    } else {
        year % 4 == 0
    }
}

pub fn is_leap(year: i32) -> (b: bool)
    ensures
        b == spec_is_leap(year as int),
{
    if year % 400 == 0 {
        return true;
    }
    if year % 100 == 0 {
        return false;
    }
    if year % 4 == 0 {
        return true;
    }
    false
}

pub open spec fn spec_days_in_month(year: int, month: int) -> int {
    if month == 2 {
        if spec_is_leap(year) {
            29
        } else {
            28
        }
    } else if month == 4 || month == 6 || month == 9 || month == 11 {
        30
    } else {
        31
    }
}

pub fn days_in_month(year: i32, month: u32) -> (d: i64)
    requires
        1 <= month <= 12,
    ensures
        d == spec_days_in_month(year as int, month as int),
{
    if month == 2 {
        if is_leap(year) {
            29
        } else {
            28
        }
    } else if month == 4 || month == 6 || month == 9 || month == 11 {
        30
    } else {
        31
    }
}

pub open spec fn has_second_fmt(f: Seq<char>) -> bool {
    str_has(f, "%S"@) || str_has(f, "%X"@) || str_has(f, "%T"@) || str_has(f, "%r"@)
}

pub open spec fn has_minute_fmt(f: Seq<char>) -> bool {
    str_has(f, "%M"@) || str_has(f, "%R"@) || str_has(f, "%c"@)
}

pub open spec fn has_hour_fmt(f: Seq<char>) -> bool {
    str_has(f, "%H"@) || str_has(f, "%I"@)
}

pub open spec fn has_halfday_fmt(f: Seq<char>) -> bool {
    str_has(f, "%p"@)
}

pub open spec fn has_day_fmt(f: Seq<char>) -> bool {
    str_has(f, "%j"@) || str_has(f, "%d"@) || str_has(f, "%e"@) || str_has(f, "%x"@)
        || str_has(f, "%a"@) || str_has(f, "%A"@) || str_has(f, "%u"@) || str_has(f, "%w"@)
        || str_has(f, "%D"@) || str_has(f, "%F"@)
}

pub open spec fn has_week_fmt(f: Seq<char>) -> bool {
    str_has(f, "%V"@) || str_has(f, "%U"@) || str_has(f, "%W"@)
}

pub open spec fn has_month_fmt(f: Seq<char>) -> bool {
    str_has(f, "%b"@) || str_has(f, "%h"@) || str_has(f, "%B"@) || str_has(f, "%m"@)
}

pub open spec fn has_year_fmt(f: Seq<char>) -> bool {
    str_has(f, "%C"@) || str_has(f, "%g"@) || str_has(f, "%G"@) || str_has(f, "%y"@)
        || str_has(f, "%Y"@)
}

/// The bucket width in nanoseconds implied by the finest strftime specifier
/// present in the format, or 0 when none is present. Month and year buckets
/// depend on the calendar position of the timestamp being bucketed.
pub open spec fn spec_width(f: Seq<char>, year: int, month: int) -> int {
    if has_second_fmt(f) {
        1_000_000_000
    } else if has_minute_fmt(f) {
        60_000_000_000
    } else if has_hour_fmt(f) {
        3_600_000_000_000
    } else if has_halfday_fmt(f) {
        43_200_000_000_000
    } else if has_day_fmt(f) {
        86_400_000_000_000
    } else if has_week_fmt(f) {
        604_800_000_000_000
    } else if has_month_fmt(f) {
        spec_days_in_month(year, month) * 86_400_000_000_000
    } else if has_year_fmt(f) {
        if spec_is_leap(year) {
            31_622_400_000_000_000
        } else {
            31_536_000_000_000_000
        }
    } else {
        0
    }
}

pub proof fn lemma_width_bound(f: Seq<char>, year: int, month: int)
    ensures
        spec_width(f, year, month) == 0 || 1_000_000_000 <= spec_width(f, year, month)
            <= MAX_BUCKET_WIDTH,
{
}

/// The bucket width for `fmt`, given the year and month (1-12) of the
/// timestamp being bucketed. Returns 0 when the format holds no known
/// specifier.
pub fn highest_res_specifier(fmt: &str, year: i32, month: u32) -> (w: i64)
    requires
        1 <= month <= 12,
    ensures
        w == spec_width(fmt@, year as int, month as int),
{
    if contains_sub(fmt, "%S") || contains_sub(fmt, "%X") || contains_sub(fmt, "%T")
        || contains_sub(fmt, "%r") {
        return 1_000_000_000;
    }
    if contains_sub(fmt, "%M") || contains_sub(fmt, "%R") || contains_sub(fmt, "%c") {
        return 60_000_000_000;
    }
    if contains_sub(fmt, "%H") || contains_sub(fmt, "%I") {
        return 3_600_000_000_000;
    }
    if contains_sub(fmt, "%p") {
        return 43_200_000_000_000;
    }
    if contains_sub(fmt, "%j") || contains_sub(fmt, "%d") || contains_sub(fmt, "%e")
        || contains_sub(fmt, "%x") || contains_sub(fmt, "%a") || contains_sub(fmt, "%A")
        || contains_sub(fmt, "%u") || contains_sub(fmt, "%w") || contains_sub(fmt, "%D")
        || contains_sub(fmt, "%F") {
        return 86_400_000_000_000;
    }
    if contains_sub(fmt, "%V") || contains_sub(fmt, "%U") || contains_sub(fmt, "%W") {
        return 604_800_000_000_000;
    }
    if contains_sub(fmt, "%b") || contains_sub(fmt, "%h") || contains_sub(fmt, "%B")
        || contains_sub(fmt, "%m") {
        return days_in_month(year, month) * 86_400_000_000_000;
    }
    if contains_sub(fmt, "%C") || contains_sub(fmt, "%g") || contains_sub(fmt, "%G")
        || contains_sub(fmt, "%y") || contains_sub(fmt, "%Y") {
        if is_leap(year) {
            return 31_622_400_000_000_000;
        }
        return 31_536_000_000_000_000;
    }
    0
}

/// Whole seconds of a non-negative nanosecond timestamp.
pub open spec fn secs_of(ts: int) -> int {
    ts / 1_000_000_000
}

/// Sub-second nanoseconds of a non-negative nanosecond timestamp.
pub open spec fn nanos_of(ts: int) -> int {
    ts % 1_000_000_000
}

/// Splits a nanosecond timestamp into whole seconds and sub-second
/// nanoseconds.
pub fn split_ts(ts: i64) -> (r: (i64, u32))
    requires
        0 <= ts,
    ensures
        r.0 == secs_of(ts as int),
        r.1 == nanos_of(ts as int),
        0 <= r.0 <= 9_223_372_036,
        r.1 < 1_000_000_000,
{
    let secs: i64 = ts / NANOS_IN_SEC;
    let nanos: i64 = ts % NANOS_IN_SEC;
    (secs, nanos as u32)
}

/// The calendar year that `secs`/`nanos` after the Unix epoch falls in, as
/// the chrono crate computes it.
pub uninterp spec fn year_of(secs: int, nanos: int) -> int;

/// The calendar month (1-12) that `secs`/`nanos` after the Unix epoch falls
/// in, as the chrono crate computes it.
pub uninterp spec fn month_of(secs: int, nanos: int) -> int;

/// Relies on `chrono::DateTime::from_timestamp` and `Datelike::year`: the
/// proleptic-Gregorian year of a UTC timestamp, a function of the timestamp
/// alone. `from_timestamp` is documented to return `Some` for any timestamp
/// within about 262,000 years of the common era, which covers this range.
#[verifier::external_body]
pub fn ts_year(secs: i64, nanos: u32) -> (y: i32)
    requires
        0 <= secs <= 9_223_372_036,
        nanos < 1_000_000_000,
    ensures
        y == year_of(secs as int, nanos as int),
{
    let dt = chrono::DateTime::<chrono::Utc>::from_timestamp(secs, nanos)
        .expect("timestamp in documented range");
    chrono::Datelike::year(&dt)
}

/// Relies on `chrono::DateTime::from_timestamp` and `Datelike::month`: the
/// month of a UTC timestamp, a function of the timestamp alone and
/// documented to range from 1 to 12.
#[verifier::external_body]
pub fn ts_month(secs: i64, nanos: u32) -> (m: u32)
    requires
        0 <= secs <= 9_223_372_036,
        nanos < 1_000_000_000,
    ensures
        m == month_of(secs as int, nanos as int),
        1 <= m <= 12,
{
    let dt = chrono::DateTime::<chrono::Utc>::from_timestamp(secs, nanos)
        .expect("timestamp in documented range");
    chrono::Datelike::month(&dt)
}

/// The bucket width for `fmt` at timestamp `ts`.
pub open spec fn bucket_width_of(f: Seq<char>, ts: int) -> int {
    spec_width(f, year_of(secs_of(ts), nanos_of(ts)), month_of(secs_of(ts), nanos_of(ts)))
}

/// The month of `ts` lies in 1..=12: what the trusted `ts_month` wrapper
/// reports always satisfies this, so the width at any reachable timestamp is
/// either 0 or a positive bucket width.
pub open spec fn month_in_range(ts: int) -> bool {
    1 <= month_of(secs_of(ts), nanos_of(ts)) <= 12
}

/// The inclusive lower bound of the partition bucket containing `ts`.
pub fn partition_min_ts(partition_fmt: &str, ts: i64) -> (r: i64)
    requires
        0 <= ts,
        bucket_width_of(partition_fmt@, ts as int) > 0,
        month_in_range(ts as int),
    ensures
        r == ts - (ts as int) % bucket_width_of(partition_fmt@, ts as int),
        0 <= r <= ts,
{
    let (secs, nanos) = split_ts(ts);
    let year: i32 = ts_year(secs, nanos);
    let month: u32 = ts_month(secs, nanos);
    let w: i64 = highest_res_specifier(partition_fmt, year, month);
    proof {
        lemma_width_bound(partition_fmt@, year as int, month as int);
        lemma_fundamental_div_mod(ts as int, w as int);
    }
    ts - ts % w
}

/// The inclusive upper bound of the partition bucket containing `ts`.
pub fn partition_max_ts(partition_fmt: &str, ts: i64) -> (r: i64)
    requires
        0 <= ts <= MAX_PARTITION_TS,
        bucket_width_of(partition_fmt@, ts as int) > 0,
        month_in_range(ts as int),
    ensures
        r == ((ts as int) / bucket_width_of(partition_fmt@, ts as int) + 1)
            * bucket_width_of(partition_fmt@, ts as int) - 1,
        ts <= r,
        r == ts - (ts as int) % bucket_width_of(partition_fmt@, ts as int)
            + bucket_width_of(partition_fmt@, ts as int) - 1,
{
    let (secs, nanos) = split_ts(ts);
    let year: i32 = ts_year(secs, nanos);
    let month: u32 = ts_month(secs, nanos);
    let w: i64 = highest_res_specifier(partition_fmt, year, month);
    proof {
        lemma_width_bound(partition_fmt@, year as int, month as int);
        lemma_fundamental_div_mod(ts as int, w as int);
        vstd::arithmetic::div_mod::lemma_mod_bound(ts as int, w as int);
        assert(((ts as int) / (w as int) + 1) * (w as int)
            == ((ts as int) / (w as int)) * (w as int) + (w as int)) by (nonlinear_arith);
    }
    let q: i64 = ts / w;
    (q + 1) * w - 1
}

} // verus!
