//! The Gregorian calendar in UTC: civil dates from counts of days, and the
//! two forms in which a deployment writes a moment.

use vstd::prelude::*;
use vstd::string::*;

use crate::decimal;
use crate::decimal::padded_of;
use crate::order;

verus! {

/// Whether the year has a 29th of February.
pub open spec fn is_leap(y: int) -> bool {
    y % 4 == 0 && (y % 100 != 0 || y % 400 == 0)
}

/// The number of days of a year.
pub open spec fn year_len(y: int) -> int {
    if is_leap(y) {
        366
    } else {
        365
    }
}

/// The number of days of a month.
pub open spec fn month_len(y: int, m: int) -> int {
    if m == 2 {
        if is_leap(y) {
            29
        } else {
            28
        }
    } else if m == 4 || m == 6 || m == 9 || m == 11 {
        30
    } else {
        31
    }
}

/// The day on which a year begins, counted from 1970-01-01.
pub open spec fn days_before_year(y: int) -> int
    decreases (if y >= 1970 { y - 1970 } else { 1970 - y }),
{
    if y == 1970 {
        0
    } else if y > 1970 {
        days_before_year(y - 1) + year_len(y - 1)
    } else {
        days_before_year(y + 1) - year_len(y)
    }
}

/// The days of a year that come before a month of it.
pub open spec fn days_before_month(y: int, m: int) -> int
    decreases m,
{
    if m <= 1 {
        0
    } else {
        days_before_month(y, m - 1) + month_len(y, m - 1)
    }
}

/// The date exists.
pub open spec fn valid_date(y: int, m: int, d: int) -> bool {
    1 <= m <= 12 && 1 <= d <= month_len(y, m)
}

/// The number of a day, counted from 1970-01-01.
pub open spec fn day_number(y: int, m: int, d: int) -> int {
    days_before_year(y) + days_before_month(y, m) + d - 1
}

/// The date of a day that is counted from 1970-01-01.
pub open spec fn date_of(days: int) -> (int, int, int) {
    choose|t: (int, int, int)|
        valid_date(t.0, t.1, t.2) && #[trigger] day_number(t.0, t.1, t.2) == days
}

/// The leap years from the year 1 up to the one before `y`.
spec fn leaps(y: int) -> int {
    (y - 1) / 4 - (y - 1) / 100 + (y - 1) / 400
}

proof fn lemma_leaps_step(y: int)
    ensures
        leaps(y + 1) - leaps(y) == if is_leap(y) { 1int } else { 0int },
{
}

proof fn lemma_days_before_year(y: int)
    ensures
        days_before_year(y) == 365 * (y - 1970) + leaps(y) - 477,
    decreases (if y >= 1970 { y - 1970 } else { 1970 - y }),
{
    if y > 1970 {
        lemma_days_before_year(y - 1);
        lemma_leaps_step(y - 1);
    } else if y < 1970 {
        lemma_days_before_year(y + 1);
        lemma_leaps_step(y);
    }
}

/// The months of a year fill it.
proof fn lemma_months(y: int, m: int, d: int)
    requires
        valid_date(y, m, d),
    ensures
        0 <= days_before_month(y, m) + d - 1 < year_len(y),
{
    reveal_with_fuel(days_before_month, 13);
}

/// A later date has a larger number.
proof fn lemma_day_number_grows(y1: int, m1: int, d1: int, y2: int, m2: int, d2: int)
    requires
        valid_date(y1, m1, d1),
        valid_date(y2, m2, d2),
        y1 < y2 || (y1 == y2 && (m1 < m2 || (m1 == m2 && d1 < d2))),
    ensures
        day_number(y1, m1, d1) < day_number(y2, m2, d2),
{
    if y1 < y2 {
        lemma_months(y1, m1, d1);
        lemma_months(y2, m2, d2);
        lemma_years_apart(y1, y2);
    } else if m1 < m2 {
        reveal_with_fuel(days_before_month, 13);
    }
}

proof fn lemma_years_apart(y1: int, y2: int)
    requires
        y1 < y2,
    ensures
        days_before_year(y1) + year_len(y1) <= days_before_year(y2),
    decreases y2 - y1,
{
    lemma_days_before_year(y2 - 1);
    lemma_days_before_year(y2);
    lemma_leaps_step(y2 - 1);
    if y1 < y2 - 1 {
        lemma_years_apart(y1, y2 - 1);
    }
}

/// A day has one date, and the order of the days is the order of the dates.
pub proof fn law_dates_are_ordered(y1: int, m1: int, d1: int, y2: int, m2: int, d2: int)
    requires
        valid_date(y1, m1, d1),
        valid_date(y2, m2, d2),
    ensures
        day_number(y1, m1, d1) == day_number(y2, m2, d2) <==> (y1, m1, d1) == (y2, m2, d2),
        day_number(y1, m1, d1) < day_number(y2, m2, d2) <==> (y1 < y2 || (y1 == y2 && (m1 < m2 || (
        m1 == m2 && d1 < d2)))),
{
    if y1 < y2 || (y1 == y2 && (m1 < m2 || (m1 == m2 && d1 < d2))) {
        lemma_day_number_grows(y1, m1, d1, y2, m2, d2);
    } else if (y1, m1, d1) != (y2, m2, d2) {
        lemma_day_number_grows(y2, m2, d2, y1, m1, d1);
    }
}

// ---------------------------------------------------------------------------
// The conversion works on years that begin in March, in eras of 400 years.
// ---------------------------------------------------------------------------

/// The first day of a year within its era, the years beginning in March.
spec fn era_year_start(j: int) -> int {
    365 * j + j / 4 - j / 100
}

/// The days of an era without its leap days, up to a given day.
spec fn common_days(doe: int) -> int {
    doe - doe / 1460 + doe / 36524 - doe / 146096
}

proof fn lemma_common_days_grow(a: int, b: int)
    requires
        0 <= a <= b,
    ensures
        common_days(a) <= common_days(b),
{
    assert(a - a / 1460 <= b - b / 1460);
    assert(a / 146096 == (a / 36524) / 4);
    assert(b / 146096 == (b / 36524) / 4);
}

proof fn lemma_common_days_at_year(j: int)
    requires
        0 <= j < 400,
    ensures
        common_days(era_year_start(j)) == 365 * j,
        j > 0 ==> common_days(era_year_start(j) - 1) < 365 * j,
{
    let s = era_year_start(j);
    let q = j / 4;
    let t = j % 4;
    let c = j / 100;
    let u = j % 100;
    assert(s == 1460 * q + (365 * t + q - c));
    assert(s / 1460 == q);
    assert(q == 25 * c + u / 4);
    assert(s == 36524 * c + (365 * u + u / 4));
    assert(s / 36524 == c);
    assert(s / 146096 == 0);
    if j > 0 {
        assert(365 * t + q - c > 0);
        assert((s - 1) / 1460 == q);
    }
}

/// The year of an era to which a day belongs.
proof fn lemma_year_of_era(doe: int)
    requires
        0 <= doe < 146097,
    ensures
        ({
            let yoe = common_days(doe) / 365;
            &&& 0 <= yoe < 400
            &&& era_year_start(yoe) <= doe
            &&& yoe < 399 ==> doe < era_year_start(yoe + 1)
        }),
{
    let yoe = common_days(doe) / 365;
    lemma_common_days_grow(0, doe);
    lemma_common_days_grow(doe, 146096);
    if doe < era_year_start(yoe) {
        lemma_common_days_at_year(yoe);
        lemma_common_days_grow(doe, era_year_start(yoe) - 1);
    }
    if yoe < 399 && doe >= era_year_start(yoe + 1) {
        lemma_common_days_at_year(yoe + 1);
        lemma_common_days_grow(era_year_start(yoe + 1), doe);
    }
}

/// What a day within a year that begins in March is in the civil year.
proof fn lemma_month_of_day(y: int, doy: int, mp: int, m: int, d: int)
    requires
        0 <= doy <= 365,
        mp == (5 * doy + 2) / 153,
        d == doy - (153 * mp + 2) / 5 + 1,
        m == if mp < 10 { mp + 3 } else { mp - 9 },
        doy == 365 ==> is_leap(y),
    ensures
        valid_date(y, m, d),
        mp < 10 ==> days_before_month(y, m) + d - 1 == doy + 59 + if is_leap(y) {
            1int
        } else {
            0int
        },
        mp >= 10 ==> days_before_month(y, m) + d - 1 == doy - 306,
{
    reveal_with_fuel(days_before_month, 13);
    assert(0 <= mp <= 11);
    if mp == 0 {
    } else if mp == 1 {
    } else if mp == 2 {
    } else if mp == 3 {
    } else if mp == 4 {
    } else if mp == 5 {
    } else if mp == 6 {
    } else if mp == 7 {
    } else if mp == 8 {
    } else if mp == 9 {
    } else if mp == 10 {
    } else {
    }
}

/// The year that ends in February after a leap year's 29th is one day longer.
proof fn lemma_days_of_era_year(era: int, yoe: int, doy: int)
    requires
        0 <= yoe < 400,
        0 <= doy,
        yoe < 399 ==> era_year_start(yoe) + doy < era_year_start(yoe + 1),
        yoe == 399 ==> doy <= 365,
    ensures
        doy <= 365,
        doy == 365 ==> is_leap(yoe + era * 400 + 1),
{
    let n = yoe + 1;
    let p = yoe + era * 400 + 1;
    assert(p % 4 == n % 4);
    assert(p % 100 == n % 100);
    assert(p % 400 == n % 400);
}

/// The month and day within a year that begins in March are those of the
/// civil date.
proof fn lemma_civil_date(z: int, era: int, yoe: int, doy: int, mp: int, y: int, m: int, d: int)
    requires
        0 <= yoe < 400,
        0 <= doy,
        yoe < 399 ==> era_year_start(yoe) + doy < era_year_start(yoe + 1),
        yoe == 399 ==> doy <= 365,
        z + 719468 == era * 146097 + era_year_start(yoe) + doy,
        mp == (5 * doy + 2) / 153,
        d == doy - (153 * mp + 2) / 5 + 1,
        m == if mp < 10 { mp + 3 } else { mp - 9 },
        y == yoe + era * 400 + if m <= 2 { 1int } else { 0int },
    ensures
        valid_date(y, m, d),
        day_number(y, m, d) == z,
{
    let p = yoe + era * 400;
    lemma_days_of_era_year(era, yoe, doy);
    lemma_last_months(doy, mp);
    assert(y == if mp < 10 { p } else { p + 1 });
    lemma_month_of_day(y, doy, mp, m, d);
    lemma_days_before_year(p);
    lemma_days_before_year(p + 1);
    lemma_leaps_step(p);
    lemma_leaps_of_era(era, yoe);
}

/// The 366th day of a year that begins in March is in February.
proof fn lemma_last_months(doy: int, mp: int)
    requires
        0 <= doy <= 365,
        mp == (5 * doy + 2) / 153,
    ensures
        0 <= mp <= 11,
        doy == 365 ==> mp == 11,
{
}

proof fn lemma_leaps_of_era(era: int, yoe: int)
    requires
        0 <= yoe < 400,
    ensures
        leaps(yoe + era * 400 + 1) == 97 * era + yoe / 4 - yoe / 100,
{
    let p = yoe + era * 400;
    assert(p / 4 == 100 * era + yoe / 4);
    assert(p / 100 == 4 * era + yoe / 100);
    assert(p / 400 == era);
}

/// The civil date for a count of days since 1970-01-01.
pub fn civil_from_days(z: i64) -> (r: (i64, u32, u32))
    requires
        z <= i64::MAX - 719468,
    ensures
        valid_date(r.0 as int, r.1 as int, r.2 as int),
        day_number(r.0 as int, r.1 as int, r.2 as int) == z,
        (r.0 as int, r.1 as int, r.2 as int) == date_of(z as int),
{
    let shifted: i64 = z + 719468;
    let era: i64 = if shifted >= 0 {
        shifted / 146097
    } else {
        -1 - ((-1 - shifted) / 146097)
    };
    let doe: u64 = (shifted - era * 146097) as u64;
    assert(0 <= doe < 146097);
    let yoe: u64 = (doe - doe / 1460 + doe / 36524 - doe / 146096) / 365;
    proof {
        lemma_year_of_era(doe as int);
    }
    let y: i64 = yoe as i64 + era * 400;
    let doy: u64 = doe - (365 * yoe + yoe / 4 - yoe / 100);
    let mp: u64 = (5 * doy + 2) / 153;
    let d: u32 = (doy - (153 * mp + 2) / 5 + 1) as u32;
    let m: u32 = if mp < 10 {
        (mp + 3) as u32
    } else {
        (mp - 9) as u32
    };
    let year: i64 = if m <= 2 {
        y + 1
    } else {
        y
    };
    proof {
        lemma_civil_date(
            z as int,
            era as int,
            yoe as int,
            doy as int,
            mp as int,
            year as int,
            m as int,
            d as int,
        );
        lemma_date_of(z as int, year as int, m as int, d as int);
    }
    (year, m, d)
}

/// A date with a given number is the date of that day.
proof fn lemma_date_of(days: int, y: int, m: int, d: int)
    requires
        valid_date(y, m, d),
        day_number(y, m, d) == days,
    ensures
        date_of(days) == (y, m, d),
{
    let w = (y, m, d);
    assert(valid_date(w.0, w.1, w.2) && day_number(w.0, w.1, w.2) == days);
    let t = date_of(days);
    law_dates_are_ordered(y, m, d, t.0, t.1, t.2);
}

/// From 1970 on, every day has a date, and its year is not before 1970.
proof fn lemma_date_exists(days: int)
    requires
        0 <= days,
    ensures
        ({
            let t = date_of(days);
            &&& valid_date(t.0, t.1, t.2)
            &&& day_number(t.0, t.1, t.2) == days
            &&& t.0 >= 1970
        }),
{
    let shifted = days + 719468;
    let era = shifted / 146097;
    let doe = shifted - era * 146097;
    lemma_year_of_era(doe);
    let yoe = common_days(doe) / 365;
    let doy = doe - era_year_start(yoe);
    let mp = (5 * doy + 2) / 153;
    let d = doy - (153 * mp + 2) / 5 + 1;
    let m = if mp < 10 {
        mp + 3
    } else {
        mp - 9
    };
    let y = yoe + era * 400 + if m <= 2 {
        1int
    } else {
        0int
    };
    lemma_civil_date(days, era, yoe, doy, mp, y, m, d);
    lemma_date_of(days, y, m, d);
    if y < 1970 {
        lemma_day_number_grows(y, m, d, 1970, 1, 1);
        assert(day_number(1970, 1, 1) == 0);
    }
}

// ---------------------------------------------------------------------------
// Moments.
// ---------------------------------------------------------------------------

/// The UTC date of a moment, given in seconds since 1970-01-01 00:00 UTC,
/// with a separator between its parts.
pub open spec fn date_text(epoch: nat, dash: Seq<char>) -> Seq<char> {
    let t = date_of((epoch / 86400) as int);
    decimal::padded(t.0 as nat, 4) + dash + decimal::padded(t.1 as nat, 2) + dash + decimal::padded(
        t.2 as nat,
        2,
    )
}

/// The UTC hour and minute of a moment, with a separator between them.
pub open spec fn minute_text(epoch: nat, colon: Seq<char>) -> Seq<char> {
    let rem = epoch % 86400;
    decimal::padded(rem / 3600, 2) + colon + decimal::padded((rem % 3600) / 60, 2)
}

/// The moment in the house format, as in `20260907T081502Z`.
pub open spec fn stamp(epoch: nat) -> Seq<char> {
    date_text(epoch, ""@) + "T"@ + minute_text(epoch, ""@) + decimal::padded(epoch % 86400 % 60, 2)
        + "Z"@
}

/// The moment in the ISO 8601 format to the minute, as in
/// `2026-09-07T08:15Z`.
pub open spec fn iso(epoch: nat) -> Seq<char> {
    date_text(epoch, "-"@) + "T"@ + minute_text(epoch, ":"@) + "Z"@
}

fn written_date(epoch: u64, dash: &str) -> (r: String)
    ensures
        r@ == date_text(epoch as nat, dash@),
{
    let days: i64 = (epoch / 86400) as i64;
    let (y, mo, d) = civil_from_days(days);
    proof {
        lemma_date_exists(days as int);
    }
    let mut out = padded_of(y as u64, 4);
    out.append(dash);
    out.append(padded_of(mo as u64, 2).as_str());
    out.append(dash);
    out.append(padded_of(d as u64, 2).as_str());
    out
}

fn written_minute(epoch: u64, colon: &str) -> (r: String)
    ensures
        r@ == minute_text(epoch as nat, colon@),
{
    let rem: u64 = epoch % 86400;
    let mut out = padded_of(rem / 3600, 2);
    out.append(colon);
    out.append(padded_of((rem % 3600) / 60, 2).as_str());
    out
}

/// The seconds since 1970-01-01 00:00 UTC by a clock's reading; a clock set
/// before that moment gives no reading and counts as that moment.
pub fn now_epoch(reading: Option<u64>) -> (r: u64)
    ensures
        r == match reading {
            Some(seconds) => seconds,
            None => 0,
        },
{
    match reading {
        Some(seconds) => seconds,
        None => 0,
    }
}

/// A UTC timestamp in the deployment's house format: `%Y%m%dT%H%M%SZ`.
pub fn utc_stamp(epoch: u64) -> (r: String)
    ensures
        r@ == stamp(epoch as nat),
{
    let mut out = written_date(epoch, "");
    out.append("T");
    out.append(written_minute(epoch, "").as_str());
    out.append(padded_of(epoch % 86400 % 60, 2).as_str());
    out.append("Z");
    out
}

/// The ISO 8601 UTC moment, to the minute, that the runbook carries.
pub fn utc_iso(epoch: u64) -> (r: String)
    ensures
        r@ == iso(epoch as nat),
{
    let mut out = written_date(epoch, "-");
    out.append("T");
    out.append(written_minute(epoch, ":").as_str());
    out.append("Z");
    out
}

/// `a` stands before `b` in the dictionary.
pub open spec fn lt(a: Seq<char>, b: Seq<char>) -> bool {
    order::le(a, b) && a != b
}

/// Of two texts whose beginnings are as long and differ, the beginnings
/// decide.
pub proof fn lemma_lt_append(a: Seq<char>, b: Seq<char>, x: Seq<char>, y: Seq<char>)
    requires
        a.len() == b.len(),
        lt(a, b),
    ensures
        lt(a + x, b + y),
    decreases a.len(),
{
    if a.len() == 0 {
        assert(a =~= b);
    } else if a[0] == b[0] {
        assert((a + x).skip(1) =~= a.skip(1) + x);
        assert((b + y).skip(1) =~= b.skip(1) + y);
        if a.skip(1) == b.skip(1) {
            assert(a =~= seq![a[0]] + a.skip(1));
            assert(b =~= seq![b[0]] + b.skip(1));
        }
        lemma_lt_append(a.skip(1), b.skip(1), x, y);
        assert(order::le(a + x, b + y));
        if a + x == b + y {
            assert((a + x).skip(1) == (b + y).skip(1));
        }
    } else {
        assert((a + x)[0] == a[0]);
        assert((b + y)[0] == b[0]);
    }
}

/// Equal beginnings leave the decision to the rest.
proof fn lemma_lt_prefix(p: Seq<char>, a: Seq<char>, b: Seq<char>)
    requires
        lt(a, b),
    ensures
        lt(p + a, p + b),
{
    order::lemma_le_prefix(p, a, b);
    if p + a == p + b {
        assert(a =~= (p + a).skip(p.len() as int));
        assert(b =~= (p + b).skip(p.len() as int));
    }
}

/// Ten to the power `w`.
spec fn ten_to(w: nat) -> nat
    decreases w,
{
    if w == 0 {
        1
    } else {
        10 * ten_to((w - 1) as nat)
    }
}

/// A number that fits into a width is written in exactly that width.
proof fn lemma_padded_step(n: nat, w: nat)
    requires
        w > 1,
        n < ten_to(w),
    ensures
        n / 10 < ten_to((w - 1) as nat),
        decimal::padded(n, w as int) == decimal::padded(n / 10, w - 1).push(
            decimal::digit((n % 10) as int),
        ),
{
    if n < 10 {
        assert(decimal::decimal(n / 10) =~= seq!['0']);
        assert(decimal::padded(n, w as int) =~= decimal::padded(n / 10, w - 1).push(
            decimal::digit((n % 10) as int),
        ));
    } else {
        assert(decimal::padded(n, w as int) =~= decimal::padded(n / 10, w - 1).push(
            decimal::digit((n % 10) as int),
        ));
    }
}

/// Numbers of one width stand in the dictionary in their own order.
proof fn lemma_padded_order(a: nat, b: nat, w: nat)
    requires
        w > 0,
        a < ten_to(w),
        b < ten_to(w),
    ensures
        decimal::padded(a, w as int).len() == w,
        a < b ==> lt(decimal::padded(a, w as int), decimal::padded(b, w as int)),
    decreases w,
{
    if w == 1 {
        reveal_with_fuel(ten_to, 2);
        assert(decimal::padded(a, 1) =~= seq![decimal::digit(a as int)]);
        assert(decimal::padded(b, 1) =~= seq![decimal::digit(b as int)]);
        if a < b {
            assert(decimal::padded(a, 1)[0] != decimal::padded(b, 1)[0]);
        }
    } else {
        lemma_padded_step(a, w);
        lemma_padded_step(b, w);
        lemma_padded_order(a / 10, b / 10, (w - 1) as nat);
        lemma_padded_order(b / 10, a / 10, (w - 1) as nat);
        let pa = decimal::padded(a / 10, w - 1);
        let pb = decimal::padded(b / 10, w - 1);
        let da = seq![decimal::digit((a % 10) as int)];
        let db = seq![decimal::digit((b % 10) as int)];
        assert(decimal::padded(a, w as int) =~= pa + da);
        assert(decimal::padded(b, w as int) =~= pb + db);
        if a < b {
            if a / 10 < b / 10 {
                lemma_lt_append(pa, pb, da, db);
            } else {
                assert(da[0] < db[0]);
                assert(da != db);
                lemma_lt_prefix(pa, da, db);
            }
        }
    }
}

/// The end of a stamp from the hour on.
spec fn clock(rem: nat) -> Seq<char> {
    decimal::padded(rem / 3600, 2) + (decimal::padded((rem % 3600) / 60, 2) + (decimal::padded(
        rem % 60,
        2,
    ) + "Z"@))
}

/// A stamp is the year, the month, the day, and the rest from the `T` on.
proof fn lemma_stamp_parts(e: nat)
    requires
        date_of((e / 86400) as int).0 <= 9999,
    ensures
        ({
            let t = date_of((e / 86400) as int);
            &&& valid_date(t.0, t.1, t.2)
            &&& 1970 <= t.0
            &&& stamp(e) == decimal::padded(t.0 as nat, 4) + (decimal::padded(t.1 as nat, 2) + (
            decimal::padded(t.2 as nat, 2) + ("T"@ + clock(e % 86400))))
            &&& stamp(e).len() == 16
        }),
{
    let t = date_of((e / 86400) as int);
    let rem = e % 86400;
    lemma_date_exists((e / 86400) as int);
    lemma_ten_to();
    reveal_strlit("");
    reveal_strlit("T");
    reveal_strlit("Z");
    lemma_padded_order(t.0 as nat, 0, 4);
    lemma_padded_order(t.1 as nat, 0, 2);
    lemma_padded_order(t.2 as nat, 0, 2);
    lemma_padded_order(rem / 3600, 0, 2);
    lemma_padded_order((rem % 3600) / 60, 0, 2);
    lemma_padded_order(rem % 60, 0, 2);
    assert(stamp(e) =~= decimal::padded(t.0 as nat, 4) + (decimal::padded(t.1 as nat, 2) + (
    decimal::padded(t.2 as nat, 2) + ("T"@ + clock(rem)))));
}

proof fn lemma_clock_order(a: nat, b: nat)
    requires
        a < b < 86400,
    ensures
        lt(clock(a), clock(b)),
{
    lemma_ten_to();
    let ha = decimal::padded(a / 3600, 2);
    let hb = decimal::padded(b / 3600, 2);
    let na = decimal::padded((a % 3600) / 60, 2);
    let nb = decimal::padded((b % 3600) / 60, 2);
    let sa = decimal::padded(a % 60, 2);
    let sb = decimal::padded(b % 60, 2);
    lemma_padded_order(a / 3600, b / 3600, 2);
    lemma_padded_order(b / 3600, a / 3600, 2);
    lemma_padded_order((a % 3600) / 60, (b % 3600) / 60, 2);
    lemma_padded_order((b % 3600) / 60, (a % 3600) / 60, 2);
    lemma_padded_order(a % 60, b % 60, 2);
    lemma_padded_order(b % 60, a % 60, 2);
    if a / 3600 < b / 3600 {
        lemma_lt_append(ha, hb, na + (sa + "Z"@), nb + (sb + "Z"@));
    } else if (a % 3600) / 60 < (b % 3600) / 60 {
        lemma_lt_append(na, nb, sa + "Z"@, sb + "Z"@);
        lemma_lt_prefix(ha, na + (sa + "Z"@), nb + (sb + "Z"@));
    } else {
        lemma_lt_append(sa, sb, "Z"@, "Z"@);
        lemma_lt_prefix(na, sa + "Z"@, sb + "Z"@);
        lemma_lt_prefix(ha, na + (sa + "Z"@), nb + (sb + "Z"@));
    }
}

/// Texts in four parts, three of them as long in both: the first parts
/// that differ decide.
proof fn lemma_lt_parts(a: Seq<Seq<char>>, b: Seq<Seq<char>>)
    requires
        a.len() == 4,
        b.len() == 4,
        forall|i: int| 0 <= i < 3 ==> (#[trigger] a[i]).len() == b[i].len(),
        exists|i: int|
            0 <= i < 4 && #[trigger] lt(a[i], b[i]) && forall|j: int| 0 <= j < i ==> #[trigger] a[j] == b[j],
    ensures
        lt(a[0] + (a[1] + (a[2] + a[3])), b[0] + (b[1] + (b[2] + b[3]))),
{
    let i = choose|i: int|
        0 <= i < 4 && #[trigger] lt(a[i], b[i]) && forall|j: int| 0 <= j < i ==> #[trigger] a[j] == b[j];
    if i == 0 {
        lemma_lt_append(a[0], b[0], a[1] + (a[2] + a[3]), b[1] + (b[2] + b[3]));
    } else {
        if i == 1 {
            lemma_lt_append(a[1], b[1], a[2] + a[3], b[2] + b[3]);
        } else {
            if i == 2 {
                lemma_lt_append(a[2], b[2], a[3], b[3]);
            } else {
                lemma_lt_prefix(a[2], a[3], b[3]);
            }
            lemma_lt_prefix(a[1], a[2] + a[3], b[2] + b[3]);
        }
        lemma_lt_prefix(a[0], a[1] + (a[2] + a[3]), b[1] + (b[2] + b[3]));
    }
}

/// The names that carry a stamp sort by time: up to the end of the year
/// 9999, an earlier moment has a stamp that stands earlier in the dictionary.
pub proof fn law_stamps_sort_by_time(a: nat, b: nat)
    requires
        a < b,
        date_of((b / 86400) as int).0 <= 9999,
    ensures
        lt(stamp(a), stamp(b)),
        stamp(a).len() == 16,
        stamp(b).len() == 16,
{
    let s = date_of((a / 86400) as int);
    let t = date_of((b / 86400) as int);
    lemma_date_exists((a / 86400) as int);
    lemma_date_exists((b / 86400) as int);
    law_dates_are_ordered(s.0, s.1, s.2, t.0, t.1, t.2);
    lemma_stamp_parts(a);
    lemma_stamp_parts(b);
    lemma_ten_to();
    lemma_padded_order(s.0 as nat, t.0 as nat, 4);
    lemma_padded_order(t.0 as nat, s.0 as nat, 4);
    lemma_padded_order(s.1 as nat, t.1 as nat, 2);
    lemma_padded_order(t.1 as nat, s.1 as nat, 2);
    lemma_padded_order(s.2 as nat, t.2 as nat, 2);
    lemma_padded_order(t.2 as nat, s.2 as nat, 2);
    let x = seq![
        decimal::padded(s.0 as nat, 4),
        decimal::padded(s.1 as nat, 2),
        decimal::padded(s.2 as nat, 2),
        "T"@ + clock(a % 86400),
    ];
    let y = seq![
        decimal::padded(t.0 as nat, 4),
        decimal::padded(t.1 as nat, 2),
        decimal::padded(t.2 as nat, 2),
        "T"@ + clock(b % 86400),
    ];
    if s.0 < t.0 {
        assert(lt(x[0], y[0]));
    } else if s.1 < t.1 {
        assert(lt(x[1], y[1]));
    } else if s.2 < t.2 {
        assert(lt(x[2], y[2]));
    } else {
        lemma_clock_order(a % 86400, b % 86400);
        lemma_lt_prefix("T"@, clock(a % 86400), clock(b % 86400));
        assert(lt(x[3], y[3]));
    }
    lemma_lt_parts(x, y);
}

proof fn lemma_ten_to()
    ensures
        ten_to(2) == 100,
        ten_to(4) == 10000,
{
    reveal_with_fuel(ten_to, 5);
}

} // verus!
