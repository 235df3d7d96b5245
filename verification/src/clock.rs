//! Calendar dates and the RFC 3339 text of a point in time.

use vstd::prelude::*;

use crate::order;
use crate::text;
use crate::text::push_padded;

verus! {

/// Whether `year` has a 29 February.
pub open spec fn is_leap(year: int) -> bool {
    year % 4 == 0 && (year % 100 != 0 || year % 400 == 0)
}

/// Number of days of `month` in `year`.
pub open spec fn days_in_month(year: int, month: int) -> int {
    if month == 2 {
        if is_leap(year) {
            29
        } else {
            28
        }
    } else if month == 4 || month == 6 || month == 9 || month == 11 {
        30
    } else {
        31
    }
}

/// Number of days of `year` that lie before `month`.
pub open spec fn days_before_month(year: int, month: int) -> int
    decreases month,
{
    if month <= 1 {
        0
    } else {
        days_before_month(year, month - 1) + days_in_month(year, month - 1)
    }
}

/// Number of days from 1 January of year 1 to 1 January of `year`.
pub open spec fn days_before_year(year: int) -> int {
    365 * (year - 1) + (year - 1) / 4 - (year - 1) / 100 + (year - 1) / 400
}

/// Whether the three numbers name a day of the proleptic Gregorian calendar.
pub open spec fn is_date(year: int, month: int, day: int) -> bool {
    1 <= month <= 12 && 1 <= day <= days_in_month(year, month)
}

/// Number of days from 1 January 1970 to the given date.
pub open spec fn day_number(year: int, month: int, day: int) -> int {
    days_before_year(year) - days_before_year(1970) + days_before_month(year, month) + day - 1
}

#[verifier::spinoff_prover]
#[verifier::rlimit(50)]
proof fn lemma_year_of_era(doe: int, yoe: int)
    requires
        0 <= doe < 146_097,
        yoe == (doe - doe / 1460 + doe / 36_524 - doe / 146_096) / 365,
    ensures
        0 <= yoe <= 399,
        0 <= doe - (365 * yoe + yoe / 4 - yoe / 100) <= 365,
        doe - (365 * yoe + yoe / 4 - yoe / 100) == 365 ==> is_leap(yoe + 1),
{
}

proof fn lemma_step_4(n: int)
    ensures
        n / 4 == (n - 1) / 4 + if n % 4 == 0 { 1int } else { 0int },
{
}

proof fn lemma_step_100(n: int)
    ensures
        n / 100 == (n - 1) / 100 + if n % 100 == 0 { 1int } else { 0int },
{
}

proof fn lemma_step_400(n: int)
    ensures
        n / 400 == (n - 1) / 400 + if n % 400 == 0 { 1int } else { 0int },
{
}

proof fn lemma_multiples(n: int)
    ensures
        n % 100 == 0 ==> n % 4 == 0,
        n % 400 == 0 ==> n % 100 == 0,
{
    if n % 100 == 0 {
        assert(n == 4 * (25 * (n / 100)));
    }
    if n % 400 == 0 {
        assert(n == 100 * (4 * (n / 400)));
    }
}

/// One more year adds 365 days, or 366 in a leap year.
proof fn lemma_next_year(year: int)
    ensures
        days_before_year(year + 1) == days_before_year(year) + if is_leap(year) {
            366int
        } else {
            365int
        },
{
    let q4 = year / 4;
    let q100 = year / 100;
    let q400 = year / 400;
    let p4 = (year - 1) / 4;
    let p100 = (year - 1) / 100;
    let p400 = (year - 1) / 400;
    assert(days_before_year(year + 1) == 365 * year + q4 - q100 + q400);
    assert(days_before_year(year) == 365 * (year - 1) + p4 - p100 + p400);
    assert(q4 == p4 + if year % 4 == 0 { 1int } else { 0int }) by {
        lemma_step_4(year);
    }
    assert(q100 == p100 + if year % 100 == 0 { 1int } else { 0int }) by {
        lemma_step_100(year);
    }
    assert(q400 == p400 + if year % 400 == 0 { 1int } else { 0int }) by {
        lemma_step_400(year);
    }
    lemma_multiples(year);
}

proof fn lemma_years_mono(a: int, b: int)
    requires
        a <= b,
    ensures
        days_before_year(a) <= days_before_year(b),
    decreases b - a,
{
    if a < b {
        lemma_years_mono(a, b - 1);
        lemma_next_year(b - 1);
    }
}

/// The days of a year, month by month.
proof fn lemma_months(year: int)
    ensures
        days_before_month(year, 1) == 0,
        days_before_month(year, 2) == 31,
        ({
            let leap: int = if is_leap(year) { 1 } else { 0 };
            &&& days_before_month(year, 3) == 59 + leap
            &&& days_before_month(year, 4) == 90 + leap
            &&& days_before_month(year, 5) == 120 + leap
            &&& days_before_month(year, 6) == 151 + leap
            &&& days_before_month(year, 7) == 181 + leap
            &&& days_before_month(year, 8) == 212 + leap
            &&& days_before_month(year, 9) == 243 + leap
            &&& days_before_month(year, 10) == 273 + leap
            &&& days_before_month(year, 11) == 304 + leap
            &&& days_before_month(year, 12) == 334 + leap
            &&& days_before_month(year, 13) == 365 + leap
        }),
{
    reveal_with_fuel(days_before_month, 13);
}

proof fn lemma_era_4(era: int, n: int)
    ensures
        (n + 400 * era) / 4 == n / 4 + 100 * era,
        (n + 400 * era) % 4 == n % 4,
{
}

proof fn lemma_era_100(era: int, n: int)
    ensures
        (n + 400 * era) / 100 == n / 100 + 4 * era,
        (n + 400 * era) % 100 == n % 100,
{
}

proof fn lemma_era_400(era: int, n: int)
    ensures
        (n + 400 * era) / 400 == n / 400 + era,
        (n + 400 * era) % 400 == n % 400,
{
}

/// Four hundred years hold the same number of days wherever they begin.
proof fn lemma_era(era: int, year: int)
    ensures
        days_before_year(year + 400 * era) == days_before_year(year) + 146_097 * era,
        is_leap(year + 400 * era) == is_leap(year),
{
    lemma_era_4(era, year);
    lemma_era_4(era, year - 1);
    lemma_era_100(era, year);
    lemma_era_100(era, year - 1);
    lemma_era_400(era, year);
    lemma_era_400(era, year - 1);
}

/// The day of the year, counted from 1 March, falls in month `mp` counted from
/// March.
proof fn lemma_month_of_year(doy: int, mp: int)
    requires
        0 <= doy <= 365,
        mp == (5 * doy + 2) / 153,
    ensures
        0 <= mp <= 11,
        0 <= doy - (153 * mp + 2) / 5,
        doy - (153 * mp + 2) / 5 < if mp == 11 {
            29int
        } else if mp == 1 || mp == 3 || mp == 6 || mp == 8 {
            30int
        } else {
            31int
        },
        mp == 11 && doy - (153 * mp + 2) / 5 == 28 ==> doy == 365,
{
}

/// Day `doy`, counted from 1 March, of year `yoe` of an era.
proof fn lemma_civil(era: int, yoe: int, doy: int, mp: int)
    requires
        0 <= yoe <= 399,
        0 <= doy <= 365,
        doy == 365 ==> is_leap(yoe + 1),
        mp == (5 * doy + 2) / 153,
    ensures
        ({
            let day = doy - (153 * mp + 2) / 5 + 1;
            let month = if mp < 10 { mp + 3 } else { mp - 9 };
            let year = yoe + era * 400 + if month <= 2 { 1int } else { 0int };
            &&& is_date(year, month, day)
            &&& day_number(year, month, day) == era * 146_097 + (365 * yoe + yoe / 4 - yoe / 100)
                + doy - 719_468
        }),
{
    lemma_month_of_year(doy, mp);
    let base = 365 * yoe + yoe / 4 - yoe / 100;
    let day = doy - (153 * mp + 2) / 5 + 1;
    let month = if mp < 10 { mp + 3 } else { mp - 9 };
    let year = yoe + era * 400 + if month <= 2 { 1int } else { 0int };
    assert(days_before_year(yoe + 1) == base) by {
        assert(yoe / 400 == 0);
    }
    assert(days_before_year(1970) == 719_162);
    lemma_next_year(yoe);
    lemma_months(year);
    if month <= 2 {
        lemma_era(era, yoe + 1);
        assert(is_date(year, month, day));
        assert(days_before_year(year) == base + 146_097 * era);
    } else {
        lemma_era(era, yoe);
        assert(is_date(year, month, day));
        assert(days_before_year(year) == base - 365 - (if is_leap(yoe) { 1int } else { 0int }) + 146_097 * era);
    }
}

/// Two dates never share a day number.
pub proof fn lemma_day_number_injective(y1: int, m1: int, d1: int, y2: int, m2: int, d2: int)
    requires
        is_date(y1, m1, d1),
        is_date(y2, m2, d2),
        day_number(y1, m1, d1) == day_number(y2, m2, d2),
    ensures
        y1 == y2,
        m1 == m2,
        d1 == d2,
{
    lemma_months(y1);
    lemma_months(y2);
    lemma_next_year(y1);
    lemma_next_year(y2);
    if y1 < y2 {
        lemma_years_mono(y1 + 1, y2);
    }
    if y2 < y1 {
        lemma_years_mono(y2 + 1, y1);
    }
}

/// The date `(year, month, day)` that lies `z` days after 1 January 1970.
pub open spec fn civil(z: int) -> (int, int, int) {
    choose|date: (int, int, int)|
        #![trigger is_date(date.0, date.1, date.2)]
        is_date(date.0, date.1, date.2) && day_number(date.0, date.1, date.2) == z
}

/// A date is the civil date of its own day number.
pub proof fn lemma_civil_unique(z: int, year: int, month: int, day: int)
    requires
        is_date(year, month, day),
        day_number(year, month, day) == z,
    ensures
        civil(z) == (year, month, day),
{
    let date = (year, month, day);
    assert(is_date(date.0, date.1, date.2));
    let found = civil(z);
    lemma_day_number_injective(year, month, day, found.0, found.1, found.2);
}

/// The date that lies `z` days after 1 January 1970.
pub fn civil_from_days(z: i64) -> (date: (i64, u32, u32))
    requires
        z <= i64::MAX - 719_468,
    ensures
        is_date(date.0 as int, date.1 as int, date.2 as int),
        day_number(date.0 as int, date.1 as int, date.2 as int) == z,
        (date.0 as int, date.1 as int, date.2 as int) == civil(z as int),
{
    let days: i64 = z + 719_468;
    let era: i64 = if days >= 0 {
        days / 146_097
    } else {
        -1 - (-(days + 1)) / 146_097
    };
    assert(0 <= days - era * 146_097 < 146_097);
    let doe: i64 = days - era * 146_097;
    let yoe: i64 = (doe - doe / 1460 + doe / 36_524 - doe / 146_096) / 365;
    proof {
        lemma_year_of_era(doe as int, yoe as int);
    }
    let shifted_year: i64 = yoe + era * 400;
    let doy: i64 = doe - (365 * yoe + yoe / 4 - yoe / 100);
    let mp: i64 = (5 * doy + 2) / 153;
    proof {
        lemma_month_of_year(doy as int, mp as int);
    }
    let day: u32 = (doy - (153 * mp + 2) / 5 + 1) as u32;
    let month: u32 = (if mp < 10 {
        mp + 3
    } else {
        mp - 9
    }) as u32;
    let year: i64 = if month <= 2 {
        shifted_year + 1
    } else {
        shifted_year
    };
    proof {
        lemma_civil(era as int, yoe as int, doy as int, mp as int);
        lemma_civil_unique(z as int, year as int, month as int, day as int);
    }
    (year, month, day)
}

/// The instant `millis` milliseconds after 1 January 1970 UTC, as
/// `YYYY-MM-DDTHH:MM:SS.mmmZ`.
pub open spec fn rfc3339(millis: nat) -> Seq<char> {
    let secs = millis / 1000;
    let date = civil((secs / 86_400) as int);
    let of_day = secs % 86_400;
    text::padded(date.0 as nat, 4).push('-') + text::padded(date.1 as nat, 2).push('-') + text::padded(
        date.2 as nat,
        2,
    ).push('T') + text::padded(of_day / 3600, 2).push(':') + text::padded((of_day % 3600) / 60, 2).push(':')
        + text::padded(of_day % 60, 2).push('.') + text::padded(millis % 1000, 3).push('Z')
}

/// Whether `text` is the RFC 3339 text of some instant since 1970.
pub open spec fn is_timestamp(text: Seq<char>) -> bool {
    exists|millis: u64| text == #[trigger] rfc3339(millis as nat)
}

/// The RFC 3339 text of the instant `millis` milliseconds after 1 January 1970.
pub fn rfc3339_from_millis(millis: u64) -> (out: String)
    ensures
        out@ == rfc3339(millis as nat),
{
    let secs: u64 = millis / 1000;
    let subsec_millis: u64 = millis % 1000;
    let days: u64 = secs / 86_400;
    let secs_of_day: u64 = secs % 86_400;
    let (year, month, day) = civil_from_days(days as i64);
    proof {
        if year < 1970 {
            lemma_years_mono(year + 1, 1970);
            lemma_next_year(year as int);
            lemma_months(year as int);
        }
    }
    let mut out = String::new();
    push_padded(&mut out, year as u128, 4);
    out.push('-');
    push_padded(&mut out, month as u128, 2);
    out.push('-');
    push_padded(&mut out, day as u128, 2);
    out.push('T');
    push_padded(&mut out, (secs_of_day / 3600) as u128, 2);
    out.push(':');
    push_padded(&mut out, ((secs_of_day % 3600) / 60) as u128, 2);
    out.push(':');
    push_padded(&mut out, (secs_of_day % 60) as u128, 2);
    out.push('.');
    push_padded(&mut out, subsec_millis as u128, 3);
    out.push('Z');
    assert(out@ =~= rfc3339(millis as nat));
    out
}

/// Days since 1970 and dates are in step: the later day has the later date.
pub proof fn lemma_date_order(y1: int, m1: int, d1: int, y2: int, m2: int, d2: int)
    requires
        is_date(y1, m1, d1),
        is_date(y2, m2, d2),
        day_number(y1, m1, d1) < day_number(y2, m2, d2),
    ensures
        y1 < y2 || (y1 == y2 && (m1 < m2 || (m1 == m2 && d1 < d2))),
{
    lemma_months(y1);
    lemma_months(y2);
    if y2 < y1 {
        lemma_next_year(y2);
        lemma_years_mono(y2 + 1, y1);
    }
}

proof fn lemma_civil_is_date(z: int)
    ensures
        ({
            let (year, month, day) = civil(z);
            is_date(year, month, day) && day_number(year, month, day) == z
        }),
{
    let days = z + 719_468;
    let era = days / 146_097;
    let doe = days - era * 146_097;
    let yoe = (doe - doe / 1460 + doe / 36_524 - doe / 146_096) / 365;
    lemma_year_of_era(doe, yoe);
    let doy = doe - (365 * yoe + yoe / 4 - yoe / 100);
    let mp = (5 * doy + 2) / 153;
    lemma_civil(era, yoe, doy, mp);
    let month = if mp < 10 { mp + 3 } else { mp - 9 };
    lemma_civil_unique(
        z,
        yoe + era * 400 + if month <= 2 { 1int } else { 0int },
        month,
        doy - (153 * mp + 2) / 5 + 1,
    );
}

/// A field of a text decides, and what stands behind it where two fields are equal.
proof fn lemma_field(m: nat, n: nat, width: nat, c: char, x: Seq<char>, y: Seq<char>)
    requires
        width > 0,
        m < text::pow10(width),
        n < text::pow10(width),
        m < n || (m == n && order::lex_less(|p: char, q: char| p < q, x, y)),
    ensures
        order::lex_less(
            |p: char, q: char| p < q,
            text::padded(m, width).push(c) + x,
            text::padded(n, width).push(c) + y,
        ),
{
    let less = |p: char, q: char| p < q;
    let a = text::padded(m, width);
    let b = text::padded(n, width);
    if m < n {
        text::lemma_padded_order(m, n, width);
    }
    order::lemma_lex_concat(less, a, seq![c] + x, b, seq![c] + y);
    order::lemma_lex_concat(less, seq![c], x, seq![c], y);
    assert(a.push(c) + x =~= a + (seq![c] + x));
    assert(b.push(c) + y =~= b + (seq![c] + y));
}

/// The text of a date.
spec fn date_text(date: (int, int, int), rest: Seq<char>) -> Seq<char> {
    text::padded(date.0 as nat, 4).push('-') + (text::padded(date.1 as nat, 2).push('-') + (
    text::padded(date.2 as nat, 2).push('T') + rest))
}

/// The text of a time of day, `secs` seconds and `millis` milliseconds after midnight.
spec fn time_text(secs: nat, millis: nat) -> Seq<char> {
    text::padded(secs / 3600, 2).push(':') + (text::padded((secs % 3600) / 60, 2).push(':') + (
    text::padded(secs % 60, 2).push('.') + (text::padded(millis, 3).push('Z') + Seq::<
        char,
    >::empty())))
}

proof fn lemma_text_parts(millis: nat)
    ensures
        rfc3339(millis) == date_text(
            civil((millis / 1000 / 86_400) as int),
            time_text(millis / 1000 % 86_400, millis % 1000),
        ),
{
    assert(rfc3339(millis) =~= date_text(
        civil((millis / 1000 / 86_400) as int),
        time_text(millis / 1000 % 86_400, millis % 1000),
    ));
}

proof fn lemma_date_texts(d1: (int, int, int), x: Seq<char>, d2: (int, int, int), y: Seq<char>)
    requires
        0 <= d1.0 <= 9999,
        0 <= d2.0 <= 9999,
        is_date(d1.0, d1.1, d1.2),
        is_date(d2.0, d2.1, d2.2),
        d1.0 < d2.0 || (d1.0 == d2.0 && (d1.1 < d2.1 || (d1.1 == d2.1 && (d1.2 < d2.2 || (d1.2
            == d2.2 && order::lex_less(|p: char, q: char| p < q, x, y)))))),
    ensures
        order::lex_less(|p: char, q: char| p < q, date_text(d1, x), date_text(d2, y)),
{
    reveal_with_fuel(text::pow10, 5);
    let f3 = text::padded(d1.2 as nat, 2).push('T') + x;
    let g3 = text::padded(d2.2 as nat, 2).push('T') + y;
    let f2 = text::padded(d1.1 as nat, 2).push('-') + f3;
    let g2 = text::padded(d2.1 as nat, 2).push('-') + g3;
    if d1.0 == d2.0 {
        if d1.1 == d2.1 {
            lemma_field(d1.2 as nat, d2.2 as nat, 2, 'T', x, y);
        }
        lemma_field(d1.1 as nat, d2.1 as nat, 2, '-', f3, g3);
    }
    lemma_field(d1.0 as nat, d2.0 as nat, 4, '-', f2, g2);
}

proof fn lemma_time_texts(s1: nat, u1: nat, s2: nat, u2: nat)
    requires
        s1 < 86_400,
        s2 < 86_400,
        u1 < 1000,
        u2 < 1000,
        s1 < s2 || (s1 == s2 && u1 < u2),
    ensures
        order::lex_less(|p: char, q: char| p < q, time_text(s1, u1), time_text(s2, u2)),
{
    reveal_with_fuel(text::pow10, 4);
    let none = Seq::<char>::empty();
    let (h1, h2) = (s1 / 3600, s2 / 3600);
    let (i1, i2) = ((s1 % 3600) / 60, (s2 % 3600) / 60);
    let (c1, c2) = (s1 % 60, s2 % 60);
    let f7 = text::padded(u1, 3).push('Z') + none;
    let g7 = text::padded(u2, 3).push('Z') + none;
    let f6 = text::padded(c1, 2).push('.') + f7;
    let g6 = text::padded(c2, 2).push('.') + g7;
    let f5 = text::padded(i1, 2).push(':') + f6;
    let g5 = text::padded(i2, 2).push(':') + g6;
    lemma_clock_order(s1, s2);
    if h1 == h2 {
        if i1 == i2 {
            if c1 == c2 {
                lemma_field(u1, u2, 3, 'Z', none, none);
            }
            lemma_field(c1, c2, 2, '.', f7, g7);
        }
        lemma_field(i1, i2, 2, ':', f6, g6);
    }
    lemma_field(h1, h2, 2, ':', f5, g5);
}

/// The later second of a day has the later hour, minute and second.
proof fn lemma_clock_order(s1: nat, s2: nat)
    requires
        s1 <= s2 < 86_400,
    ensures
        s1 / 3600 < 24,
        s2 / 3600 < 24,
        s1 / 3600 <= s2 / 3600,
        s1 / 3600 == s2 / 3600 ==> (s1 % 3600) / 60 <= (s2 % 3600) / 60,
        s1 / 3600 == s2 / 3600 && (s1 % 3600) / 60 == (s2 % 3600) / 60 ==> s2 % 60 - s1 % 60 == s2
            - s1,
{
}

/// The first instant of the year 10000, in milliseconds since 1970.
pub const FIVE_DIGIT_YEARS: u64 = 253_402_300_800_000;

proof fn lemma_four_digit_year(z: int)
    requires
        0 <= z < 2_932_897,
    ensures
        0 <= civil(z).0 <= 9999,
        is_date(civil(z).0, civil(z).1, civil(z).2),
        day_number(civil(z).0, civil(z).1, civil(z).2) == z,
{
    let (year, month, day) = civil(z);
    lemma_civil_is_date(z);
    lemma_months(1969);
    lemma_months(10_000);
    assert(day_number(1969, 12, 31) == -1);
    assert(day_number(10_000, 1, 1) == 2_932_897);
    lemma_date_order(1969, 12, 31, year, month, day);
    lemma_date_order(year, month, day, 10_000, 1, 1);
}

/// Up to the end of the year 9999, the texts of instants stand in the order of the instants.
pub proof fn lemma_timestamps_sort(a: u64, b: u64)
    requires
        a < b < FIVE_DIGIT_YEARS,
    ensures
        order::lex_less(
            |p: char, q: char| p < q,
            rfc3339(a as nat),
            rfc3339(b as nat),
        ),
{
    let (m1, m2) = (a as nat, b as nat);
    let (s1, s2) = (m1 / 1000, m2 / 1000);
    let (z1, z2) = ((s1 / 86_400) as int, (s2 / 86_400) as int);
    lemma_text_parts(m1);
    lemma_text_parts(m2);
    lemma_four_digit_year(z1);
    lemma_four_digit_year(z2);
    let (d1, d2) = (civil(z1), civil(z2));
    if z1 < z2 {
        lemma_date_order(d1.0, d1.1, d1.2, d2.0, d2.1, d2.2);
    } else {
        lemma_time_texts(s1 % 86_400, m1 % 1000, s2 % 86_400, m2 % 1000);
    }
    lemma_date_texts(
        d1,
        time_text(s1 % 86_400, m1 % 1000),
        d2,
        time_text(s2 % 86_400, m2 % 1000),
    );
}

/// A reading of the system clock.
#[verifier::external_type_specification]
#[verifier::external_body]
pub struct ExSystemTime(std::time::SystemTime);

/// The error of subtracting a later reading of the clock from an earlier one.
#[verifier::external_type_specification]
#[verifier::external_body]
pub struct ExSystemTimeError(std::time::SystemTimeError);

/// `SystemTime::now` reads the system clock; nothing is claimed of the reading.
pub assume_specification[ std::time::SystemTime::now ]() -> std::time::SystemTime
;

/// `SystemTime::duration_since` gives the span between two readings, or an error
/// when `earlier` is the later one; nothing is claimed of either.
pub assume_specification[ std::time::SystemTime::duration_since ](
    this: &std::time::SystemTime,
    earlier: std::time::SystemTime,
) -> Result<std::time::Duration, std::time::SystemTimeError>
;

/// `Duration::as_millis` counts the whole milliseconds of a span; nothing is
/// claimed of the count.
pub assume_specification[ std::time::Duration::as_millis ](this: &std::time::Duration) -> u128
;

/// The constant `SystemTime::UNIX_EPOCH`, of which nothing is claimed.
#[verifier::external_body]
fn unix_epoch() -> std::time::SystemTime {
    std::time::SystemTime::UNIX_EPOCH
}

/// The milliseconds that a reading of the clock stands for: those since 1970, of which the
/// lowest 64 bits count, and none where the clock stands before 1970.
pub open spec fn reading_millis(since_epoch: Option<u128>) -> u64 {
    match since_epoch {
        Some(millis) => millis as u64,
        None => 0,
    }
}

/// The RFC 3339 text of a reading of the clock, given as the milliseconds since 1970, or
/// `None` where it stands before.
pub fn rfc3339_of_reading(since_epoch: Option<u128>) -> (out: String)
    ensures
        out@ == rfc3339(reading_millis(since_epoch) as nat),
{
    let millis: u64 = match since_epoch {
        Some(millis) => #[verifier::truncate] (millis as u64),
        None => 0,
    };
    rfc3339_from_millis(millis)
}

/// Current UTC time as RFC 3339 with millisecond precision, e.g.
/// `2026-08-02T18:03:11.123Z`. A clock that stands before 1970 reads as 1970.
pub fn now_rfc3339() -> (out: String)
    ensures
        is_timestamp(out@),
{
    let now = std::time::SystemTime::now();
    let since_epoch: Option<u128> = match now.duration_since(unix_epoch()) {
        Ok(since) => Some(since.as_millis()),
        Err(_) => None,
    };
    rfc3339_of_reading(since_epoch)
}

/// Day numbers count the days of the calendar: 1 January 1970 is day zero, and the number goes
/// up by one from each day to the next, over the ends of months and years, where the months
/// have 31 days but for April, June, September and November with 30 and February with 28, or
/// 29 in a year that four divides, but not a hundred unless four hundred does.
pub proof fn lemma_next_day(year: int, month: int, day: int)
    requires
        1 <= month <= 12,
        1 <= day,
    ensures
        ({
            let leap = year % 400 == 0 || (year % 4 == 0 && year % 100 != 0);
            let length = if month == 2 {
                if leap {
                    29int
                } else {
                    28
                }
            } else if month == 4 || month == 6 || month == 9 || month == 11 {
                30
            } else {
                31
            };
            let next = if day < length {
                (year, month, day + 1)
            } else if month < 12 {
                (year, month + 1, 1)
            } else {
                (year + 1, 1, 1)
            };
            &&& day_number(1970, 1, 1) == 0
            &&& is_date(year, month, day) <==> day <= length
            &&& day <= length ==> day_number(next.0, next.1, next.2) == day_number(
                year,
                month,
                day,
            ) + 1
        }),
{
    lemma_multiples(year);
    lemma_months(year);
    lemma_months(year + 1);
    lemma_next_year(year);
    reveal_with_fuel(days_before_month, 13);
    assert(days_before_month(1970, 1) == 0);
}

/// A timestamp tells the date and time of day that so many milliseconds after the start of 1970
/// are.
pub proof fn lemma_timestamp_tells(millis: nat) -> (at: (int, int, int, nat, nat, nat, nat))
    ensures
        ({
            let (year, month, day, hour, minute, second, rest) = at;
            &&& is_date(year, month, day)
            &&& hour < 24
            &&& minute < 60
            &&& second < 60
            &&& rest < 1000
            &&& day_number(year, month, day) * 86_400_000 + hour * 3_600_000 + minute * 60_000
                + second * 1000 + rest == millis
            &&& rfc3339(millis) == text::padded(year as nat, 4) + seq!['-'] + text::padded(
                month as nat,
                2,
            ) + seq!['-'] + text::padded(day as nat, 2) + seq!['T'] + text::padded(hour, 2) + seq![
                ':',
            ] + text::padded(minute, 2) + seq![':'] + text::padded(second, 2) + seq!['.']
                + text::padded(rest, 3) + seq!['Z']
        }),
{
    let secs = millis / 1000;
    let of_day = secs % 86_400;
    let z = (secs / 86_400) as int;
    lemma_civil_is_date(z);
    let (year, month, day) = civil(z);
    let hour = of_day / 3600;
    let minute = (of_day % 3600) / 60;
    let second = of_day % 60;
    let rest = millis % 1000;
    assert(of_day == hour * 3600 + minute * 60 + second);
    assert(millis == z * 86_400_000 + of_day * 1000 + rest);
    assert(rfc3339(millis) =~= text::padded(year as nat, 4) + seq!['-'] + text::padded(
        month as nat,
        2,
    ) + seq!['-'] + text::padded(day as nat, 2) + seq!['T'] + text::padded(hour, 2) + seq![':']
        + text::padded(minute, 2) + seq![':'] + text::padded(second, 2) + seq!['.']
        + text::padded(rest, 3) + seq!['Z']);
    (year, month, day, hour, minute, second, rest)
}

/// A clock that stands before 1970 reads as the start of 1970, and any other as it is.
pub proof fn lemma_reading_is_kept(millis: u128)
    ensures
        reading_millis(None) == 0,
        millis <= 0xffff_ffff_ffff_ffff ==> reading_millis(Some(millis)) == millis,
{
}

} // verus!
