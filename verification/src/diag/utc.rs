//! Coordinated universal time from a Unix time.

use vstd::arithmetic::div_mod::{
    lemma_div_denominator, lemma_fundamental_div_mod, lemma_fundamental_div_mod_converse, lemma_mod_mod,
};
pub mod laws;

use vstd::prelude::*;

use crate::number::{decimal, digit_char, lemma_decimal_round_trip, padded_decimal, to_padded_decimal};
use crate::order::lex_lt;
use crate::text::{extend, extend_str, from_chars};

verus! {

/// Whether a year has a 29 February.
pub open spec fn is_leap(year: int) -> bool {
    year % 4 == 0 && (year % 100 != 0 || year % 400 == 0)
}

/// How many leap years there are from year 1 up to and including `year`.
pub open spec fn leaps_through(year: int) -> int {
    year / 4 - year / 100 + year / 400
}

/// The days from 1 January 1970 to 1 January of `year`.
pub open spec fn year_start(year: int) -> int {
    365 * (year - 1970) + leaps_through(year - 1) - leaps_through(1969)
}

/// The days of a month.
pub open spec fn month_days(year: int, month: int) -> int {
    if month == 2 {
        if is_leap(year) {
            29
        } else {
            28
        }
    } else if month == 4 || month == 6 || month == 9 || month == 11 {
        30
    } else {
        31
    }
}

/// The days of a year before a month.
pub open spec fn month_start(year: int, month: int) -> int
    decreases month,
{
    if month <= 1 {
        0
    } else {
        month_start(year, month - 1) + month_days(year, month - 1)
    }
}

/// The days from 1 January 1970 to a date.
pub open spec fn day_number(year: int, month: int, day: int) -> int {
    year_start(year) + month_start(year, month) + day - 1
}

/// Whether a year, month and day are a date of the Gregorian calendar.
pub open spec fn is_date(year: int, month: int, day: int) -> bool {
    1 <= month <= 12 && 1 <= day <= month_days(year, month)
}

proof fn lemma_month_starts(year: int)
    ensures
        month_start(year, 1) == 0,
        month_start(year, 2) == 31,
        month_start(year, 3) == 31 + month_days(year, 2),
        month_start(year, 4) == 62 + month_days(year, 2),
        month_start(year, 5) == 92 + month_days(year, 2),
        month_start(year, 6) == 123 + month_days(year, 2),
        month_start(year, 7) == 153 + month_days(year, 2),
        month_start(year, 8) == 184 + month_days(year, 2),
        month_start(year, 9) == 215 + month_days(year, 2),
        month_start(year, 10) == 245 + month_days(year, 2),
        month_start(year, 11) == 276 + month_days(year, 2),
        month_start(year, 12) == 306 + month_days(year, 2),
{
    reveal_with_fuel(month_start, 13);
}

#[verifier::spinoff_prover]
#[verifier::rlimit(40)]
proof fn lemma_march_year(era: int, century: int, quad: int, single: int)
    requires
        0 <= era,
        0 <= century <= 3,
        0 <= quad <= 24,
        0 <= single <= 3,
    ensures
        ({
            let s = era * 400 + century * 100 + quad * 4 + single;
            &&& leaps_through(s) == era * 97 + century * 24 + quad
            &&& is_leap(s + 1) <==> single == 3 && (quad < 24 || century == 3)
            &&& year_start(s + 1) == 365 * (s - 1969) + leaps_through(s) - 477
            &&& year_start(s + 1) - year_start(s) == (if is_leap(s) {
                366int
            } else {
                365
            })
        }),
{
    let s = era * 400 + century * 100 + quad * 4 + single;
    assert(s / 4 == era * 100 + century * 25 + quad);
    assert(s / 100 == era * 4 + century);
    assert(s / 400 == era);
    assert((s + 1) % 4 == 0 <==> single == 3);
    assert((s + 1) % 100 == 0 <==> single == 3 && quad == 24);
    assert((s + 1) % 400 == 0 <==> single == 3 && quad == 24 && century == 3);
}

proof fn lemma_march_day(doy: int)
    requires
        0 <= doy <= 365,
    ensures
        ({
            let mp = (5 * doy + 2) / 153;
            let before = (153 * mp + 2) / 5;
            &&& 0 <= mp <= 11
            &&& before <= doy
            &&& before == (if mp == 0 {
                0int
            } else if mp == 1 {
                31
            } else if mp == 2 {
                61
            } else if mp == 3 {
                92
            } else if mp == 4 {
                122
            } else if mp == 5 {
                153
            } else if mp == 6 {
                184
            } else if mp == 7 {
                214
            } else if mp == 8 {
                245
            } else if mp == 9 {
                275
            } else if mp == 10 {
                306
            } else {
                337
            })
            &&& doy - before < (if mp == 1 || mp == 3 || mp == 6 || mp == 8 {
                30int
            } else {
                31
            })
            &&& mp == 11 ==> doy - before < 29
        }),
{
}

/// The days since 1 January 1970 as a date.
pub fn civil_from_days(days: u64) -> (r: (u64, u64, u64))
    requires
        days <= 1_000_000_000_000_000,
    ensures
        is_date(r.0 as int, r.1 as int, r.2 as int),
        day_number(r.0 as int, r.1 as int, r.2 as int) == days,
{
    // Days since 1 March of year 0, so that a leap day ends its year.
    let z: u64 = days + 719_468;
    let era: u64 = z / 146_097;
    let doe: u64 = z % 146_097;
    let century: u64 = if doe / 36_524 > 3 {
        3
    } else {
        doe / 36_524
    };
    let in_century: u64 = doe - century * 36_524;
    let quad: u64 = in_century / 1_461;
    let in_quad: u64 = in_century - quad * 1_461;
    let single: u64 = if in_quad / 365 > 3 {
        3
    } else {
        in_quad / 365
    };
    let doy: u64 = in_quad - single * 365;
    let start: u64 = era * 400 + century * 100 + quad * 4 + single;
    proof {
        lemma_march_year(era as int, century as int, quad as int, single as int);
        lemma_march_day(doy as int);
        assert(days == year_start(start + 1) - 306 + doy);
    }
    let mp: u64 = (5 * doy + 2) / 153;
    let day: u64 = doy - (153 * mp + 2) / 5 + 1;
    let (year, month) = if mp < 10 {
        (start, mp + 3)
    } else {
        (start + 1, mp - 9)
    };
    proof {
        lemma_month_starts(year as int);
    }
    (year, month, day)
}

proof fn lemma_month_bounds(year: int, month: int)
    requires
        1 <= month <= 12,
    ensures
        0 <= month_start(year, month),
        month_start(year, month) + month_days(year, month) <= (if is_leap(year) {
            366int
        } else {
            365
        }),
        forall|later: int|
            month < later <= 12 ==> month_start(year, month) + month_days(year, month) <= #[trigger] month_start(
                year,
                later,
            ),
{
    lemma_month_starts(year);
}

/// A quotient grows where the remainder starts over.
#[verifier::spinoff_prover]
proof fn lemma_quotient_step(x: int, k: int)
    requires
        0 < k,
    ensures
        x / k - (x - 1) / k == (if x % k == 0 {
            1int
        } else {
            0
        }),
{
    let q = x / k;
    let r = x % k;
    lemma_fundamental_div_mod(x, k);
    if r == 0 {
        assert(x - 1 == k * (q - 1) + (k - 1)) by (nonlinear_arith)
            requires
                x == k * q + r,
                r == 0,
        ;
        assert(k * (q - 1) == (q - 1) * k) by (nonlinear_arith);
        lemma_fundamental_div_mod_converse(x - 1, k, q - 1, k - 1);
    } else {
        lemma_fundamental_div_mod_converse(x - 1, k, q, r - 1);
    }
}

#[verifier::spinoff_prover]
proof fn lemma_year_length(year: int)
    ensures
        year_start(year + 1) - year_start(year) == (if is_leap(year) {
            366int
        } else {
            365
        }),
{
    lemma_quotient_step(year, 4);
    lemma_quotient_step(year, 100);
    lemma_quotient_step(year, 400);
}

proof fn lemma_years_ascend(a: int, b: int)
    requires
        a <= b,
    ensures
        year_start(a) <= year_start(b),
    decreases b - a,
{
    if a < b {
        lemma_years_ascend(a, b - 1);
        lemma_year_length(b - 1);
    }
}

proof fn lemma_dates_ascend(y: int, m: int, d: int, year: int, month: int, day: int)
    requires
        is_date(y, m, d),
        is_date(year, month, day),
        y < year || (y == year && (m < month || (m == month && d < day))),
    ensures
        day_number(y, m, d) < day_number(year, month, day),
{
    lemma_month_bounds(y, m);
    lemma_month_bounds(year, month);
    lemma_year_length(y);
    if y < year {
        lemma_years_ascend(y + 1, year);
    }
}

/// A day has one date: dates with the same day number are the same.
pub proof fn law_a_day_has_one_date(y: int, m: int, d: int, year: int, month: int, day: int)
    requires
        is_date(y, m, d),
        is_date(year, month, day),
        day_number(y, m, d) == day_number(year, month, day),
    ensures
        y == year && m == month && d == day,
{
    if y < year || (y == year && (m < month || (m == month && d < day))) {
        lemma_dates_ascend(y, m, d, year, month, day);
    } else if !(y == year && m == month && d == day) {
        lemma_dates_ascend(year, month, day, y, m, d);
    }
}

/// The date of a day.
pub open spec fn date_of(days: int) -> (int, int, int) {
    choose|t: (int, int, int)|
        #![trigger is_date(t.0, t.1, t.2)]
        is_date(t.0, t.1, t.2) && day_number(t.0, t.1, t.2) == days
}

/// A date is the date of its day.
proof fn lemma_date_of(y: int, m: int, d: int)
    requires
        is_date(y, m, d),
    ensures
        date_of(day_number(y, m, d)) == (y, m, d),
{
    let t = (y, m, d);
    assert(is_date(t.0, t.1, t.2));
    let c = date_of(day_number(y, m, d));
    assert(is_date(c.0, c.1, c.2) && day_number(c.0, c.1, c.2) == day_number(y, m, d));
    law_a_day_has_one_date(y, m, d, c.0, c.1, c.2);
}

/// The clock of a time is that of its second of the day.
proof fn lemma_clock(unix_secs: u64)
    ensures
        unix_secs % 86_400 % 3_600 == unix_secs % 3_600,
        unix_secs % 86_400 % 60 == unix_secs % 60,
{
    lemma_mod_mod(unix_secs as int, 3_600, 24);
    lemma_mod_mod(unix_secs as int, 60, 1_440);
}

/// The parts of a Unix time: the date, the hour, the minute and the second.
pub fn utc_parts(unix_secs: u64) -> (r: (u64, u64, u64, u64, u64, u64))
    ensures
        (r.0 as int, r.1 as int, r.2 as int) == date_of(unix_secs as int / 86_400),
        is_date(r.0 as int, r.1 as int, r.2 as int),
        day_number(r.0 as int, r.1 as int, r.2 as int) == unix_secs as int / 86_400,
        r.3 == unix_secs % 86_400 / 3_600,
        r.4 == unix_secs % 3_600 / 60,
        r.5 == unix_secs % 60,
{
    let days: u64 = unix_secs / 86_400;
    let secs: u64 = unix_secs % 86_400;
    let (y, m, d) = civil_from_days(days);
    proof {
        lemma_date_of(y as int, m as int, d as int);
        lemma_clock(unix_secs);
    }
    (y, m, d, secs / 3_600, (secs % 3_600) / 60, secs % 60)
}

/// A number with two digits.
pub open spec fn two(n: int) -> Seq<char> {
    padded_decimal(n as nat, 2)
}

/// `YYYYMMDDTHHMMSSZ`.
pub open spec fn stamp_text(unix_secs: u64) -> Seq<char> {
    let (y, m, d) = date_of(unix_secs as int / 86_400);
    padded_decimal(y as nat, 4) + two(m) + two(d) + "T"@ + two(unix_secs as int % 86_400 / 3_600) + two(
        unix_secs as int % 3_600 / 60,
    ) + two(unix_secs as int % 60) + "Z"@
}

/// `YYYY-MM-DDTHH:MM:SSZ`.
pub open spec fn iso_text(unix_secs: u64) -> Seq<char> {
    let (y, m, d) = date_of(unix_secs as int / 86_400);
    padded_decimal(y as nat, 4) + "-"@ + two(m) + "-"@ + two(d) + "T"@ + two(unix_secs as int % 86_400 / 3_600)
        + ":"@ + two(unix_secs as int % 3_600 / 60) + ":"@ + two(unix_secs as int % 60) + "Z"@
}

/// `YYYYMMDDTHHMMSSZ`, the bundle directory's suffix.
pub fn utc_stamp(unix_secs: u64) -> (r: String)
    ensures
        r@ == stamp_text(unix_secs),
{
    let (y, m, d, h, mi, s) = utc_parts(unix_secs);
    let mut v = to_padded_decimal(y, 4);
    extend(&mut v, &to_padded_decimal(m, 2));
    extend(&mut v, &to_padded_decimal(d, 2));
    extend_str(&mut v, "T");
    extend(&mut v, &to_padded_decimal(h, 2));
    extend(&mut v, &to_padded_decimal(mi, 2));
    extend(&mut v, &to_padded_decimal(s, 2));
    extend_str(&mut v, "Z");
    from_chars(&v)
}

/// `YYYY-MM-DDTHH:MM:SSZ`, the manifest's `created_utc`.
pub fn utc_iso(unix_secs: u64) -> (r: String)
    ensures
        r@ == iso_text(unix_secs),
{
    let (y, m, d, h, mi, s) = utc_parts(unix_secs);
    let mut v = to_padded_decimal(y, 4);
    extend_str(&mut v, "-");
    extend(&mut v, &to_padded_decimal(m, 2));
    extend_str(&mut v, "-");
    extend(&mut v, &to_padded_decimal(d, 2));
    extend_str(&mut v, "T");
    extend(&mut v, &to_padded_decimal(h, 2));
    extend_str(&mut v, ":");
    extend(&mut v, &to_padded_decimal(mi, 2));
    extend_str(&mut v, ":");
    extend(&mut v, &to_padded_decimal(s, 2));
    extend_str(&mut v, "Z");
    from_chars(&v)
}

/// Every day from 1 January 1970 on has a date.
pub proof fn law_every_day_has_a_date(days: int)
    requires
        0 <= days,
    ensures
        ({
            let (y, m, d) = date_of(days);
            1970 <= y && is_date(y, m, d) && day_number(y, m, d) == days
        }),
    decreases days,
{
    let t = date_on(days);
    lemma_date_of(t.0, t.1, t.2);
}

proof fn date_on(days: int) -> (t: (int, int, int))
    requires
        0 <= days,
    ensures
        1970 <= t.0,
        is_date(t.0, t.1, t.2),
        day_number(t.0, t.1, t.2) == days,
    decreases days,
{
    if days == 0 {
        lemma_month_starts(1970);
        (1970, 1, 1)
    } else {
        let (y, m, d) = date_on(days - 1);
        lemma_month_starts(y);
        lemma_month_starts(y + 1);
        lemma_year_length(y);
        if d < month_days(y, m) {
            (y, m, d + 1)
        } else if m < 12 {
            (y, m + 1, 1)
        } else {
            (y + 1, 1, 1)
        }
    }
}

/// A text without `-` and `:`.
pub open spec fn without_separators(s: Seq<char>) -> Seq<char>
    decreases s.len(),
{
    if s.len() == 0 {
        s
    } else if s.last() == '-' || s.last() == ':' {
        without_separators(s.drop_last())
    } else {
        without_separators(s.drop_last()).push(s.last())
    }
}

proof fn lemma_without_separators_concat(a: Seq<char>, b: Seq<char>)
    ensures
        without_separators(a + b) == without_separators(a) + without_separators(b),
    decreases b.len(),
{
    if b.len() == 0 {
        assert(a + b =~= a);
        assert(without_separators(a) + b =~= without_separators(a));
    } else {
        assert((a + b).drop_last() =~= a + b.drop_last());
        lemma_without_separators_concat(a, b.drop_last());
        assert(without_separators(a + b) =~= without_separators(a) + without_separators(b));
    }
}

/// Text of which nothing is a separator stays as it is.
proof fn lemma_no_separator(s: Seq<char>)
    requires
        forall|i: int| 0 <= i < s.len() ==> (#[trigger] s[i]) != '-' && s[i] != ':',
    ensures
        without_separators(s) == s,
    decreases s.len(),
{
    if s.len() > 0 {
        lemma_no_separator(s.drop_last());
        assert(s.drop_last().push(s.last()) =~= s);
    }
}

proof fn lemma_padded_has_no_separator(n: nat, width: nat)
    ensures
        without_separators(padded_decimal(n, width)) == padded_decimal(n, width),
{
    lemma_decimal_round_trip(n);
    let s = padded_decimal(n, width);
    let k = s.len() - decimal(n).len();
    assert forall|i: int| 0 <= i < s.len() implies (#[trigger] s[i]) != '-' && s[i] != ':' by {
        if i >= k {
            assert(s[i] == decimal(n)[i - k]);
        }
    }
    lemma_no_separator(s);
}

/// The stamp of a time is its ISO text without the separators.
pub proof fn law_a_stamp_is_the_iso_text_without_separators(unix_secs: u64)
    ensures
        without_separators(iso_text(unix_secs)) == stamp_text(unix_secs),
{
    let (y, m, d) = date_of(unix_secs as int / 86_400);
    let year = padded_decimal(y as nat, 4);
    let hour = two(unix_secs as int % 86_400 / 3_600);
    let minute = two(unix_secs as int % 3_600 / 60);
    let second = two(unix_secs as int % 60);
    reveal_strlit("-");
    reveal_strlit(":");
    reveal_strlit("T");
    reveal_strlit("Z");
    lemma_padded_has_no_separator(y as nat, 4);
    lemma_padded_has_no_separator(m as nat, 2);
    lemma_padded_has_no_separator(d as nat, 2);
    lemma_padded_has_no_separator((unix_secs as int % 86_400 / 3_600) as nat, 2);
    lemma_padded_has_no_separator((unix_secs as int % 3_600 / 60) as nat, 2);
    lemma_padded_has_no_separator((unix_secs as int % 60) as nat, 2);
    assert("-"@ =~= seq!['-']);
    assert(":"@ =~= seq![':']);
    assert(without_separators("-"@) =~= Seq::<char>::empty()) by {
        reveal_with_fuel(without_separators, 2);
        assert("-"@.drop_last() =~= Seq::<char>::empty());
    }
    assert(without_separators(":"@) =~= Seq::<char>::empty()) by {
        reveal_with_fuel(without_separators, 2);
        assert(":"@.drop_last() =~= Seq::<char>::empty());
    }
    lemma_no_separator("T"@);
    lemma_no_separator("Z"@);
    let a = year + "-"@;
    lemma_without_separators_concat(year, "-"@);
    assert(without_separators(a) =~= year);
    let b = a + two(m);
    lemma_without_separators_concat(a, two(m));
    let c = b + "-"@;
    lemma_without_separators_concat(b, "-"@);
    assert(without_separators(c) =~= year + two(m));
    let e = c + two(d);
    lemma_without_separators_concat(c, two(d));
    let f = e + "T"@;
    lemma_without_separators_concat(e, "T"@);
    let g = f + hour;
    lemma_without_separators_concat(f, hour);
    let h = g + ":"@;
    lemma_without_separators_concat(g, ":"@);
    assert(without_separators(h) =~= year + two(m) + two(d) + "T"@ + hour);
    let i = h + minute;
    lemma_without_separators_concat(h, minute);
    let j = i + ":"@;
    lemma_without_separators_concat(i, ":"@);
    assert(without_separators(j) =~= year + two(m) + two(d) + "T"@ + hour + minute);
    let k = j + second;
    lemma_without_separators_concat(j, second);
    lemma_without_separators_concat(k, "Z"@);
}

/// The year of a time up to the end of 9999.
proof fn lemma_year_of(unix_secs: u64)
    requires
        unix_secs <= 253_402_300_799,
    ensures
        1970 <= date_of(unix_secs as int / 86_400).0 < 10_000,
{
    let days = unix_secs as int / 86_400;
    law_every_day_has_a_date(days);
    let (y, m, d) = date_of(days);
    if y >= 10_000 {
        lemma_years_ascend(10_000, y);
        lemma_month_bounds(y, m);
        assert(year_start(10_000) == 2_932_897);
    }
}

/// The digit of `n` in the decimal place of `unit`.
#[verifier::opaque]
spec fn place(n: int, unit: int) -> char {
    digit_char((n / unit % 10) as nat)
}

/// The first of the two places in which two numbers below a hundred differ.
#[verifier::spinoff_prover]
proof fn lemma_two_places(n: int, m: int)
    requires
        0 <= n < m < 100,
    ensures
        place(n, 10) < place(m, 10) || (place(n, 10) == place(m, 10) && place(n, 1) < place(m, 1)),
{
    reveal(place);
    if n / 10 == m / 10 {
        assert(n % 10 < m % 10);
    }
}

/// The first of the four places in which two years differ.
#[verifier::spinoff_prover]
proof fn lemma_four_places(n: int, m: int)
    requires
        1_000 <= n < m < 10_000,
    ensures
        place(n, 1_000) < place(m, 1_000) || (place(n, 1_000) == place(m, 1_000) && (place(n, 100) < place(m, 100) || (
        place(n, 100) == place(m, 100) && (place(n, 10) < place(m, 10) || (place(n, 10) == place(m, 10) && place(n, 1)
            < place(m, 1)))))),
{
    reveal(place);
    lemma_div_denominator(n, 100, 10);
    lemma_div_denominator(n, 10, 10);
    lemma_div_denominator(m, 100, 10);
    lemma_div_denominator(m, 10, 10);
    assert(n / 1_000 % 10 == n / 1_000 && m / 1_000 % 10 == m / 1_000);
    if n / 1_000 == m / 1_000 {
        if n / 100 % 10 == m / 100 % 10 {
            if n / 10 % 10 == m / 10 % 10 {
                assert(n / 10 == m / 10);
                assert(n % 10 < m % 10);
            } else {
                assert(n / 100 == m / 100);
                assert(n / 10 % 10 < m / 10 % 10);
            }
        } else {
            assert(n / 100 % 10 < m / 100 % 10);
        }
    } else {
        assert(n / 1_000 < m / 1_000);
    }
}

#[verifier::spinoff_prover]
proof fn lemma_two(n: int)
    requires
        0 <= n < 100,
    ensures
        two(n) == seq![place(n, 10), place(n, 1)],
{
    reveal(place);
    reveal_with_fuel(decimal, 2);
    assert(n / 10 % 10 == n / 10 && n / 1 == n);
    assert(two(n) =~= seq![place(n, 10), place(n, 1)]);
}

#[verifier::spinoff_prover]
proof fn lemma_four(n: int)
    requires
        1_000 <= n < 10_000,
    ensures
        padded_decimal(n as nat, 4) == seq![place(n, 1_000), place(n, 100), place(n, 10), place(n, 1)],
{
    reveal(place);
    reveal_with_fuel(decimal, 4);
    lemma_div_denominator(n, 10, 10);
    lemma_div_denominator(n, 100, 10);
    assert(n / 1_000 % 10 == n / 1_000 && n / 1 == n);
    assert(padded_decimal(n as nat, 4) =~= seq![place(n, 1_000), place(n, 100), place(n, 10), place(n, 1)]);
}

/// The characters of an ISO text.
#[verifier::opaque]
spec fn iso_chars(y: int, m: int, d: int, h: int, mi: int, s: int) -> Seq<char> {
    seq![
        place(y, 1_000),
        place(y, 100),
        place(y, 10),
        place(y, 1),
        '-',
        place(m, 10),
        place(m, 1),
        '-',
        place(d, 10),
        place(d, 1),
        'T',
        place(h, 10),
        place(h, 1),
        ':',
        place(mi, 10),
        place(mi, 1),
        ':',
        place(s, 10),
        place(s, 1),
        'Z',
    ]
}

proof fn lemma_iso_chars(unix_secs: u64)
    requires
        unix_secs <= 253_402_300_799,
    ensures
        ({
            let (y, m, d) = date_of(unix_secs as int / 86_400);
            iso_text(unix_secs) == iso_chars(
                y,
                m,
                d,
                unix_secs as int % 86_400 / 3_600,
                unix_secs as int % 3_600 / 60,
                unix_secs as int % 60,
            )
        }),
        iso_text(unix_secs).len() == 20,
{
    law_every_day_has_a_date(unix_secs as int / 86_400);
    lemma_year_of(unix_secs);
    let (y, m, d) = date_of(unix_secs as int / 86_400);
    let h = unix_secs as int % 86_400 / 3_600;
    let mi = unix_secs as int % 3_600 / 60;
    let s = unix_secs as int % 60;
    reveal_strlit("-");
    reveal_strlit(":");
    reveal_strlit("T");
    reveal_strlit("Z");
    lemma_four(y);
    lemma_two(m);
    lemma_two(d);
    lemma_two(h);
    lemma_two(mi);
    lemma_two(s);
    reveal(iso_chars);
    assert(iso_text(unix_secs) =~= iso_chars(y, m, d, h, mi, s));
}

proof fn lemma_lex_at(a: Seq<char>, b: Seq<char>, k: int)
    requires
        0 <= k < a.len(),
        k < b.len(),
        forall|j: int| 0 <= j < k ==> a[j] == #[trigger] b[j],
        a[k] < b[k],
    ensures
        lex_lt(a, b),
    decreases k,
{
    if k > 0 {
        assert(a[0] == b[0]);
        assert forall|j: int| 0 <= j < k - 1 implies a.skip(1)[j] == #[trigger] b.skip(1)[j] by {
            assert(a[j + 1] == b[j + 1]);
        }
        lemma_lex_at(a.skip(1), b.skip(1), k - 1);
    }
}

/// A later year has the later text.
proof fn lemma_later_year(y: int, year: int, a: Seq<char>, b: Seq<char>)
    requires
        1_000 <= y < year < 10_000,
        exists|m: int, d: int, h: int, mi: int, s: int| a == #[trigger] iso_chars(y, m, d, h, mi, s),
        exists|m: int, d: int, h: int, mi: int, s: int| b == #[trigger] iso_chars(year, m, d, h, mi, s),
    ensures
        lex_lt(a, b),
{
    reveal(iso_chars);
    lemma_four_places(y, year);
    if place(y, 1_000) < place(year, 1_000) {
        lemma_lex_at(a, b, 0);
    } else if place(y, 100) < place(year, 100) {
        lemma_lex_at(a, b, 1);
    } else if place(y, 10) < place(year, 10) {
        lemma_lex_at(a, b, 2);
    } else {
        lemma_lex_at(a, b, 3);
    }
}

/// Where two texts are the same up to position `k`, and a smaller number of
/// two digits stands there in the first, the second is the later.
proof fn lemma_later_at(n: int, m: int, a: Seq<char>, b: Seq<char>, k: int)
    requires
        0 <= n < m < 100,
        0 <= k,
        k + 1 < a.len(),
        k + 1 < b.len(),
        forall|j: int| 0 <= j < k ==> a[j] == #[trigger] b[j],
        a[k] == place(n, 10),
        a[k + 1] == place(n, 1),
        b[k] == place(m, 10),
        b[k + 1] == place(m, 1),
    ensures
        lex_lt(a, b),
{
    lemma_two_places(n, m);
    if place(n, 10) < place(m, 10) {
        lemma_lex_at(a, b, k);
    } else {
        lemma_lex_at(a, b, k + 1);
    }
}

/// In one year, a later month, day, hour, minute or second has the later
/// text.
proof fn lemma_later(y: int, a: (int, int, int, int, int), b: (int, int, int, int, int))
    requires
        0 <= a.0 < 100,
        0 <= a.1 < 100,
        0 <= a.2 < 100,
        0 <= a.3 < 100,
        0 <= a.4 < 100,
        0 <= b.0 < 100,
        0 <= b.1 < 100,
        0 <= b.2 < 100,
        0 <= b.3 < 100,
        0 <= b.4 < 100,
        a.0 < b.0 || (a.0 == b.0 && (a.1 < b.1 || (a.1 == b.1 && (a.2 < b.2 || (a.2 == b.2 && (a.3 < b.3 || (a.3 == b.3
            && a.4 < b.4))))))),
    ensures
        lex_lt(iso_chars(y, a.0, a.1, a.2, a.3, a.4), iso_chars(y, b.0, b.1, b.2, b.3, b.4)),
{
    let s = iso_chars(y, a.0, a.1, a.2, a.3, a.4);
    let t = iso_chars(y, b.0, b.1, b.2, b.3, b.4);
    reveal(iso_chars);
    if a.0 < b.0 {
        lemma_later_at(a.0, b.0, s, t, 5);
    } else if a.1 < b.1 {
        lemma_later_at(a.1, b.1, s, t, 8);
    } else if a.2 < b.2 {
        lemma_later_at(a.2, b.2, s, t, 11);
    } else if a.3 < b.3 {
        lemma_later_at(a.3, b.3, s, t, 14);
    } else {
        lemma_later_at(a.4, b.4, s, t, 17);
    }
}

/// On one day, a later time has a later hour, minute or second.
#[verifier::spinoff_prover]
proof fn lemma_later_clock(t: int, u: int)
    requires
        0 <= t < u,
        t / 86_400 == u / 86_400,
    ensures
        ({
            let (a, b) = (t % 86_400 / 3_600, u % 86_400 / 3_600);
            let (c, d) = (t % 3_600 / 60, u % 3_600 / 60);
            a < b || (a == b && (c < d || (c == d && t % 60 < u % 60)))
        }),
{
    lemma_mod_mod(t, 3_600, 24);
    lemma_mod_mod(u, 3_600, 24);
    lemma_mod_mod(t, 60, 60);
    lemma_mod_mod(u, 60, 60);
    let (s, r) = (t % 86_400, u % 86_400);
    assert(s < r);
    assert(s % 3_600 == t % 3_600 && r % 3_600 == u % 3_600);
    let (x, z) = (s % 3_600, r % 3_600);
    assert(x % 60 == t % 60 && z % 60 == u % 60);
    if s / 3_600 == r / 3_600 {
        assert(x < z);
        if x / 60 == z / 60 {
            assert(x % 60 < z % 60);
        }
    }
}

/// ISO texts of the years up to 9999 are twenty characters long and sort as
/// their times do.
pub proof fn law_iso_texts_sort_as_their_times(t: u64, u: u64)
    requires
        t < u <= 253_402_300_799,
    ensures
        iso_text(t).len() == 20,
        iso_text(u).len() == 20,
        lex_lt(iso_text(t), iso_text(u)),
{
    lemma_iso_chars(t);
    lemma_iso_chars(u);
    law_every_day_has_a_date(t as int / 86_400);
    law_every_day_has_a_date(u as int / 86_400);
    lemma_year_of(t);
    lemma_year_of(u);
    let (y, m, d) = date_of(t as int / 86_400);
    let (year, month, day) = date_of(u as int / 86_400);
    let a = (m, d, t as int % 86_400 / 3_600, t as int % 3_600 / 60, t as int % 60);
    let b = (month, day, u as int % 86_400 / 3_600, u as int % 3_600 / 60, u as int % 60);
    if t as int / 86_400 == u as int / 86_400 {
        lemma_later_clock(t as int, u as int);
        lemma_later(y, a, b);
    } else {
        assert(t as int / 86_400 < u as int / 86_400);
        if year < y || (year == y && (month < m || (month == m && day < d))) {
            lemma_dates_ascend(year, month, day, y, m, d);
        }
        if y < year {
            lemma_later_year(y, year, iso_text(t), iso_text(u));
        } else {
            lemma_later(y, a, b);
        }
    }
}

} // verus!
