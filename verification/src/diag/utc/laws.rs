//! What a time promises: the calendar runs on day by day from 1 January 1970,
//! and the text of a time reads back as that time.

use vstd::prelude::*;

use crate::number::{all_digits, decimal, law_decimal_is_worth_its_number, padded_decimal, place_value};

use super::{
    date_of, day_number, is_leap, iso_text, law_every_day_has_a_date, lemma_clock, lemma_date_of, lemma_month_starts,
    lemma_year_length, month_days, month_start, two,
};

verus! {

/// How many days a month has: thirty days hath September, April, June and
/// November; February has 28, and 29 in a year that four divides, but for
/// those that a hundred divides and four hundred does not.
pub open spec fn days_in(year: int, month: int) -> int {
    if month == 4 || month == 6 || month == 9 || month == 11 {
        30
    } else if month != 2 {
        31
    } else if year % 4 != 0 {
        28
    } else if year % 100 == 0 && year % 400 != 0 {
        28
    } else {
        29
    }
}

/// The calendar starts on 1 January 1970, and each day is followed by the
/// next: by the next of its month, by the first of the next month, or by
/// 1 January of the next year.
pub proof fn law_each_day_follows_the_one_before(days: int)
    requires
        days >= 0,
    ensures
        date_of(0) == (1970int, 1int, 1int),
        ({
            let (y, m, d) = date_of(days);
            date_of(days + 1) == (if d < days_in(y, m) {
                (y, m, d + 1)
            } else if m < 12 {
                (y, m + 1, 1int)
            } else {
                (y + 1, 1int, 1int)
            })
        }),
{
    assert(day_number(1970, 1, 1) == 0) by {
        lemma_month_starts(1970);
    }
    lemma_date_of(1970, 1, 1);
    law_every_day_has_a_date(days);
    let (y, m, d) = date_of(days);
    assert(days_in(y, m) == month_days(y, m));
    lemma_month_starts(y);
    lemma_month_starts(y + 1);
    if d < days_in(y, m) {
        lemma_date_of(y, m, d + 1);
    } else if m < 12 {
        assert(month_start(y, m + 1) == month_start(y, m) + month_days(y, m));
        lemma_date_of(y, m + 1, 1);
    } else {
        lemma_year_length(y);
        assert(month_start(y, 12) + 31 == (if is_leap(y) {
            366int
        } else {
            365
        }));
        lemma_date_of(y + 1, 1, 1);
    }
}

proof fn lemma_two_reads(n: int)
    requires
        0 <= n < 100,
    ensures
        two(n).len() == 2,
        all_digits(two(n)),
        place_value(two(n)) == n,
{
    law_decimal_is_worth_its_number(n as nat);
    let s = decimal(n as nat);
    if n < 10 {
        assert(s.len() == 1);
        let zeros = Seq::new(1, |i: int| '0');
        assert(two(n) =~= zeros + s);
        assert((zeros + s).drop_last() =~= zeros);
        assert(zeros.drop_last() =~= Seq::<char>::empty());
        assert(place_value(zeros.drop_last()) == 0);
        assert(place_value(zeros) == 0);
        assert(s.drop_last() =~= Seq::<char>::empty());
        assert(place_value(s.drop_last()) == 0);
        assert(s.last() as int - '0' as int == n);
        assert((zeros + s).last() == s.last());
        assert('0' <= s[0] <= '9');
    } else {
        assert(decimal(n as nat / 10).len() == 1);
        assert(s.len() == 2);
    }
}

/// The text of a time reads back: the hour, the minute and the second make up
/// the time of the day, and the date is that of the day.
pub proof fn law_a_time_reads_back(unix_secs: u64) -> (parts: (
    Seq<char>,
    Seq<char>,
    Seq<char>,
    Seq<char>,
    Seq<char>,
    Seq<char>,
))
    ensures
        iso_text(unix_secs) == parts.0 + "-"@ + parts.1 + "-"@ + parts.2 + "T"@ + parts.3 + ":"@ + parts.4 + ":"@
            + parts.5 + "Z"@,
        parts.1.len() == 2 && parts.2.len() == 2 && parts.3.len() == 2 && parts.4.len() == 2 && parts.5.len() == 2,
        all_digits(parts.0) && all_digits(parts.1) && all_digits(parts.2) && all_digits(parts.3) && all_digits(parts.4)
            && all_digits(parts.5),
        date_of(unix_secs as int / 86_400) == (place_value(parts.0), place_value(parts.1), place_value(parts.2)),
        place_value(parts.3) * 3_600 + place_value(parts.4) * 60 + place_value(parts.5) == unix_secs as int % 86_400,
        place_value(parts.3) < 24 && place_value(parts.4) < 60 && place_value(parts.5) < 60,
{
    law_every_day_has_a_date(unix_secs as int / 86_400);
    let (y, m, d) = date_of(unix_secs as int / 86_400);
    lemma_clock(unix_secs);
    let t = unix_secs as int % 86_400;
    let h = t / 3_600;
    let mi = unix_secs as int % 3_600 / 60;
    let s = unix_secs as int % 60;
    lemma_two_reads(m);
    lemma_two_reads(d);
    lemma_two_reads(h);
    lemma_two_reads(mi);
    lemma_two_reads(s);
    lemma_year_reads(y as nat);
    assert(t % 3_600 == unix_secs as int % 3_600);
    assert(t % 60 == s);
    assert(t % 3_600 % 60 == t % 60) by {
        assert(t == 3_600 * (t / 3_600) + t % 3_600);
    }
    (padded_decimal(y as nat, 4), two(m), two(d), two(h), two(mi), two(s))
}

proof fn lemma_year_reads(y: nat)
    ensures
        all_digits(padded_decimal(y, 4)),
        place_value(padded_decimal(y, 4)) == y,
{
    law_decimal_is_worth_its_number(y);
    let s = decimal(y);
    if s.len() < 4 {
        let pad = (4 - s.len()) as nat;
        let zeros = Seq::new(pad, |i: int| '0');
        assert(padded_decimal(y, 4) =~= zeros + s);
        lemma_zeros_in_front(pad, s);
        assert forall|i: int| 0 <= i < (zeros + s).len() implies '0' <= #[trigger] (zeros + s)[i] <= '9' by {
            if i >= pad {
                assert((zeros + s)[i] == s[i - pad]);
            }
        }
    }
}

proof fn lemma_zeros_in_front(n: nat, s: Seq<char>)
    ensures
        place_value(Seq::new(n, |i: int| '0') + s) == place_value(s),
    decreases n + s.len(),
{
    let zeros = Seq::new(n, |i: int| '0');
    let all = zeros + s;
    if s.len() > 0 {
        assert(all.drop_last() =~= zeros + s.drop_last());
        assert(all.last() == s.last());
        lemma_zeros_in_front(n, s.drop_last());
    } else if n > 0 {
        assert(all.drop_last() =~= Seq::new((n - 1) as nat, |i: int| '0') + s);
        lemma_zeros_in_front((n - 1) as nat, s);
        assert(all.last() == '0');
        assert(place_value(s) == 0);
    } else {
        assert(all =~= s);
    }
}

} // verus!
