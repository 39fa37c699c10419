//! What link rates promise: a stated rate is read at its worth, and a written
//! one reads back exactly.

use vstd::prelude::*;

use crate::number::{
    all_digits, decimal, digit_char, law_decimal_is_worth_its_number, law_digits_read_at_their_worth, place_value,
    power_of_ten, read_uint,
};
use crate::text::{first_index, lemma_first_index_is};

use super::{fraction_text, millionths, short_text, stated_rate, unit_text};

verus! {

/// A rate stated in whole megabits per second is that many million bits per
/// second, and one with up to six digits behind a point is exact to the bit.
pub proof fn law_a_stated_rate_is_read_at_its_worth(whole: Seq<char>, part: Seq<char>)
    requires
        all_digits(whole),
        place_value(whole) <= 1_000_000_000,
        all_digits(part),
        part.len() <= 6,
    ensures
        stated_rate(whole) == place_value(whole) * 1_000_000,
        stated_rate(whole.push('.') + part) == place_value(whole) * 1_000_000 + place_value(part) * power_of_ten(
            (6 - part.len()) as nat,
        ),
{
    law_digits_read_at_their_worth(whole, 1_000_000_000);
    assert forall|j: int| 0 <= j < whole.len() implies whole[j] != '.' by {}
    lemma_first_index_is(whole, '.', whole.len() as int);
    assert(whole.take(whole.len() as int) =~= whole);
    let s = whole.push('.') + part;
    assert forall|j: int| 0 <= j < whole.len() implies s[j] != '.' by {
        assert(s[j] == whole[j]);
    }
    lemma_first_index_is(s, '.', whole.len() as int);
    assert(s.take(whole.len() as int) =~= whole);
    assert(s.skip(whole.len() as int + 1) =~= part);
    lemma_below_power(part);
    lemma_six();
    law_digits_read_at_their_worth(part, 999_999);
    assert('0' <= part[0] <= '9');
    assert(power_of_ten((6 - part.len()) as nat) == millionths(part.len()));
}

proof fn lemma_six()
    ensures
        power_of_ten(0) == 1,
        power_of_ten(1) == 10,
        power_of_ten(2) == 100,
        power_of_ten(3) == 1_000,
        power_of_ten(4) == 10_000,
        power_of_ten(5) == 100_000,
        power_of_ten(6) == 1_000_000,
{
    reveal_with_fuel(power_of_ten, 7);
}

proof fn lemma_below_power(s: Seq<char>)
    requires
        forall|i: int| 0 <= i < s.len() ==> '0' <= #[trigger] s[i] <= '9',
        s.len() <= 6,
    ensures
        0 <= place_value(s) < power_of_ten(s.len()),
        place_value(s) <= 999_999,
    decreases s.len(),
{
    lemma_six();
    if s.len() > 0 {
        assert forall|i: int| 0 <= i < s.drop_last().len() implies '0' <= #[trigger] s.drop_last()[i] <= '9' by {
            assert(s.drop_last()[i] == s[i]);
        }
        assert('0' <= s[s.len() - 1] <= '9');
        lemma_below_power(s.drop_last());
    }
}

/// Anything that does not start with digits states no rate.
pub proof fn law_other_text_states_no_rate(s: Seq<char>)
    requires
        s.len() == 0 || !('0' <= s[0] <= '9' || s[0] == '+'),
    ensures
        stated_rate(s) == 0,
{
    let k = first_index(s, '.') as int;
    let head = s.take(k);
    crate::text::lemma_first_index(s, '.');
    if read_uint(head, 10, super::MAX_STATED_MBPS as nat) is Some {
        assert(head.len() > 0);
        crate::number::law_only_digits_are_read(head, 10, super::MAX_STATED_MBPS as nat, 0);
        assert(head[0] == s[0]);
    }
}

proof fn lemma_power_step(p: nat)
    requires
        p > 0,
    ensures
        power_of_ten(p) == power_of_ten((p - 1) as nat) * 10,
        power_of_ten((p - 1) as nat) > 0,
    decreases p,
{
    if p > 1 {
        lemma_power_step((p - 1) as nat);
    }
}

proof fn lemma_place_value_front(d: char, s: Seq<char>)
    ensures
        place_value(seq![d] + s) == (d as int - '0' as int) * power_of_ten(s.len()) + place_value(s),
    decreases s.len(),
{
    let t = seq![d] + s;
    if s.len() == 0 {
        assert(t.drop_last() =~= Seq::<char>::empty());
        assert(place_value(t.drop_last()) == 0);
        assert(t.last() == d);
        assert(place_value(s) == 0);
        assert(power_of_ten(0) == 1);
    } else {
        assert(t.drop_last() =~= seq![d] + s.drop_last());
        assert(t.last() == s.last());
        lemma_place_value_front(d, s.drop_last());
        lemma_power_step(s.len());
        let x = d as int - '0' as int;
        let p = power_of_ten(s.drop_last().len());
        assert((x * p) * 10 == x * (p * 10)) by (nonlinear_arith);
    }
}

proof fn lemma_fraction(rest: nat, p: nat)
    requires
        0 < rest < power_of_ten(p),
    ensures
        ({
            let t = fraction_text(rest, power_of_ten(p) as nat);
            &&& 0 < t.len() <= p
            &&& all_digits(t)
            &&& place_value(t) * power_of_ten((p - t.len()) as nat) == rest
            &&& t.last() != '0'
        }),
    decreases p,
{
    assert(power_of_ten(0) == 1);
    assert(p > 0);
    lemma_power_step(p);
    let unit = power_of_ten(p) as nat;
    let small = power_of_ten((p - 1) as nat) as nat;
    assert(unit == small * 10);
    assert(unit >= 10);
    assert(unit / 10 == small);
    let d = rest * 10 / unit;
    assert(d == rest / small) by (nonlinear_arith)
        requires
            d == rest * 10 / unit,
            unit == small * 10,
            small > 0,
    ;
    let left = rest % small;
    assert(rest == d * small + left && left < small) by (nonlinear_arith)
        requires
            d == rest / small,
            left == rest % small,
            small > 0,
    ;
    assert(d < 10) by (nonlinear_arith)
        requires
            rest == d * small + left,
            rest < small * 10,
            small > 0,
    ;
    let c = digit_char(d);
    assert(decimal(d) =~= seq![c]);
    assert(c as int - '0' as int == d);
    let tail = fraction_text(left, small);
    let t = fraction_text(rest, unit);
    assert(t =~= seq![c] + tail);
    lemma_place_value_front(c, tail);
    if left == 0 {
        assert(tail =~= Seq::<char>::empty());
        assert(place_value(tail) == 0);
        assert(power_of_ten(0) == 1);
        assert(d > 0) by (nonlinear_arith)
            requires
                rest == d * small + left,
                rest > 0,
                left == 0,
        ;
        assert(place_value(t) == d * 1 + 0);
        assert(t.last() == c);
    } else {
        lemma_fraction(left, (p - 1) as nat);
        let m = tail.len();
        let q = power_of_ten((p - 1 - m) as nat);
        lemma_power_product(m, (p - 1 - m) as nat);
        let a = power_of_ten(m);
        let v = place_value(tail);
        assert((d * a + v) * q == d * (a * q) + v * q) by (nonlinear_arith);
        assert forall|i: int| 0 <= i < t.len() implies '0' <= #[trigger] t[i] <= '9' by {
            if i > 0 {
                assert(t[i] == tail[i - 1]);
            }
        }
        assert(t.last() == tail.last());
    }
}

proof fn lemma_power_product(m: nat, n: nat)
    ensures
        power_of_ten(m) * power_of_ten(n) == power_of_ten(m + n),
    decreases n,
{
    if n == 0 {
        assert(power_of_ten(0) == 1);
        assert(power_of_ten(m) * 1 == power_of_ten(m));
    } else {
        lemma_power_product(m, (n - 1) as nat);
        lemma_power_step(n);
        lemma_power_step(m + n);
        let a = power_of_ten(m);
        let b = power_of_ten((n - 1) as nat);
        assert(a * (b * 10) == (a * b) * 10) by (nonlinear_arith);
    }
}

/// Whether `t` writes `n` over ten to the power of `places`, exactly and
/// without a zero at the end of what stands behind the point.
pub open spec fn writes_exactly(t: Seq<char>, n: nat, places: nat) -> bool {
    ||| all_digits(t) && place_value(t) * power_of_ten(places) == n
    ||| exists|whole: Seq<char>, part: Seq<char>|
        t == #[trigger] (whole.push('.') + part) && all_digits(whole) && all_digits(part) && part.len() <= places
            && part.last() != '0' && place_value(whole) * power_of_ten(places) + place_value(part) * power_of_ten(
            (places - part.len()) as nat,
        ) == n
}

/// A number counted in units reads back exactly.
pub proof fn law_a_unit_text_reads_back(n: nat, places: nat)
    requires
        places > 0,
    ensures
        writes_exactly(unit_text(n, power_of_ten(places) as nat), n, places),
{
    lemma_power_step(places);
    let unit = power_of_ten(places) as nat;
    let whole = n / unit;
    let rest = n % unit;
    assert(n == whole * unit + rest && rest < unit) by (nonlinear_arith)
        requires
            whole == n / unit,
            rest == n % unit,
            unit > 0,
    ;
    law_decimal_is_worth_its_number(whole);
    if rest > 0 {
        lemma_fraction(rest, places);
        let part = fraction_text(rest, unit);
        assert(unit_text(n, unit) == decimal(whole).push('.') + part);
    }
}

/// A short rate reads back exactly: gigabits from one on, megabits below, and
/// `?` for none.
pub proof fn law_a_short_rate_reads_back(bps: nat) -> (t: Seq<char>)
    ensures
        bps == 0 ==> short_text(bps) == "?"@,
        0 < bps < 1_000_000_000 ==> short_text(bps) == t + "M"@ && writes_exactly(t, bps, 6),
        bps >= 1_000_000_000 ==> short_text(bps) == t + "G"@ && writes_exactly(t, bps, 9),
{
    reveal_with_fuel(power_of_ten, 10);
    assert(power_of_ten(6) == 1_000_000);
    assert(power_of_ten(9) == 1_000_000_000);
    if bps >= 1_000_000_000 {
        law_a_unit_text_reads_back(bps, 9);
        unit_text(bps, 1_000_000_000)
    } else {
        law_a_unit_text_reads_back(bps, 6);
        unit_text(bps, 1_000_000)
    }
}

} // verus!
