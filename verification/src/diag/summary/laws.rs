//! What the summary's numbers and lists promise.

use vstd::prelude::*;

use crate::number::{
    decimal, digit_char, law_decimal_is_worth_its_number, law_fixed_text_shows_its_number,
    law_rounding_is_to_the_nearest, lemma_decimal_round_trip, lemma_powers_of_ten, nearest, padded_decimal, rounded,
    shows,
};
use crate::text::join_with;

use super::{capture_text, comma_text, rule_label, rule_parts, source_tags, without_repeats, CaptureState};

verus! {

/// A text without its commas.
pub open spec fn without_commas(s: Seq<char>) -> Seq<char>
    decreases s.len(),
{
    if s.len() == 0 {
        s
    } else if s.last() == ',' {
        without_commas(s.drop_last())
    } else {
        without_commas(s.drop_last()).push(s.last())
    }
}

proof fn lemma_without_commas_concat(a: Seq<char>, b: Seq<char>)
    ensures
        without_commas(a + b) == without_commas(a) + without_commas(b),
    decreases b.len(),
{
    if b.len() == 0 {
        assert(a + b =~= a);
        assert(without_commas(a) + without_commas(b) =~= without_commas(a));
    } else {
        assert((a + b).drop_last() =~= a + b.drop_last());
        assert((a + b).last() == b.last());
        lemma_without_commas_concat(a, b.drop_last());
        assert(without_commas(a + b) =~= without_commas(a) + without_commas(b));
    }
}

proof fn lemma_digits_have_no_comma(s: Seq<char>)
    requires
        forall|i: int| 0 <= i < s.len() ==> '0' <= #[trigger] s[i] <= '9',
    ensures
        without_commas(s) == s,
    decreases s.len(),
{
    if s.len() > 0 {
        assert('0' <= s[s.len() - 1] <= '9');
        assert forall|i: int| 0 <= i < s.drop_last().len() implies '0' <= #[trigger] s.drop_last()[i] <= '9' by {
            assert(s.drop_last()[i] == s[i]);
        }
        lemma_digits_have_no_comma(s.drop_last());
        assert(s.drop_last().push(s.last()) =~= s);
    }
}

proof fn lemma_three(n: nat)
    requires
        n < 1000,
    ensures
        padded_decimal(n, 3) == seq![digit_char(n / 100), digit_char(n / 10 % 10), digit_char(n % 10)],
        forall|i: int| 0 <= i < 3 ==> '0' <= #[trigger] padded_decimal(n, 3)[i] <= '9',
{
    reveal_with_fuel(decimal, 4);
    if n < 10 {
        assert(decimal(n).len() == 1);
        assert(padded_decimal(n, 3) =~= seq!['0', '0', digit_char(n)]);
    } else if n < 100 {
        assert(decimal(n) =~= seq![digit_char(n / 10), digit_char(n % 10)]);
        assert(padded_decimal(n, 3) =~= seq!['0', digit_char(n / 10), digit_char(n % 10)]);
    } else {
        assert(n / 10 / 10 == n / 100);
        assert(decimal(n) =~= seq![digit_char(n / 100), digit_char(n / 10 % 10), digit_char(n % 10)]);
    }
}

/// A number with commas is its decimal digits with a comma before every three
/// of them, counted from the end.
pub proof fn law_commas_stand_before_every_three_digits(n: nat)
    ensures
        without_commas(comma_text(n)) == decimal(n),
        forall|i: int|
            0 <= i < comma_text(n).len() ==> ((#[trigger] comma_text(n)[i]) == ',' <==> (comma_text(n).len() - 1 - i) % 4
                == 3),
        comma_text(n).len() > 0 && comma_text(n)[0] != ',',
    decreases n,
{
    lemma_decimal_round_trip(n);
    law_decimal_is_worth_its_number(n);
    if n < 1000 {
        lemma_digits_have_no_comma(decimal(n));
        reveal_with_fuel(decimal, 4);
        assert(decimal(n).len() <= 3);
        assert forall|i: int| 0 <= i < comma_text(n).len() implies ((#[trigger] comma_text(n)[i]) == ',' <==> (
        comma_text(n).len() - 1 - i) % 4 == 3) by {
            assert('0' <= decimal(n)[i] <= '9');
        }
    } else {
        let front = comma_text(n / 1000);
        let three = padded_decimal(n % 1000, 3);
        law_commas_stand_before_every_three_digits(n / 1000);
        lemma_three(n % 1000);
        lemma_digits_have_no_comma(three);
        lemma_without_commas_concat(front.push(','), three);
        assert(front.push(',').drop_last() =~= front);
        assert(without_commas(front.push(',')) == without_commas(front));
        let m = n / 10;
        assert(m / 10 / 10 == n / 1000 && m / 10 % 10 == n % 1000 / 100 && m % 10 == n % 1000 / 10 % 10 && n % 10 == n
            % 1000 % 10);
        assert(decimal(n) == decimal(n / 10).push(digit_char(n % 10)));
        assert(decimal(m) == decimal(m / 10).push(digit_char(m % 10)));
        assert(decimal(m / 10) == decimal(m / 10 / 10).push(digit_char(m / 10 % 10)));
        assert(decimal(n) =~= decimal(n / 1000) + three);
        let all = comma_text(n);
        assert forall|i: int| 0 <= i < all.len() implies ((#[trigger] all[i]) == ',' <==> (all.len() - 1 - i) % 4
            == 3) by {
            if i < front.len() {
                assert(all[i] == front[i]);
                assert(all.len() - 1 - i == front.len() - 1 - i + 4);
            } else if i > front.len() {
                assert(all[i] == three[i - front.len() - 1]);
            }
        }
        assert(all[0] == front[0]);
    }
}

/// A list without repeats has the same items, and no two neighbours alike.
pub proof fn law_no_neighbours_are_alike(v: Seq<Seq<char>>)
    ensures
        forall|x: Seq<char>| #[trigger] without_repeats(v).contains(x) <==> v.contains(x),
        forall|i: int|
            0 < i < without_repeats(v).len() ==> without_repeats(v)[i - 1] != #[trigger] without_repeats(v)[i],
        v.len() > 0 ==> without_repeats(v).len() > 0 && without_repeats(v).last() == v.last(),
    decreases v.len(),
{
    if v.len() > 0 {
        let front = v.drop_last();
        law_no_neighbours_are_alike(front);
        let kept = without_repeats(front);
        let all = without_repeats(v);
        assert forall|x: Seq<char>| #[trigger] all.contains(x) <==> v.contains(x) by {
            if v.contains(x) {
                let i = choose|i: int| 0 <= i < v.len() && v[i] == x;
                if i < front.len() {
                    assert(front[i] == x);
                    assert(front.contains(x));
                    assert(kept.contains(x));
                    let k = choose|k: int| 0 <= k < kept.len() && kept[k] == x;
                    assert(all[k] == x);
                } else {
                    assert(all[all.len() - 1] == x);
                }
            }
            if all.contains(x) {
                let k = choose|k: int| 0 <= k < all.len() && all[k] == x;
                if k < kept.len() {
                    assert(kept[k] == x);
                    assert(kept.contains(x));
                    let i = choose|i: int| 0 <= i < front.len() && front[i] == x;
                    assert(v[i] == x);
                } else {
                    assert(v[v.len() - 1] == x);
                }
            }
        }
        assert forall|i: int| 0 < i < all.len() implies all[i - 1] != #[trigger] all[i] by {
            if i < kept.len() {
                assert(kept[i - 1] != kept[i]);
            } else if v.len() > 1 {
                assert(kept.last() == front.last());
            }
        }
    }
}

/// What is said of a capture gives its window to the tenth of a second, its
/// events, what the kernel dropped and the sources.
pub proof fn law_a_capture_is_told_with_its_numbers(state: CaptureState) -> (window: Seq<char>)
    requires
        state is Captured,
    ensures
        state matches CaptureState::Captured { window_ms, sources, events, kernel_dropped } ==> {
            &&& capture_text(state) == window + " s aggregate, "@ + comma_text(events as nat) + " events, kernel drops "@
                + (match kernel_dropped {
                Some(n) => decimal(n as nat),
                None => "unknown"@,
            }) + ", sources "@ + join_with(source_tags(sources@), "+"@)
            &&& exists|tenths: int| #[trigger] shows(window, 1, tenths) && nearest(tenths, window_ms as int, 100)
        },
{
    if let CaptureState::Captured { window_ms, sources, events, kernel_dropped } = state {
        let tenths = rounded(window_ms as nat, 100);
        law_rounding_is_to_the_nearest(window_ms as nat, 100);
        lemma_powers_of_ten();
        law_fixed_text_shows_its_number(tenths, 10, 1);
        let t = crate::number::fixed_text(tenths, 10, 1);
        assert(shows(t, 1, tenths as int));
        t
    } else {
        Seq::empty()
    }
}

/// A rule that fired is told by how often, in the plural but for one.
pub proof fn law_a_rule_is_told_by_its_count(redaction: Seq<(Seq<char>, usize)>, i: int)
    requires
        0 <= i < redaction.len(),
    ensures
        rule_parts(redaction).len() == redaction.len(),
        rule_parts(redaction)[i] == decimal(redaction[i].1 as nat) + " "@ + rule_label(
            redaction[i].0,
            redaction[i].1 == 1,
        ),
        rule_label("home_path"@, true) == "home path"@ && rule_label("home_path"@, false) == "home paths"@,
{
}

} // verus!
