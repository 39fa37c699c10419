//! The size of a number that text writes, exactly: numbers compare by their
//! sign, then by the place of their first digit, then digit by digit.

use vstd::prelude::*;

use crate::number::{
    digit_value, digits_end, digits_value, is_plain_number, leading_digits, plain_number_at, sign_end, spells, value,
    without_sign, word_at,
};
use crate::order::{chars_lt, lemma_lex_irreflexive, lemma_lex_total, lemma_lex_transitive, lex_le, lex_lt};
use crate::text::slice;

verus! {

/// The place of a first digit from which a number counts as infinite.
pub const INFINITE_POINT: i64 = 310;

/// The last place of a first digit at which a number does not count as zero.
pub const SMALLEST_POINT: i64 = -323;

/// A number: its sign (zero for zero), where the point stands as seen from
/// its first digit, and its digits without zeros at either end. 250 is
/// `0.25` with the point three places on.
pub struct Size {
    pub sign: int,
    pub point: int,
    pub digits: Seq<char>,
}

/// Zero.
pub open spec fn zero_size() -> Size {
    Size { sign: 0, point: 0, digits: Seq::empty() }
}

/// A number larger than every finite one.
pub open spec fn infinite_size() -> Size {
    Size { sign: 1, point: INFINITE_POINT as int, digits: Seq::empty() }
}

/// How many zeros a run of digits starts with.
pub open spec fn leading_zeros(s: Seq<char>) -> nat
    decreases s.len(),
{
    if s.len() > 0 && s[0] == '0' {
        1 + leading_zeros(s.skip(1))
    } else {
        0
    }
}

/// A run of digits without the zeros at its end.
pub open spec fn without_trailing_zeros(s: Seq<char>) -> Seq<char>
    decreases s.len(),
{
    if s.len() > 0 && s.last() == '0' {
        without_trailing_zeros(s.drop_last())
    } else {
        s
    }
}

/// The power of ten that an exponent states; none states nothing.
pub open spec fn exponent_stated(s: Seq<char>) -> int {
    if s.len() == 0 {
        0
    } else {
        let t = s.skip(1);
        let n = digits_value(without_sign(t), 10)->0;
        if t.len() > 0 && t[0] == '-' {
            -(n as int)
        } else {
            n as int
        }
    }
}

/// A positive number, as large as a double can tell: beyond that it is
/// infinite, or zero.
pub open spec fn scaled(point: int, digits: Seq<char>) -> Size {
    if point >= INFINITE_POINT {
        infinite_size()
    } else if point < SMALLEST_POINT {
        zero_size()
    } else {
        Size { sign: 1, point, digits }
    }
}

/// The number whose digits are `whole` and then `fraction`, times a power of
/// ten.
pub open spec fn digits_size(whole: Seq<char>, fraction: Seq<char>, exponent: int) -> Size {
    let all = whole + fraction;
    let zeros = leading_zeros(all);
    if zeros == all.len() {
        zero_size()
    } else {
        scaled(whole.len() - zeros + exponent, without_trailing_zeros(all.skip(zeros as int)))
    }
}

/// The size of an unsigned number.
pub open spec fn plain_size(s: Seq<char>) -> Size {
    let a = leading_digits(s);
    let t = s.skip(a as int);
    if t.len() > 0 && t[0] == '.' {
        let u = t.skip(1);
        let b = leading_digits(u);
        digits_size(s.take(a as int), u.take(b as int), exponent_stated(u.skip(b as int)))
    } else {
        digits_size(s.take(a as int), Seq::empty(), exponent_stated(t))
    }
}

/// The size of the number that text writes, as floating-point numbers are
/// written; what writes none, and what is not a number, counts as zero.
pub open spec fn size_of(s: Seq<char>) -> Size {
    let t = without_sign(s);
    let m = if is_plain_number(t) {
        plain_size(t)
    } else if spells(t, "inf"@, "INF"@) || spells(t, "infinity"@, "INFINITY"@) {
        infinite_size()
    } else {
        zero_size()
    };
    if s.len() > 0 && s[0] == '-' {
        Size { sign: -m.sign, ..m }
    } else {
        m
    }
}

/// Whether `a` is no larger than `b`, signs aside.
pub open spec fn reaches(a: Size, b: Size) -> bool {
    a.point < b.point || (a.point == b.point && lex_le(a.digits, b.digits))
}

/// Whether `a` is at most `b`.
pub open spec fn size_le(a: Size, b: Size) -> bool {
    if a.sign != b.sign {
        a.sign < b.sign
    } else if a.sign == 0 {
        true
    } else if a.sign > 0 {
        reaches(a, b)
    } else {
        reaches(b, a)
    }
}

proof fn lemma_reaches(a: Size, b: Size, c: Size)
    ensures
        reaches(a, b) || reaches(b, a),
        reaches(a, b) && reaches(b, c) ==> reaches(a, c),
{
    lemma_lex_total(a.digits, b.digits);
    if lex_lt(a.digits, b.digits) && lex_lt(b.digits, c.digits) {
        lemma_lex_transitive(a.digits, b.digits, c.digits);
    }
}

/// Sizes are in order: any two compare, and the order is transitive.
pub proof fn lemma_size_le(a: Size, b: Size, c: Size)
    ensures
        size_le(a, b) || size_le(b, a),
        size_le(a, b) && size_le(b, c) ==> size_le(a, c),
{
    lemma_reaches(a, b, c);
    lemma_reaches(c, b, a);
}

/// A power of ten.
spec fn ten_to(n: nat) -> nat
    decreases n,
{
    if n == 0 {
        1
    } else {
        10 * ten_to((n - 1) as nat)
    }
}

spec fn is_digits(s: Seq<char>) -> bool {
    forall|i: int| 0 <= i < s.len() ==> '0' <= #[trigger] s[i] <= '9'
}

spec fn number_of(s: Seq<char>) -> nat {
    digits_value(s, 10)->0
}

spec fn digit_of(c: char) -> nat {
    digit_value(c, 10)->0
}

proof fn lemma_number(s: Seq<char>)
    requires
        is_digits(s),
    ensures
        digits_value(s, 10) is Some,
        number_of(s) < ten_to(s.len()),
    decreases s.len(),
{
    if s.len() > 0 {
        lemma_number(s.drop_last());
        assert('0' <= s[s.len() - 1] <= '9');
    }
}

/// A number is its first digit, at its place, and the rest.
proof fn lemma_number_front(s: Seq<char>)
    requires
        is_digits(s),
        s.len() > 0,
    ensures
        is_digits(s.skip(1)),
        digit_of(s[0]) <= 9,
        number_of(s) == digit_of(s[0]) * ten_to((s.len() - 1) as nat) + number_of(s.skip(1)),
    decreases s.len(),
{
    let t = s.skip(1);
    assert(is_digits(t)) by {
        assert forall|i: int| 0 <= i < t.len() implies '0' <= #[trigger] t[i] <= '9' by {
            assert(t[i] == s[i + 1]);
        }
    }
    assert('0' <= s[0] <= '9');
    lemma_number(s);
    lemma_number(t);
    lemma_number(s.drop_last());
    if s.len() == 1 {
        assert(s.drop_last() =~= Seq::<char>::empty());
        assert(digits_value(s.drop_last(), 10) == Some(0nat));
        assert(number_of(s) == digit_of(s[0]));
        assert(t =~= Seq::<char>::empty());
        assert(ten_to(0) == 1);
        assert(digit_of(s[0]) * 1 == digit_of(s[0]));
    } else {
        lemma_number_front(s.drop_last());
        assert(s.drop_last().skip(1) =~= t.drop_last());
        assert(t.last() == s.last());
        lemma_number(t.drop_last());
        let d = digit_of(s[0]);
        let p = ten_to((s.len() - 2) as nat);
        let rest = number_of(t.drop_last());
        assert(ten_to((s.len() - 1) as nat) == 10 * p);
        assert(number_of(s) == number_of(s.drop_last()) * 10 + digit_of(s.last()));
        assert(number_of(t) == rest * 10 + digit_of(s.last()));
        assert((d * p + rest) * 10 == d * (10 * p) + rest * 10) by (nonlinear_arith);
    }
}

/// Runs of digits of one length compare as their numbers do.
proof fn lemma_same_length(a: Seq<char>, b: Seq<char>)
    requires
        is_digits(a),
        is_digits(b),
        a.len() == b.len(),
    ensures
        lex_lt(a, b) <==> number_of(a) < number_of(b),
        number_of(a) == number_of(b) ==> a == b,
    decreases a.len(),
{
    if a.len() == 0 {
        assert(a =~= b);
    } else {
        lemma_number_front(a);
        lemma_number_front(b);
        let (x, y) = (a.skip(1), b.skip(1));
        lemma_same_length(x, y);
        lemma_number(x);
        lemma_number(y);
        let p = ten_to((a.len() - 1) as nat);
        let (d, e) = (digit_of(a[0]), digit_of(b[0]));
        assert('0' <= a[0] <= '9' && '0' <= b[0] <= '9');
        if a[0] < b[0] {
            assert(d * p + p <= e * p) by (nonlinear_arith)
                requires
                    d + 1 <= e,
            ;
        } else if b[0] < a[0] {
            assert(e * p + p <= d * p) by (nonlinear_arith)
                requires
                    e + 1 <= d,
            ;
        } else if x == y {
            assert(a =~= seq![a[0]] + x);
            assert(b =~= seq![b[0]] + y);
        }
    }
}

spec fn is_zeros(s: Seq<char>) -> bool {
    forall|i: int| 0 <= i < s.len() ==> #[trigger] s[i] == '0'
}

proof fn lemma_cut_front(s: Seq<char>)
    requires
        s.len() > 0,
    ensures
        without_trailing_zeros(s) == (if is_zeros(s) {
            Seq::<char>::empty()
        } else {
            seq![s[0]] + without_trailing_zeros(s.skip(1))
        }),
        is_zeros(s) <==> s[0] == '0' && is_zeros(s.skip(1)),
        is_zeros(s.skip(1)) ==> without_trailing_zeros(s.skip(1)) == Seq::<char>::empty(),
    decreases s.len(),
{
    let t = s.skip(1);
    assert(is_zeros(s) ==> is_zeros(t)) by {
        if is_zeros(s) {
            assert forall|i: int| 0 <= i < t.len() implies #[trigger] t[i] == '0' by {
                assert(t[i] == s[i + 1]);
            }
        }
    }
    if s[0] == '0' && is_zeros(t) {
        assert forall|i: int| 0 <= i < s.len() implies #[trigger] s[i] == '0' by {
            if i > 0 {
                assert(t[i - 1] == s[i]);
            }
        }
    }
    if s.len() == 1 {
        assert(s.drop_last() =~= Seq::<char>::empty());
        assert(t =~= Seq::<char>::empty());
        assert(without_trailing_zeros(s.drop_last()) =~= Seq::<char>::empty());
        assert(without_trailing_zeros(t) =~= Seq::<char>::empty());
        assert(s =~= seq![s[0]]);
        assert(s.last() == s[0]);
    } else {
        lemma_cut_front(s.drop_last());
        lemma_cut_front(t);
        assert(s.drop_last().skip(1) =~= t.drop_last());
        assert(t.last() == s.last());
        if s.last() == '0' {
            assert(is_zeros(s) <==> is_zeros(s.drop_last())) by {
                if is_zeros(s) {
                    assert forall|i: int| 0 <= i < s.drop_last().len() implies #[trigger] s.drop_last()[i] == '0' by {
                        assert(s[i] == '0');
                    }
                }
                if is_zeros(s.drop_last()) {
                    assert forall|i: int| 0 <= i < s.len() implies #[trigger] s[i] == '0' by {
                        if i < s.len() - 1 {
                            assert(s.drop_last()[i] == '0');
                        }
                    }
                }
            }
        } else {
            assert(s[s.len() - 1] != '0');
            assert(s =~= seq![s[0]] + t);
            assert(t[t.len() - 1] != '0');
        }
    }
}

/// Zeros at the end do not change how runs of one length compare.
proof fn lemma_cut_compares(a: Seq<char>, b: Seq<char>)
    requires
        is_digits(a),
        is_digits(b),
        a.len() == b.len(),
    ensures
        lex_lt(without_trailing_zeros(a), without_trailing_zeros(b)) <==> lex_lt(a, b),
        without_trailing_zeros(a) == without_trailing_zeros(b) ==> a == b,
    decreases a.len(),
{
    if a.len() == 0 {
        assert(a =~= b);
    } else {
        lemma_cut_front(a);
        lemma_cut_front(b);
        lemma_number_front(a);
        lemma_number_front(b);
        let (x, y) = (a.skip(1), b.skip(1));
        lemma_cut_compares(x, y);
        let (c, d) = (without_trailing_zeros(a), without_trailing_zeros(b));
        assert('0' <= a[0] <= '9' && '0' <= b[0] <= '9');
        if !is_zeros(a) {
            assert(c.skip(1) =~= without_trailing_zeros(x));
        }
        if !is_zeros(b) {
            assert(d.skip(1) =~= without_trailing_zeros(y));
        }
        if a[0] == b[0] && x == y {
            assert(a =~= seq![a[0]] + x);
            assert(b =~= seq![b[0]] + y);
            assert(a == b);
        }
        if is_zeros(y) && y.len() > 0 {
            lemma_cut_front(y);
        }
        if is_zeros(x) && x.len() > 0 {
            lemma_cut_front(x);
        }
        if a[0] == b[0] {
            if is_zeros(a) && !is_zeros(b) {
                assert(without_trailing_zeros(x) == Seq::<char>::empty());
                if y.len() > 0 {
                    lemma_cut_front(y);
                }
            }
            if is_zeros(b) && !is_zeros(a) {
                assert(without_trailing_zeros(y) == Seq::<char>::empty());
                if x.len() > 0 {
                    lemma_cut_front(x);
                }
            }
        }
    }
}

/// A run of digits without the zeros it starts with.
spec fn without_leading_zeros(s: Seq<char>) -> Seq<char> {
    s.skip(leading_zeros(s) as int)
}

proof fn lemma_leading_zeros_cut(s: Seq<char>)
    requires
        is_digits(s),
    ensures
        leading_zeros(s) <= s.len(),
        is_digits(without_leading_zeros(s)),
        number_of(without_leading_zeros(s)) == number_of(s),
        leading_zeros(s) < s.len() ==> number_of(s) >= ten_to((s.len() - leading_zeros(s) - 1) as nat),
        leading_zeros(s) == s.len() ==> number_of(s) == 0,
    decreases s.len(),
{
    if s.len() == 0 {
        assert(without_leading_zeros(s) =~= s);
    } else {
        lemma_number_front(s);
        let t = s.skip(1);
        let p = ten_to((s.len() - 1) as nat);
        if s[0] == '0' {
            lemma_leading_zeros_cut(t);
            assert(without_leading_zeros(s) =~= without_leading_zeros(t));
            assert(digit_of(s[0]) == 0);
            assert(0 * p == 0);
        } else {
            assert(without_leading_zeros(s) =~= s);
            assert('0' <= s[0] <= '9');
            assert(digit_of(s[0]) * p >= p) by (nonlinear_arith)
                requires
                    digit_of(s[0]) >= 1,
            ;
        }
    }
}

proof fn lemma_ten_to_grows(m: nat, n: nat)
    requires
        m <= n,
    ensures
        ten_to(m) <= ten_to(n),
    decreases n,
{
    if m < n {
        lemma_ten_to_grows(m, (n - 1) as nat);
    }
}

proof fn lemma_whole_size(s: Seq<char>)
    requires
        0 < s.len() < INFINITE_POINT,
        is_digits(s),
    ensures
        size_of(s) == (if leading_zeros(s) == s.len() {
            zero_size()
        } else {
            Size {
                sign: 1,
                point: s.len() - leading_zeros(s),
                digits: without_trailing_zeros(without_leading_zeros(s)),
            }
        }),
{
    assert('0' <= s[0] <= '9');
    lemma_leading_digits_of(s);
    assert(s.skip(s.len() as int) =~= Seq::<char>::empty());
    assert(s.take(s.len() as int) =~= s);
    assert(s + Seq::<char>::empty() =~= s);
    lemma_leading_zeros_cut(s);
}

proof fn lemma_leading_digits_of(s: Seq<char>)
    requires
        is_digits(s),
    ensures
        leading_digits(s) == s.len(),
    decreases s.len(),
{
    if s.len() > 0 {
        lemma_number_front(s);
        assert('0' <= s[0] <= '9');
        lemma_leading_digits_of(s.skip(1));
    }
}

/// Whole numbers, however many zeros stand in front, compare as their values
/// do. Longer ones than a double can hold count as infinite.
pub proof fn law_whole_numbers_compare_by_value(a: Seq<char>, b: Seq<char>)
    requires
        0 < a.len() < INFINITE_POINT,
        0 < b.len() < INFINITE_POINT,
        digits_value(a, 10) is Some,
        digits_value(b, 10) is Some,
    ensures
        size_le(size_of(a), size_of(b)) <==> digits_value(a, 10)->0 <= digits_value(b, 10)->0,
{
    lemma_only_digits(a);
    lemma_only_digits(b);
    lemma_whole_size(a);
    lemma_whole_size(b);
    lemma_leading_zeros_cut(a);
    lemma_leading_zeros_cut(b);
    let (x, y) = (without_leading_zeros(a), without_leading_zeros(b));
    lemma_number(x);
    lemma_number(y);
    if x.len() > 0 {
        lemma_ten_to_grows(0, (x.len() - 1) as nat);
    }
    if y.len() > 0 {
        lemma_ten_to_grows(0, (y.len() - 1) as nat);
    }
    if x.len() > 0 && y.len() > 0 {
        if x.len() < y.len() {
            lemma_ten_to_grows(x.len(), (y.len() - 1) as nat);
        } else if y.len() < x.len() {
            lemma_ten_to_grows(y.len(), (x.len() - 1) as nat);
        } else {
            lemma_same_length(x, y);
            lemma_cut_compares(x, y);
        }
    }
}

proof fn lemma_only_digits(s: Seq<char>)
    requires
        digits_value(s, 10) is Some,
    ensures
        is_digits(s),
    decreases s.len(),
{
    if s.len() > 0 {
        lemma_only_digits(s.drop_last());
        assert forall|i: int| 0 <= i < s.len() implies '0' <= #[trigger] s[i] <= '9' by {
            if i < s.len() - 1 {
                assert(s[i] == s.drop_last()[i]);
            }
        }
    }
}

/// A number's size.
pub struct Measure {
    pub sign: i8,
    pub point: i64,
    pub digits: Vec<char>,
}

impl View for Measure {
    type V = Size;

    open spec fn view(&self) -> Size {
        Size { sign: self.sign as int, point: self.point as int, digits: self.digits@ }
    }
}

/// The largest exponent that is told apart; a larger one outweighs any run of
/// digits.
const LARGEST_EXPONENT: u128 = 1_000_000_000_000_000_000_000_000_000_000;

fn zero_measure() -> (r: Measure)
    ensures
        r@ == zero_size(),
{
    let r = Measure { sign: 0, point: 0, digits: Vec::new() };
    assert(r@.digits =~= Seq::<char>::empty());
    r
}

fn infinite_measure() -> (r: Measure)
    ensures
        r@ == infinite_size(),
{
    let r = Measure { sign: 1, point: INFINITE_POINT, digits: Vec::new() };
    assert(r@.digits =~= Seq::<char>::empty());
    r
}

/// The number that the digits from `from` on write, at most the largest that
/// is told apart.
fn exponent_digits(v: &Vec<char>, from: usize) -> (r: u128)
    requires
        from <= v.len(),
        leading_digits(v@.skip(from as int)) == v@.skip(from as int).len(),
    ensures
        digits_value(v@.skip(from as int), 10) matches Some(n) && r == (if n < LARGEST_EXPONENT {
            n as int
        } else {
            LARGEST_EXPONENT as int
        }),
{
    let ghost t = v@.skip(from as int);
    let ghost mut m: nat = 0;
    let mut r: u128 = 0;
    let mut i: usize = from;
    assert(t.take(0) =~= Seq::<char>::empty());
    while i < v.len()
        invariant
            from <= i <= v@.len(),
            t == v@.skip(from as int),
            leading_digits(t) == t.len(),
            digits_value(t.take(i - from), 10) == Some(m),
            r == (if m < LARGEST_EXPONENT {
                m as int
            } else {
                LARGEST_EXPONENT as int
            }),
        decreases v@.len() - i,
    {
        proof {
            lemma_all_digits(t, i - from);
        }
        assert(t.take(i - from + 1).drop_last() =~= t.take(i - from));
        assert(t.take(i - from + 1).last() == v@[i as int]);
        match value(v[i], 10) {
            Some(d) => {
                let wide: u128 = r * 10 + d as u128;
                r = if wide < LARGEST_EXPONENT {
                    wide
                } else {
                    LARGEST_EXPONENT
                };
                proof {
                    m = m * 10 + d as nat;
                }
            },
            None => {},
        }
        i = i + 1;
    }
    assert(t.take(t.len() as int) =~= t);
    r
}

proof fn lemma_all_digits(s: Seq<char>, i: int)
    requires
        leading_digits(s) == s.len(),
        0 <= i < s.len(),
    ensures
        '0' <= s[i] <= '9',
        digit_value(s[i], 10) is Some,
    decreases s.len(),
{
    if i > 0 {
        assert(s.skip(1).len() == s.len() - 1);
        lemma_all_digits(s.skip(1), i - 1);
    }
}

/// The power of ten that an exponent states, as far as powers are told apart.
fn exponent_from(v: &Vec<char>, from: usize) -> (r: i128)
    requires
        from <= v.len(),
        crate::number::is_exponent(v@.skip(from as int)),
    ensures
        ({
            let e = exponent_stated(v@.skip(from as int));
            r == (if e <= -(LARGEST_EXPONENT as int) {
                -(LARGEST_EXPONENT as int)
            } else if e >= LARGEST_EXPONENT {
                LARGEST_EXPONENT as int
            } else {
                e
            })
        }),
{
    if from >= v.len() {
        return 0;
    }
    let ghost s = v@.skip(from as int);
    assert(s.skip(1) =~= v@.skip(from + 1));
    let start = sign_end(v, from + 1);
    let n = exponent_digits(v, start);
    if v[from + 1] == '-' {
        -(n as i128)
    } else {
        n as i128
    }
}

proof fn lemma_leading_zeros_is(s: Seq<char>, k: int)
    requires
        0 <= k <= s.len(),
        forall|j: int| 0 <= j < k ==> #[trigger] s[j] == '0',
        k < s.len() ==> s[k] != '0',
    ensures
        leading_zeros(s) == k,
    decreases k,
{
    if k > 0 {
        let t = s.skip(1);
        assert(s[0] == '0');
        assert forall|j: int| 0 <= j < k - 1 implies #[trigger] t[j] == '0' by {
            assert(t[j] == s[j + 1]);
        }
        lemma_leading_zeros_is(t, k - 1);
    }
}

/// The number whose digits are `whole` and then `fraction`.
fn measure_digits(whole: &Vec<char>, fraction: &Vec<char>, exponent: i128, Ghost(stated): Ghost<int>) -> (r: Measure)
    requires
        exponent == (if stated <= -(LARGEST_EXPONENT as int) {
            -(LARGEST_EXPONENT as int)
        } else if stated >= LARGEST_EXPONENT {
            LARGEST_EXPONENT as int
        } else {
            stated
        }),
    ensures
        r@ == digits_size(whole@, fraction@, stated),
{
    let mut all = slice(whole, 0, whole.len());
    assert(all@ =~= whole@);
    crate::text::extend(&mut all, fraction);
    let ghost s = whole@ + fraction@;
    assert(all@ =~= s);
    let mut zeros: usize = 0;
    while zeros < all.len() && all[zeros] == '0'
        invariant
            zeros <= all@.len(),
            forall|j: int| 0 <= j < zeros ==> #[trigger] all@[j] == '0',
        decreases all@.len() - zeros,
    {
        zeros = zeros + 1;
    }
    proof {
        lemma_leading_zeros_is(all@, zeros as int);
    }
    if zeros == all.len() {
        return zero_measure();
    }
    let point: i128 = whole.len() as i128 - zeros as i128 + exponent;
    if point >= INFINITE_POINT as i128 {
        return infinite_measure();
    }
    if point < SMALLEST_POINT as i128 {
        return zero_measure();
    }
    let mut end: usize = all.len();
    let ghost rest = s.skip(zeros as int);
    assert(rest.take(end - zeros) =~= rest);
    while end > zeros && all[end - 1] == '0'
        invariant
            zeros <= end <= all@.len(),
            rest == all@.skip(zeros as int),
            without_trailing_zeros(rest.take(end - zeros)) == without_trailing_zeros(rest),
        decreases end,
    {
        assert(rest.take(end - zeros).last() == all@[end - 1]);
        assert(rest.take(end - zeros).drop_last() =~= rest.take(end - 1 - zeros));
        end = end - 1;
    }
    if end > zeros {
        assert(rest.take(end - zeros).last() == all@[end - 1]);
    }
    let digits = slice(&all, zeros, end);
    assert(digits@ =~= rest.take(end - zeros));
    Measure { sign: 1, point: point as i64, digits }
}

fn measure_plain(v: &Vec<char>, from: usize) -> (r: Measure)
    requires
        from <= v.len(),
        is_plain_number(v@.skip(from as int)),
    ensures
        r@ == plain_size(v@.skip(from as int)),
{
    let ghost s = v@.skip(from as int);
    let a = digits_end(v, from);
    let whole = slice(v, from, a);
    assert(whole@ =~= s.take(a - from));
    assert(s.skip(a - from) =~= v@.skip(a as int));
    if a < v.len() && v[a] == '.' {
        assert(v@.skip(a as int).skip(1) =~= v@.skip(a + 1));
        let b = digits_end(v, a + 1);
        let fraction = slice(v, a + 1, b);
        assert(fraction@ =~= v@.skip(a + 1).take(b - (a + 1)));
        assert(v@.skip(a + 1).skip(b - (a + 1)) =~= v@.skip(b as int));
        let e = exponent_from(v, b);
        measure_digits(&whole, &fraction, e, Ghost(exponent_stated(v@.skip(b as int))))
    } else {
        let none: Vec<char> = Vec::new();
        assert(none@ =~= Seq::<char>::empty());
        let e = exponent_from(v, a);
        measure_digits(&whole, &none, e, Ghost(exponent_stated(v@.skip(a as int))))
    }
}

/// The size of the number that `v` writes.
pub fn measure(v: &Vec<char>) -> (r: Measure)
    ensures
        r@ == size_of(v@),
{
    proof {
        reveal_strlit("inf");
        reveal_strlit("INF");
        reveal_strlit("infinity");
        reveal_strlit("INFINITY");
    }
    assert(v@.skip(0) =~= v@);
    let start = sign_end(v, 0);
    let m = if plain_number_at(v, start) {
        measure_plain(v, start)
    } else if word_at(v, start, "inf", "INF") || word_at(v, start, "infinity", "INFINITY") {
        infinite_measure()
    } else {
        zero_measure()
    };
    proof {
        let size = m@;
        assert(size.sign == 0 || size.sign == 1);
    }
    if v.len() > 0 && v[0] == '-' {
        Measure { sign: -m.sign, point: m.point, digits: m.digits }
    } else {
        m
    }
}

fn reached(a: &Measure, b: &Measure) -> (r: bool)
    ensures
        r == reaches(a@, b@),
{
    proof {
        lemma_lex_total(a.digits@, b.digits@);
        lemma_lex_irreflexive(a.digits@);
        if lex_lt(a.digits@, b.digits@) && lex_lt(b.digits@, a.digits@) {
            lemma_lex_transitive(a.digits@, b.digits@, a.digits@);
        }
    }
    a.point < b.point || (a.point == b.point && !chars_lt(&b.digits, &a.digits))
}

/// Whether `a` is at most `b`.
pub fn at_most(a: &Measure, b: &Measure) -> (r: bool)
    ensures
        r == size_le(a@, b@),
{
    if a.sign != b.sign {
        a.sign < b.sign
    } else if a.sign == 0 {
        true
    } else if a.sign > 0 {
        reached(a, b)
    } else {
        reached(b, a)
    }
}

} // verus!
