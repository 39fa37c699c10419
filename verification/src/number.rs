//! Numbers in text: decimal and hexadecimal, written and read.

use vstd::prelude::*;

use crate::text::to_chars;

verus! {

/// The digit character for `d` below sixteen, lower case.
pub open spec fn digit_char(d: nat) -> char {
    if d == 0 { '0' } else if d == 1 { '1' } else if d == 2 { '2' } else if d == 3 { '3' } else if d == 4 {
        '4'
    } else if d == 5 { '5' } else if d == 6 { '6' } else if d == 7 { '7' } else if d == 8 { '8' } else if d
        == 9 { '9' } else if d == 10 { 'a' } else if d == 11 { 'b' } else if d == 12 { 'c' } else if d == 13 {
        'd'
    } else if d == 14 { 'e' } else { 'f' }
}

/// The value of a digit character in `radix` (ten or sixteen).
pub open spec fn digit_value(c: char, radix: nat) -> Option<nat> {
    if '0' <= c <= '9' {
        Some((c as nat - '0' as nat) as nat)
    } else if radix == 16 && 'a' <= c <= 'f' {
        Some((c as nat - 'a' as nat + 10) as nat)
    } else if radix == 16 && 'A' <= c <= 'F' {
        Some((c as nat - 'A' as nat + 10) as nat)
    } else {
        None
    }
}

/// The number that a run of digits writes, most significant first.
pub open spec fn digits_value(s: Seq<char>, radix: nat) -> Option<nat>
    decreases s.len(),
{
    if s.len() == 0 {
        Some(0)
    } else {
        match (digits_value(s.drop_last(), radix), digit_value(s.last(), radix)) {
            (Some(v), Some(d)) => Some(v * radix + d),
            _ => None,
        }
    }
}

/// An unsigned integer up to `max`: an optional plus sign and then digits,
/// at least one.
pub open spec fn read_uint(s: Seq<char>, radix: nat, max: nat) -> Option<nat> {
    let t = if s.len() > 0 && s[0] == '+' { s.skip(1) } else { s };
    if t.len() == 0 {
        None
    } else {
        match digits_value(t, radix) {
            Some(v) => if v <= max { Some(v) } else { None },
            None => None,
        }
    }
}

/// `n` in decimal.
pub open spec fn decimal(n: nat) -> Seq<char>
    decreases n,
{
    if n < 10 {
        seq![digit_char(n)]
    } else {
        decimal(n / 10).push(digit_char(n % 10))
    }
}

/// `n` in decimal, padded on the left with zeros to `width`.
pub open spec fn padded_decimal(n: nat, width: nat) -> Seq<char>
    decreases width,
{
    if width <= decimal(n).len() {
        decimal(n)
    } else {
        Seq::new((width - decimal(n).len()) as nat, |i: int| '0') + decimal(n)
    }
}

/// The low sixteen bits of `n` as four hexadecimal digits.
pub open spec fn hex4(n: nat) -> Seq<char> {
    seq![
        digit_char(n / 4096 % 16),
        digit_char(n / 256 % 16),
        digit_char(n / 16 % 16),
        digit_char(n % 16),
    ]
}

/// The digit character for `d`.
pub fn digit(d: u64) -> (c: char)
    requires
        d < 16,
    ensures
        c == digit_char(d as nat),
{
    match d {
        0 => '0',
        1 => '1',
        2 => '2',
        3 => '3',
        4 => '4',
        5 => '5',
        6 => '6',
        7 => '7',
        8 => '8',
        9 => '9',
        10 => 'a',
        11 => 'b',
        12 => 'c',
        13 => 'd',
        14 => 'e',
        _ => 'f',
    }
}

/// The value of the digit `c`, if it is one.
pub fn value(c: char, radix: u64) -> (r: Option<u64>)
    requires
        radix == 10 || radix == 16,
    ensures
        match r {
            Some(d) => digit_value(c, radix as nat) == Some(d as nat) && d < radix,
            None => digit_value(c, radix as nat) is None,
        },
{
    if '0' <= c && c <= '9' {
        Some((c as u32 - '0' as u32) as u64)
    } else if radix == 16 && 'a' <= c && c <= 'f' {
        Some((c as u32 - 'a' as u32 + 10) as u64)
    } else if radix == 16 && 'A' <= c && c <= 'F' {
        Some((c as u32 - 'A' as u32 + 10) as u64)
    } else {
        None
    }
}

proof fn lemma_digits_value_prefix(s: Seq<char>, radix: nat, k: int)
    requires
        0 <= k <= s.len(),
        digits_value(s, radix) is Some,
        radix >= 1,
    ensures
        digits_value(s.take(k), radix) is Some,
        digits_value(s.take(k), radix)->0 <= digits_value(s, radix)->0,
    decreases s.len() - k,
{
    if k == s.len() {
        assert(s.take(k) == s);
    } else {
        lemma_digits_value_prefix(s, radix, k + 1);
        let t = s.take(k + 1);
        assert(t.drop_last() == s.take(k));
        let v = digits_value(s.take(k), radix)->0;
        assert(v <= v * radix) by (nonlinear_arith)
            requires
                radix >= 1,
        ;
    }
}

/// Read an unsigned integer up to `max`.
pub fn parse_uint(v: &Vec<char>, radix: u64, max: u64) -> (r: Option<u64>)
    requires
        radix == 10 || radix == 16,
    ensures
        match r {
            Some(n) => read_uint(v@, radix as nat, max as nat) == Some(n as nat) && n <= max,
            None => read_uint(v@, radix as nat, max as nat) is None,
        },
{
    let start: usize = if v.len() > 0 && v[0] == '+' { 1 } else { 0 };
    let ghost t = v@.skip(start as int);
    assert(start == 0 ==> t == v@);
    if start >= v.len() {
        return None;
    }
    let mut n: u64 = 0;
    let mut i: usize = start;
    assert(t.take(0).len() == 0);
    while i < v.len()
        invariant
            start <= i <= v.len(),
            start < v.len(),
            radix == 10 || radix == 16,
            t == v@.skip(start as int),
            n <= max,
            digits_value(t.take(i - start), radix as nat) == Some(n as nat),
            read_uint(v@, radix as nat, max as nat) == (match digits_value(t, radix as nat) {
                Some(w) => if w <= max as nat { Some(w) } else { None::<nat> },
                None => None::<nat>,
            }),
        decreases v.len() - i,
    {
        let ghost p = t.take(i - start + 1);
        assert(p.drop_last() == t.take(i - start));
        assert(p.last() == v@[i as int]);
        match value(v[i], radix) {
            None => {
                proof {
                    if digits_value(t, radix as nat) is Some {
                        lemma_digits_value_prefix(t, radix as nat, i - start + 1);
                    }
                }
                return None;
            },
            Some(d) => {
                assert(0 <= n * radix <= 0xffff_ffff_ffff_ffff * 16) by (nonlinear_arith)
                    requires
                        n <= 0xffff_ffff_ffff_ffff,
                        radix <= 16,
                ;
                let w: u128 = n as u128 * radix as u128 + d as u128;
                if w > max as u128 {
                    proof {
                        if digits_value(t, radix as nat) is Some {
                            lemma_digits_value_prefix(t, radix as nat, i - start + 1);
                        }
                    }
                    return None;
                }
                n = w as u64;
            },
        }
        i = i + 1;
    }
    assert(t.take(t.len() as int) == t);
    Some(n)
}

/// `n` in decimal.
pub fn to_decimal(n: u64) -> (r: Vec<char>)
    ensures
        r@ == decimal(n as nat),
        r@.len() >= 1,
    decreases n,
{
    if n < 10 {
        let mut r: Vec<char> = Vec::new();
        r.push(digit(n));
        assert(r@ == seq![digit_char(n as nat)]);
        r
    } else {
        let mut r = to_decimal(n / 10);
        r.push(digit(n % 10));
        r
    }
}

/// A large `n` in decimal.
pub fn to_wide_decimal(n: u128) -> (r: Vec<char>)
    ensures
        r@ == decimal(n as nat),
    decreases n,
{
    if n <= 0xffff_ffff_ffff_ffff {
        to_decimal(n as u64)
    } else {
        let mut r = to_wide_decimal(n / 10);
        r.push(digit((n % 10) as u64));
        r
    }
}

/// `part` over `whole`, rounded to the nearest whole number, halves to the
/// even one.
pub open spec fn rounded(part: nat, whole: nat) -> nat
    recommends
        whole > 0,
{
    let q = part / whole;
    let rest = part % whole;
    if 2 * rest < whole || (2 * rest == whole && q % 2 == 0) {
        q
    } else {
        q + 1
    }
}

/// `part` over `whole`, rounded to the nearest whole number.
pub fn round_ratio(part: u128, whole: u128) -> (r: u128)
    requires
        0 < whole <= 0x7fff_ffff_ffff_ffff_ffff_ffff_ffff_ffff,
    ensures
        r == rounded(part as nat, whole as nat),
{
    let q = part / whole;
    let rest = part % whole;
    if 2 * rest < whole || (2 * rest == whole && q % 2 == 0) {
        q
    } else {
        assert(q + 1 <= part) by (nonlinear_arith)
            requires
                q == part / whole,
                rest == part % whole,
                0 < rest < whole,
        ;
        q + 1
    }
}

/// `n` counted in units, with `places` digits after the point: 150 in units
/// of 100 with two places is `1.50`.
pub open spec fn fixed_text(n: nat, unit: nat, places: nat) -> Seq<char>
    recommends
        unit > 0,
{
    decimal(n / unit).push('.') + padded_decimal(n % unit, places)
}

/// `n` counted in units, with `places` digits after the point.
pub fn to_fixed(n: u128, unit: u64, places: usize) -> (r: Vec<char>)
    requires
        unit > 0,
    ensures
        r@ == fixed_text(n as nat, unit as nat, places as nat),
{
    let mut r = to_wide_decimal(n / unit as u128);
    r.push('.');
    let tail = to_padded_decimal((n % unit as u128) as u64, places);
    crate::text::extend(&mut r, &tail);
    r
}

/// `n` in decimal, padded with zeros to `width`.
pub fn to_padded_decimal(n: u64, width: usize) -> (r: Vec<char>)
    ensures
        r@ == padded_decimal(n as nat, width as nat),
{
    let digits = to_decimal(n);
    if width <= digits.len() {
        return digits;
    }
    let pad: usize = width - digits.len();
    let mut r: Vec<char> = Vec::new();
    while r.len() < pad
        invariant
            r@.len() <= pad,
            forall|i: int| 0 <= i < r@.len() ==> r@[i] == '0',
        decreases pad - r@.len(),
    {
        r.push('0');
    }
    assert(r@ == Seq::new(pad as nat, |i: int| '0'));
    crate::text::extend(&mut r, &digits);
    r
}

/// `n` as four hexadecimal digits.
pub fn to_hex4(n: u16) -> (r: Vec<char>)
    ensures
        r@ == hex4(n as nat),
{
    let m = n as u64;
    let mut r: Vec<char> = Vec::new();
    r.push(digit(m / 4096 % 16));
    r.push(digit(m / 256 % 16));
    r.push(digit(m / 16 % 16));
    r.push(digit(m % 16));
    assert(r@ == hex4(n as nat));
    r
}

/// The low twelve bits of `n` as four octal digits.
pub open spec fn octal4(n: nat) -> Seq<char> {
    seq![digit_char(n / 512 % 8), digit_char(n / 64 % 8), digit_char(n / 8 % 8), digit_char(n % 8)]
}

/// The low twelve bits of `n` as four octal digits.
pub fn to_octal4(n: u32) -> (r: Vec<char>)
    ensures
        r@ == octal4(n as nat),
{
    let m = n as u64;
    let mut r: Vec<char> = Vec::new();
    r.push(digit(m / 512 % 8));
    r.push(digit(m / 64 % 8));
    r.push(digit(m / 8 % 8));
    r.push(digit(m % 8));
    assert(r@ == octal4(n as nat));
    r
}

proof fn lemma_digit_round_trip(d: nat)
    requires
        d < 10,
    ensures
        digit_value(digit_char(d), 10) == Some(d),
        digit_char(d) != '+',
{
}

/// Reading back a written decimal gives the number.
pub proof fn lemma_decimal_round_trip(n: nat)
    ensures
        digits_value(decimal(n), 10) == Some(n),
        decimal(n).len() >= 1,
        decimal(n)[0] != '+',
        forall|i: int| 0 <= i < decimal(n).len() ==> '0' <= #[trigger] decimal(n)[i] <= '9',
    decreases n,
{
    if n < 10 {
        lemma_digit_round_trip(n);
        let s = decimal(n);
        assert(s.drop_last() == Seq::<char>::empty());
        assert(digits_value(s.drop_last(), 10) == Some(0nat));
    } else {
        lemma_decimal_round_trip(n / 10);
        lemma_digit_round_trip(n % 10);
        let s = decimal(n);
        assert(s.drop_last() == decimal(n / 10));
        assert(n == n / 10 * 10 + n % 10);
    }
}

/// How many decimal digits `s` starts with.
pub open spec fn leading_digits(s: Seq<char>) -> nat
    decreases s.len(),
{
    if s.len() > 0 && '0' <= s[0] <= '9' {
        1 + leading_digits(s.skip(1))
    } else {
        0
    }
}

/// `s` without one sign at its front.
pub open spec fn without_sign(s: Seq<char>) -> Seq<char> {
    if s.len() > 0 && (s[0] == '+' || s[0] == '-') {
        s.skip(1)
    } else {
        s
    }
}

/// Whether `s` is nothing, or an exponent: `e` or `E`, an optional sign, and
/// digits.
pub open spec fn is_exponent(s: Seq<char>) -> bool {
    s.len() == 0 || ((s[0] == 'e' || s[0] == 'E') && {
        let t = without_sign(s.skip(1));
        t.len() > 0 && leading_digits(t) == t.len()
    })
}

/// Whether `s` is digits with an optional point, at least one digit, and an
/// optional exponent.
pub open spec fn is_plain_number(s: Seq<char>) -> bool {
    let a = leading_digits(s);
    let t = s.skip(a as int);
    if t.len() > 0 && t[0] == '.' {
        let u = t.skip(1);
        let b = leading_digits(u);
        a + b > 0 && is_exponent(u.skip(b as int))
    } else {
        a > 0 && is_exponent(t)
    }
}

/// Whether `s` spells a word whose letters are `lower` or `upper`.
pub open spec fn spells(s: Seq<char>, lower: Seq<char>, upper: Seq<char>) -> bool {
    &&& s.len() == lower.len()
    &&& s.len() == upper.len()
    &&& forall|i: int| 0 <= i < s.len() ==> (#[trigger] s[i]) == lower[i] || s[i] == upper[i]
}

/// Whether `s` writes a floating-point number: an optional sign, then a
/// decimal number with an optional exponent, or `inf`, `infinity` or `nan` in
/// any case.
pub open spec fn is_float_text(s: Seq<char>) -> bool {
    let t = without_sign(s);
    is_plain_number(t) || spells(t, "inf"@, "INF"@) || spells(t, "infinity"@, "INFINITY"@) || spells(
        t,
        "nan"@,
        "NAN"@,
    )
}

proof fn lemma_leading_digits_is(s: Seq<char>, k: int)
    requires
        0 <= k <= s.len(),
        forall|j: int| 0 <= j < k ==> '0' <= #[trigger] s[j] <= '9',
        k < s.len() ==> !('0' <= s[k] <= '9'),
    ensures
        leading_digits(s) == k,
    decreases k,
{
    if k > 0 {
        assert('0' <= s[0] <= '9');
        let t = s.skip(1);
        assert forall|j: int| 0 <= j < k - 1 implies '0' <= #[trigger] t[j] <= '9' by {
            assert(t[j] == s[j + 1]);
        }
        lemma_leading_digits_is(t, k - 1);
    }
}

/// Where the digits from `from` on end.
pub(crate) fn digits_end(v: &Vec<char>, from: usize) -> (r: usize)
    requires
        from <= v.len(),
    ensures
        from <= r <= v.len(),
        r == from + leading_digits(v@.skip(from as int)),
{
    let mut k: usize = from;
    while k < v.len() && '0' <= v[k] && v[k] <= '9'
        invariant
            from <= k <= v.len(),
            forall|j: int| from <= j < k ==> '0' <= #[trigger] v@[j] <= '9',
        decreases v.len() - k,
    {
        k = k + 1;
    }
    proof {
        let s = v@.skip(from as int);
        assert forall|j: int| 0 <= j < k - from implies '0' <= #[trigger] s[j] <= '9' by {
            assert(s[j] == v@[from + j]);
        }
        lemma_leading_digits_is(s, k - from);
    }
    k
}

pub(crate) fn sign_end(v: &Vec<char>, from: usize) -> (r: usize)
    requires
        from <= v.len(),
    ensures
        from <= r <= v.len(),
        v@.skip(r as int) == without_sign(v@.skip(from as int)),
{
    if from < v.len() && (v[from] == '+' || v[from] == '-') {
        assert(v@.skip(from as int).skip(1) =~= v@.skip(from + 1));
        from + 1
    } else {
        from
    }
}

fn exponent_at(v: &Vec<char>, from: usize) -> (r: bool)
    requires
        from <= v.len(),
    ensures
        r == is_exponent(v@.skip(from as int)),
{
    if from == v.len() {
        return true;
    }
    if v[from] != 'e' && v[from] != 'E' {
        return false;
    }
    assert(v@.skip(from as int).skip(1) =~= v@.skip(from + 1));
    let start = sign_end(v, from + 1);
    start < v.len() && digits_end(v, start) == v.len()
}

pub(crate) fn plain_number_at(v: &Vec<char>, from: usize) -> (r: bool)
    requires
        from <= v.len(),
    ensures
        r == is_plain_number(v@.skip(from as int)),
{
    let a = digits_end(v, from);
    assert(v@.skip(from as int).skip(a - from) =~= v@.skip(a as int));
    if a < v.len() && v[a] == '.' {
        assert(v@.skip(a as int).skip(1) =~= v@.skip(a + 1));
        let b = digits_end(v, a + 1);
        assert(v@.skip(a + 1).skip(b - (a + 1)) =~= v@.skip(b as int));
        (a > from || b > a + 1) && exponent_at(v, b)
    } else {
        a > from && exponent_at(v, a)
    }
}

pub(crate) fn word_at(v: &Vec<char>, from: usize, lower: &str, upper: &str) -> (r: bool)
    requires
        from <= v.len(),
        lower@.len() == upper@.len(),
    ensures
        r == spells(v@.skip(from as int), lower@, upper@),
{
    let a = to_chars(lower);
    let b = to_chars(upper);
    let ghost s = v@.skip(from as int);
    if v.len() - from != a.len() {
        return false;
    }
    let mut i: usize = 0;
    while i < a.len()
        invariant
            i <= a@.len(),
            a@ == lower@,
            b@ == upper@,
            a@.len() == b@.len(),
            from <= v.len(),
            v@.len() - from == a@.len(),
            s == v@.skip(from as int),
            forall|j: int| 0 <= j < i ==> (#[trigger] s[j]) == lower@[j] || s[j] == upper@[j],
        decreases a@.len() - i,
    {
        assert(s[i as int] == v@[from + i]);
        if v[from + i] != a[i] && v[from + i] != b[i] {
            return false;
        }
        i = i + 1;
    }
    true
}

/// Whether `v` writes a floating-point number.
pub fn float_text(v: &Vec<char>) -> (r: bool)
    ensures
        r == is_float_text(v@),
{
    proof {
        reveal_strlit("inf");
        reveal_strlit("INF");
        reveal_strlit("infinity");
        reveal_strlit("INFINITY");
        reveal_strlit("nan");
        reveal_strlit("NAN");
    }
    assert(v@.skip(0) =~= v@);
    let start = sign_end(v, 0);
    plain_number_at(v, start) || word_at(v, start, "inf", "INF") || word_at(v, start, "infinity", "INFINITY")
        || word_at(v, start, "nan", "NAN")
}

/// What a run of decimal digits is worth, place by place.
pub open spec fn place_value(s: Seq<char>) -> int
    decreases s.len(),
{
    if s.len() == 0 {
        0
    } else {
        place_value(s.drop_last()) * 10 + (s.last() as int - '0' as int)
    }
}

/// Whether `s` is a run of decimal digits, at least one.
pub open spec fn all_digits(s: Seq<char>) -> bool {
    s.len() > 0 && forall|i: int| 0 <= i < s.len() ==> '0' <= #[trigger] s[i] <= '9'
}

/// Ten to the power of `n`.
pub open spec fn power_of_ten(n: nat) -> int
    decreases n,
{
    if n == 0 {
        1
    } else {
        power_of_ten((n - 1) as nat) * 10
    }
}

/// Whether `t` writes `n` counted in units of which ten to the power of
/// `places` make one: digits, a point, and `places` digits behind it.
pub open spec fn shows(t: Seq<char>, places: nat, n: int) -> bool {
    let point = t.len() - places - 1;
    &&& point > 0
    &&& t[point] == '.'
    &&& all_digits(t.take(point) + t.skip(point + 1))
    &&& place_value(t.take(point) + t.skip(point + 1)) == n
}

/// Whether `n` is the whole number nearest to `part` over `whole`.
pub open spec fn nearest(n: int, part: int, whole: int) -> bool {
    -whole <= 2 * (n * whole - part) <= whole
}

proof fn lemma_place_value_concat(a: Seq<char>, b: Seq<char>)
    ensures
        place_value(a + b) == place_value(a) * power_of_ten(b.len()) + place_value(b),
    decreases b.len(),
{
    if b.len() == 0 {
        assert(a + b =~= a);
    } else {
        lemma_place_value_concat(a, b.drop_last());
        assert((a + b).drop_last() =~= a + b.drop_last());
        assert((a + b).last() == b.last());
        let x = place_value(a);
        let p = power_of_ten(b.drop_last().len());
        assert((x * p) * 10 == x * (p * 10)) by (nonlinear_arith);
        assert(place_value(a + b) == place_value(a + b.drop_last()) * 10 + (b.last() as int - '0' as int));
        assert(power_of_ten(b.len()) == p * 10);
    }
}

proof fn lemma_zeros(n: nat)
    ensures
        place_value(Seq::new(n, |i: int| '0')) == 0,
    decreases n,
{
    if n > 0 {
        lemma_zeros((n - 1) as nat);
        assert(Seq::new(n, |i: int| '0').drop_last() =~= Seq::new((n - 1) as nat, |i: int| '0'));
    }
}

proof fn lemma_decimal_len(n: nat, places: nat)
    requires
        n < power_of_ten(places),
        places > 0,
    ensures
        decimal(n).len() <= places,
    decreases n,
{
    if n >= 10 {
        assert(places > 1) by {
            if places == 1 {
                assert(power_of_ten(1) == power_of_ten(0) * 10);
            }
        }
        lemma_decimal_len(n / 10, (places - 1) as nat);
    }
}

/// A written decimal is a run of digits worth the number, without zeros in
/// front.
pub proof fn law_decimal_is_worth_its_number(n: nat)
    ensures
        all_digits(decimal(n)),
        place_value(decimal(n)) == n,
        decimal(n).len() > 1 ==> decimal(n)[0] != '0',
    decreases n,
{
    lemma_decimal_round_trip(n);
    let s = decimal(n);
    if n >= 10 {
        law_decimal_is_worth_its_number(n / 10);
        assert(s.drop_last() =~= decimal(n / 10));
        assert(s.last() as int - '0' as int == n % 10);
        assert(n == n / 10 * 10 + n % 10);
        if n / 10 < 10 {
            assert(decimal(n / 10) =~= seq![digit_char(n / 10)]);
        } else {
            lemma_decimal_round_trip(n / 10 / 10);
            assert(decimal(n / 10) =~= decimal(n / 10 / 10).push(digit_char(n / 10 % 10)));
            assert(decimal(n / 10).len() > 1);
        }
        assert(s[0] == decimal(n / 10)[0]);
    } else {
        assert(s.drop_last() =~= Seq::<char>::empty());
        assert(s.last() as int - '0' as int == n);
        assert(place_value(s.drop_last()) == 0);
    }
}

/// Digits are read at their worth: a text of decimal digits reads as the
/// number that its places make, when that is not too large, and a plus sign
/// in front changes nothing.
pub proof fn law_digits_read_at_their_worth(s: Seq<char>, max: nat)
    requires
        all_digits(s),
    ensures
        place_value(s) >= 0,
        read_uint(s, 10, max) == (if place_value(s) <= max {
            Some(place_value(s) as nat)
        } else {
            None
        }),
        read_uint(seq!['+'] + s, 10, max) == read_uint(s, 10, max),
{
    lemma_digits_are_worth(s);
    assert((seq!['+'] + s).skip(1) =~= s);
    assert(s[0] != '+');
}

proof fn lemma_digits_are_worth(s: Seq<char>)
    requires
        forall|i: int| 0 <= i < s.len() ==> '0' <= #[trigger] s[i] <= '9',
    ensures
        place_value(s) >= 0,
        digits_value(s, 10) == Some(place_value(s) as nat),
    decreases s.len(),
{
    if s.len() > 0 {
        assert forall|i: int| 0 <= i < s.drop_last().len() implies '0' <= #[trigger] s.drop_last()[i] <= '9' by {
            assert(s.drop_last()[i] == s[i]);
        }
        assert('0' <= s[s.len() - 1] <= '9');
        lemma_digits_are_worth(s.drop_last());
    }
}

/// What is read is a number that the text writes: only digits in the radix
/// behind an optional plus sign are read, so a text with any other character
/// is refused, as is one without a digit.
pub proof fn law_only_digits_are_read(s: Seq<char>, radix: nat, max: nat, i: int)
    requires
        read_uint(s, radix, max) is Some,
        radix == 10 || radix == 16,
        0 <= i < s.len(),
    ensures
        read_uint(s, radix, max)->0 <= max,
        '0' <= s[i] <= '9' || (radix == 16 && ('a' <= s[i] <= 'f' || 'A' <= s[i] <= 'F')) || (i == 0 && s[i] == '+'
            && s.len() > 1),
{
    let plus = s[0] == '+';
    let t = if plus {
        s.skip(1)
    } else {
        s
    };
    if plus && i > 0 {
        assert(t[i - 1] == s[i]);
        lemma_each_is_a_digit(t, radix, i - 1);
    } else if !plus {
        lemma_each_is_a_digit(t, radix, i);
    }
}

proof fn lemma_each_is_a_digit(s: Seq<char>, radix: nat, i: int)
    requires
        digits_value(s, radix) is Some,
        0 <= i < s.len(),
    ensures
        digit_value(s[i], radix) is Some,
    decreases s.len(),
{
    if i < s.len() - 1 {
        assert(s.drop_last()[i] == s[i]);
        lemma_each_is_a_digit(s.drop_last(), radix, i);
    }
}

/// A number rounds to the whole number nearest to it.
pub proof fn law_rounding_is_to_the_nearest(part: nat, whole: nat)
    requires
        whole > 0,
    ensures
        nearest(rounded(part, whole) as int, part as int, whole as int),
{
    let q: int = part as int / whole as int;
    let rest: int = part as int % whole as int;
    assert(part == q * whole + rest && 0 <= rest < whole) by (nonlinear_arith)
        requires
            q == part as int / whole as int,
            rest == part as int % whole as int,
            whole > 0,
    ;
    assert((q + 1) * whole == q * whole + whole) by (nonlinear_arith);
}

/// A number with a point shows what it counts, with as many digits behind
/// the point as there are places.
pub proof fn law_fixed_text_shows_its_number(n: nat, unit: nat, places: nat)
    requires
        places > 0,
        unit == power_of_ten(places),
    ensures
        shows(fixed_text(n, unit, places), places, n as int),
{
    lemma_power_positive(places);
    let whole = n / unit;
    let part = n % unit;
    law_decimal_is_worth_its_number(whole);
    law_decimal_is_worth_its_number(part);
    lemma_decimal_len(part, places);
    let tail = padded_decimal(part, places);
    let pad = (places - decimal(part).len()) as nat;
    let zeros = Seq::new(pad, |i: int| '0');
    assert(tail =~= zeros + decimal(part));
    lemma_zeros(pad);
    lemma_place_value_concat(zeros, decimal(part));
    lemma_place_value_concat(decimal(whole), tail);
    let t = fixed_text(n, unit, places);
    let point = t.len() - places - 1;
    assert(t.take(point) =~= decimal(whole));
    assert(t.skip(point + 1) =~= tail);
    let both = decimal(whole) + tail;
    assert forall|i: int| 0 <= i < both.len() implies '0' <= #[trigger] both[i] <= '9' by {
        if i < decimal(whole).len() {
            assert(both[i] == decimal(whole)[i]);
        } else if i < decimal(whole).len() + pad {
            assert(both[i] == zeros[i - decimal(whole).len()]);
        } else {
            assert(both[i] == decimal(part)[i - decimal(whole).len() - pad]);
        }
    }
    assert(n == whole * unit + part) by (nonlinear_arith)
        requires
            whole == n / unit,
            part == n % unit,
            unit > 0,
    ;
    assert(0 * power_of_ten(decimal(part).len()) == 0);
}

proof fn lemma_power_positive(n: nat)
    ensures
        power_of_ten(n) > 0,
    decreases n,
{
    if n > 0 {
        lemma_power_positive((n - 1) as nat);
    }
}

/// The powers of ten that a count of places stands for.
pub proof fn lemma_powers_of_ten()
    ensures
        power_of_ten(1) == 10,
        power_of_ten(2) == 100,
        power_of_ten(3) == 1000,
{
    reveal_with_fuel(power_of_ten, 4);
}

/// An id's four hexadecimal digits are in lower case and read back as the id.
pub proof fn lemma_hex4_round_trip(n: nat)
    requires
        n < 65536,
    ensures
        hex4(n).len() == 4,
        forall|i: int| 0 <= i < 4 ==> '0' <= #[trigger] hex4(n)[i] <= '9' || 'a' <= hex4(n)[i] <= 'f',
        read_uint(hex4(n), 16, 65535) == Some(n),
{
    let s = hex4(n);
    let a = s.drop_last();
    let b = a.drop_last();
    let c = b.drop_last();
    assert(c.drop_last().len() == 0);
    assert(digits_value(c.drop_last(), 16) == Some(0nat));
    assert(digits_value(c, 16) == Some(n / 4096 % 16));
    assert(digits_value(b, 16) == Some(n / 4096 % 16 * 16 + n / 256 % 16));
    assert(digits_value(a, 16) == Some((n / 4096 % 16 * 16 + n / 256 % 16) * 16 + n / 16 % 16));
    assert(digits_value(s, 16) == Some(((n / 4096 % 16 * 16 + n / 256 % 16) * 16 + n / 16 % 16) * 16 + n % 16));
    assert(((n / 4096 % 16 * 16 + n / 256 % 16) * 16 + n / 16 % 16) * 16 + n % 16 == n);
    assert(s[0] != '+');
}

} // verus!
