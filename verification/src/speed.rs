//! Link rates, held exactly as bits per second.

pub mod laws;

use vstd::prelude::*;

use crate::number::{decimal, parse_uint, read_uint, to_decimal};
use crate::text::{extend, extend_str, find_char, first_index, from_chars, slice, to_chars};

verus! {

/// A link rate in bits per second; zero when it is not known.
#[derive(Debug, Clone, Copy, PartialEq, Eq, Structural)]
pub struct UsbSpeed {
    pub bps: u64,
}

impl UsbSpeed {
    /// A rate that is not known.
    pub fn unknown() -> (s: UsbSpeed)
        ensures
            s.bps == 0,
    {
        UsbSpeed { bps: 0 }
    }

    /// A rate of `mbps` megabits per second.
    pub fn from_mbps(mbps: u32) -> (s: UsbSpeed)
        ensures
            s.bps == mbps * 1_000_000,
    {
        UsbSpeed { bps: mbps as u64 * 1_000_000 }
    }

    /// A rate of `bps` bits per second.
    pub fn from_bps(bps: u64) -> (s: UsbSpeed)
        ensures
            s.bps == bps,
    {
        UsbSpeed { bps }
    }

    /// Whether the rate is known.
    pub fn is_known(self) -> (r: bool)
        ensures
            r == (self.bps > 0),
    {
        self.bps > 0
    }
}

/// The percentage of a rate that protocol overhead leaves: 70 at Low Speed,
/// 80 up to High Speed, 85 above.
pub open spec fn efficiency(bps: nat) -> nat {
    if bps <= 1_500_000 {
        70
    } else if bps <= 480_000_000 {
        80
    } else {
        85
    }
}

/// A rate times its efficiency: what is practically left, in hundredths of a
/// bit per second.
pub open spec fn practical_centibits(bps: nat) -> nat {
    bps * efficiency(bps)
}

/// What is practically left of a rate, in bytes per second.
pub open spec fn practical_bytes(bps: nat) -> nat {
    practical_centibits(bps) / 800
}

/// The largest whole number of megabits per second that a rate may state.
pub const MAX_STATED_MBPS: u64 = 1_000_000_000;

/// Ten to the power `6 - places`: what a digit string of that many places
/// after the point counts, in bits per second.
pub open spec fn millionths(places: nat) -> nat {
    if places == 1 {
        100_000
    } else if places == 2 {
        10_000
    } else if places == 3 {
        1_000
    } else if places == 4 {
        100
    } else if places == 5 {
        10
    } else {
        1
    }
}

/// The rate that text states in megabits per second, in bits per second:
/// digits, with up to six more after a point. Anything else is not known.
pub open spec fn stated_rate(s: Seq<char>) -> nat {
    let k = first_index(s, '.');
    match read_uint(s.take(k as int), 10, MAX_STATED_MBPS as nat) {
        None => 0,
        Some(whole) => if k >= s.len() {
            whole * 1_000_000
        } else {
            let fraction = s.skip(k as int + 1);
            if fraction.len() == 0 || fraction.len() > 6 || fraction[0] == '+' {
                0
            } else {
                match read_uint(fraction, 10, 999_999) {
                    None => 0,
                    Some(f) => whole * 1_000_000 + f * millionths(fraction.len()),
                }
            }
        },
    }
}

impl UsbSpeed {
    /// The rate that a sysfs `speed` attribute states.
    pub fn from_speed_str(text: &str) -> (s: UsbSpeed)
        ensures
            s.bps == stated_rate(text@),
    {
        let v = to_chars(text);
        let k = find_char(&v, '.', 0);
        assert(v@.skip(0) == v@);
        let head = slice(&v, 0, k);
        assert(head@ == v@.take(k as int));
        let whole = match parse_uint(&head, 10, MAX_STATED_MBPS) {
            None => {
                return UsbSpeed { bps: 0 };
            },
            Some(w) => w,
        };
        if k >= v.len() {
            return UsbSpeed { bps: whole * 1_000_000 };
        }
        let fraction = slice(&v, k + 1, v.len());
        assert(fraction@ == v@.skip(k + 1));
        if fraction.len() == 0 || fraction.len() > 6 || fraction[0] == '+' {
            return UsbSpeed { bps: 0 };
        }
        match parse_uint(&fraction, 10, 999_999) {
            None => UsbSpeed { bps: 0 },
            Some(f) => {
                let unit: u64 = match fraction.len() {
                    1 => 100_000,
                    2 => 10_000,
                    3 => 1_000,
                    4 => 100,
                    5 => 10,
                    _ => 1,
                };
                assert(unit == millionths(fraction@.len()));
                assert(f * unit <= 999_999 * 100_000) by (nonlinear_arith)
                    requires
                        f <= 999_999,
                        unit <= 100_000,
                ;
                UsbSpeed { bps: whole * 1_000_000 + f * unit }
            },
        }
    }

    /// What is practically left of the rate, in hundredths of a bit per second.
    pub fn practical(self) -> (r: u128)
        ensures
            r == practical_centibits(self.bps as nat),
            r <= self.bps * 85,
    {
        let percent: u128 = if self.bps <= 1_500_000 {
            70
        } else if self.bps <= 480_000_000 {
            80
        } else {
            85
        };
        assert(self.bps * percent <= self.bps * 85) by (nonlinear_arith)
            requires
                percent <= 85,
        ;
        self.bps as u128 * percent
    }

    /// What is practically left of the rate, in bytes per second.
    pub fn to_practical_bytes_per_second(self) -> (r: u64)
        ensures
            r == practical_bytes(self.bps as nat),
    {
        let c = self.practical();
        (c / 800) as u64
    }
}

/// `n` counted in units of `unit`, with what is left over after a point,
/// without trailing zeros.
pub open spec fn unit_text(n: nat, unit: nat) -> Seq<char>
    recommends
        unit > 0,
{
    if n % unit == 0 {
        decimal(n / unit)
    } else {
        decimal(n / unit).push('.') + fraction_text(n % unit, unit)
    }
}

/// The digits of `rest / unit` after the point, without trailing zeros.
pub open spec fn fraction_text(rest: nat, unit: nat) -> Seq<char>
    decreases unit,
{
    if rest == 0 || unit < 10 {
        Seq::empty()
    } else {
        decimal(rest * 10 / unit) + fraction_text(rest % (unit / 10), unit / 10)
    }
}

/// The digits of `rest / unit` after the point.
fn to_fraction_text(rest: u64, unit: u64) -> (r: Vec<char>)
    requires
        rest < 1_000_000_000,
        unit <= 1_000_000_000,
    ensures
        r@ == fraction_text(rest as nat, unit as nat),
    decreases unit,
{
    if rest == 0 || unit < 10 {
        Vec::new()
    } else {
        let mut r = to_decimal(rest * 10 / unit);
        assert(rest as nat * 10 / unit as nat == (rest * 10 / unit as int) as nat);
        let tail = to_fraction_text(rest % (unit / 10), unit / 10);
        extend(&mut r, &tail);
        r
    }
}

/// `n` counted in units of `unit`.
pub fn to_unit_text(n: u64, unit: u64) -> (r: Vec<char>)
    requires
        0 < unit <= 1_000_000_000,
    ensures
        r@ == unit_text(n as nat, unit as nat),
{
    let mut r = to_decimal(n / unit);
    if n % unit != 0 {
        r.push('.');
        let tail = to_fraction_text(n % unit, unit);
        extend(&mut r, &tail);
    }
    r
}

/// `480M`, `5G`, `10G`; `?` for an unknown rate.
pub open spec fn short_text(bps: nat) -> Seq<char> {
    if bps == 0 {
        "?"@
    } else if bps >= 1_000_000_000 {
        unit_text(bps, 1_000_000_000) + "G"@
    } else {
        unit_text(bps, 1_000_000) + "M"@
    }
}

/// `480M`, `5G`, `10G`; `?` for an unknown rate.
pub fn short_rate(bps: u64) -> (r: String)
    ensures
        r@ == short_text(bps as nat),
{
    let mut r: Vec<char>;
    if bps == 0 {
        r = to_chars("?");
    } else if bps >= 1_000_000_000 {
        r = to_unit_text(bps, 1_000_000_000);
        extend_str(&mut r, "G");
    } else {
        r = to_unit_text(bps, 1_000_000);
        extend_str(&mut r, "M");
    }
    from_chars(&r)
}

} // verus!
