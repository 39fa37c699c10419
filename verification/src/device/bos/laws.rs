//! What a BOS is read as, said of its bytes.

use vstd::prelude::*;

use crate::number::{all_digits, law_digits_read_at_their_worth, place_value};
use crate::speed::UsbSpeed;
use crate::text::{lemma_split_front, trimmed};

use super::{
    advertises, any_states, bcd_floor, bos_descriptors, bos_of, capability_stated, concatenated, descriptor_states,
    framed, is_rate_descriptor, le16, le32, largest_advertised, lemma_bos_of_descriptors, rate_descriptors,
    sublink_rate, sublink_states, BosFile, Capability, CapabilitySource,
};

verus! {

/// A thousand to the power of `n`.
pub open spec fn thousand_to(n: nat) -> nat
    decreases n,
{
    if n == 0 {
        1
    } else {
        thousand_to((n - 1) as nat) * 1000
    }
}

/// Whether the bytes of a device capability descriptor state a rate: type 3
/// states 5 Gb/s when bit 3 of its fifth byte is set, and type 10 states, for
/// each of its sublinks, a mantissa times a power of a thousand bits per
/// second.
pub open spec fn states(cap: Seq<u8>, rate: nat) -> bool {
    &&& rate > 0
    &&& cap[1] == 0x10
    &&& {
        ||| cap[2] == 3 && cap.len() >= 6 && cap[4] as nat / 8 % 2 == 1 && rate == 5_000_000_000
        ||| cap[2] == 10 && cap.len() >= 12 && exists|i: int|
            0 <= i <= cap[4] as int % 32 && 16 + 4 * i <= cap.len() && rate == #[trigger] mantissa_at(cap, i)
                * thousand_to(cap[12 + 4 * i] as nat / 16 % 4)
    }
}

/// The mantissa of sublink `i`.
pub open spec fn mantissa_at(cap: Seq<u8>, i: int) -> nat {
    cap[14 + 4 * i] as nat + 256 * cap[15 + 4 * i] as nat
}

proof fn lemma_sublink(cap: Seq<u8>, i: int)
    requires
        0 <= i,
        16 + 4 * i <= cap.len(),
    ensures
        sublink_rate(le32(cap, 12 + 4 * i)) == mantissa_at(cap, i) * thousand_to(cap[12 + 4 * i] as nat / 16 % 4),
        le32(cap, 4) % 32 == cap[4] as nat % 32,
{
    reveal_with_fuel(thousand_to, 4);
    let at = 12 + 4 * i;
    let v = le32(cap, at);
    let low = cap[at] as nat + 256 * cap[at + 1] as nat;
    let m = mantissa_at(cap, i);
    assert(v == low + 65536 * m);
    assert(low < 65536);
    assert(v / 65536 == m);
    let e = cap[at] as nat / 16 % 4;
    assert(v / 16 % 4 == e);
    assert(thousand_to(0) == 1 && thousand_to(1) == 1000 && thousand_to(2) == 1_000_000 && thousand_to(3)
        == 1_000_000_000);
    assert(e == 0 || e == 1 || e == 2 || e == 3);
    if e == 0 {
        assert(m * thousand_to(e) == m) by (nonlinear_arith)
            requires
                thousand_to(e) == 1,
        ;
    }
}

proof fn lemma_states(cap: Seq<u8>, rate: nat)
    requires
        framed(cap),
    ensures
        states(cap, rate) <==> is_rate_descriptor(cap) && descriptor_states(cap, rate),
{
    if cap[1] == 0x10 && cap[2] == 3 && cap.len() >= 6 {
        assert(le16(cap, 4) / 8 % 2 == cap[4] as nat / 8 % 2);
    }
    if cap[1] == 0x10 && cap[2] == 10 && cap.len() >= 12 {
        assert(le32(cap, 4) % 32 == cap[4] as nat % 32);
        if exists|i: int|
            0 <= i <= cap[4] as int % 32 && 16 + 4 * i <= cap.len() && rate == #[trigger] mantissa_at(cap, i)
                * thousand_to(cap[12 + 4 * i] as nat / 16 % 4) {
            let i = choose|i: int|
                0 <= i <= cap[4] as int % 32 && 16 + 4 * i <= cap.len() && rate == #[trigger] mantissa_at(cap, i)
                    * thousand_to(cap[12 + 4 * i] as nat / 16 % 4);
            lemma_sublink(cap, i);
            assert(sublink_states(cap, i, rate));
        }
        if exists|i: int| sublink_states(cap, i, rate) {
            let i = choose|i: int| sublink_states(cap, i, rate);
            lemma_sublink(cap, i);
            assert(rate == mantissa_at(cap, i) * thousand_to(cap[12 + 4 * i] as nat / 16 % 4));
        }
    }
}

proof fn lemma_rate_descriptors_state(caps: Seq<Seq<u8>>, rate: nat)
    requires
        forall|k: int| 0 <= k < caps.len() ==> framed(#[trigger] caps[k]),
    ensures
        any_states(rate_descriptors(caps), rate) <==> exists|k: int|
            0 <= k < caps.len() && states(#[trigger] caps[k], rate),
    decreases caps.len(),
{
    if caps.len() > 0 {
        let front = caps.drop_last();
        let kept = rate_descriptors(front);
        let all = rate_descriptors(caps);
        assert forall|k: int| 0 <= k < front.len() implies framed(#[trigger] front[k]) by {
            assert(front[k] == caps[k]);
        }
        lemma_rate_descriptors_state(front, rate);
        assert(framed(caps[caps.len() - 1]));
        lemma_states(caps.last(), rate);
        if any_states(all, rate) {
            let j = choose|j: int| 0 <= j < all.len() && descriptor_states(#[trigger] all[j], rate);
            if j < kept.len() {
                assert(descriptor_states(kept[j], rate));
                let k = choose|k: int| 0 <= k < front.len() && states(#[trigger] front[k], rate);
                assert(states(caps[k], rate));
            } else {
                assert(states(caps[caps.len() - 1], rate));
            }
        }
        if exists|k: int| 0 <= k < caps.len() && states(#[trigger] caps[k], rate) {
            let k = choose|k: int| 0 <= k < caps.len() && states(#[trigger] caps[k], rate);
            if k < front.len() {
                assert(states(front[k], rate));
                let j = choose|j: int| 0 <= j < kept.len() && descriptor_states(#[trigger] kept[j], rate);
                assert(descriptor_states(all[j], rate));
            } else {
                assert(descriptor_states(all[all.len() - 1], rate));
            }
        }
    }
}

/// A BOS of whole descriptors advertises exactly the rates that the bytes of
/// one of them state, and the capability it gives is the largest of them:
/// nothing it states is faster, and with none stated there is none.
pub proof fn law_a_bos_advertises_what_its_descriptors_state(caps: Seq<Seq<u8>>, r: Option<UsbSpeed>)
    requires
        forall|k: int| 0 <= k < caps.len() ==> (#[trigger] caps[k]).len() >= 3 && caps[k][0] == caps[k].len(),
        5 + concatenated(caps).len() <= 65535,
        largest_advertised(bos_of(caps), r),
    ensures
        forall|rate: nat| #[trigger]
            advertises(bos_of(caps), rate) <==> exists|k: int|
                0 <= k < caps.len() && states(#[trigger] caps[k], rate),
        r is Some ==> exists|k: int| 0 <= k < caps.len() && states(#[trigger] caps[k], (r->0).bps as nat),
        forall|k: int, rate: nat|
            0 <= k < caps.len() && #[trigger] states(caps[k], rate) ==> r is Some && rate <= (r->0).bps,
{
    assert forall|k: int| 0 <= k < caps.len() implies framed(#[trigger] caps[k]) by {}
    lemma_bos_of_descriptors(caps);
    assert forall|rate: nat| #[trigger] advertises(bos_of(caps), rate) <==> exists|k: int|
        0 <= k < caps.len() && states(#[trigger] caps[k], rate) by {
        lemma_rate_descriptors_state(caps, rate);
    }
    assert forall|k: int, rate: nat| 0 <= k < caps.len() && #[trigger] states(caps[k], rate) implies r is Some && rate
        <= (r->0).bps by {
        assert(advertises(bos_of(caps), rate));
    }
}

/// The header in front of the descriptors: its length, the type of a BOS, the
/// length of the whole in two bytes, low one first, and how many descriptors
/// there are.
pub proof fn law_a_bos_starts_with_its_header(caps: Seq<Seq<u8>>)
    requires
        5 + concatenated(caps).len() <= 65535,
        caps.len() <= 255,
    ensures
        ({
            let b = bos_of(caps);
            &&& b.len() == 5 + concatenated(caps).len()
            &&& b[0] == 5 && b[1] == 15
            &&& b[2] + 256 * b[3] == b.len()
            &&& b[4] == caps.len()
            &&& b.skip(5) == concatenated(caps)
        }),
{
    let b = bos_of(caps);
    assert(b.skip(5) =~= concatenated(caps));
}

/// Bytes that do not start with a BOS header advertise nothing.
pub proof fn law_other_bytes_advertise_nothing(bytes: Seq<u8>, rate: nat)
    requires
        bytes.len() < 5 || bytes[0] < 5 || bytes[1] != 15,
    ensures
        !advertises(bytes, rate),
{
    assert(rate_descriptors(bos_descriptors(bytes)).len() == 0);
}

/// A BOS that is there decides alone, and one that cannot be read gives
/// nothing; only without one a version of 3 or more is a floor of 5 Gb/s, and
/// never more.
pub proof fn law_a_bos_decides_before_the_version(bos: BosFile, version: Option<Seq<char>>, r: Option<Capability>)
    requires
        capability_stated(bos, version, r),
    ensures
        bos is Unreadable ==> r is None,
        bos is Present && r is Some ==> (r->0).source == CapabilitySource::Bos,
        bos is Absent && version is None ==> r is None,
        bos is Absent && r is Some ==> (r->0).source == CapabilitySource::BcdUsb && (r->0).speed.bps == 5_000_000_000,
        bos is Present ==> forall|rate: nat|
            (#[trigger] advertises((bos->Present_0)@, rate)) ==> r is Some && rate <= (r->0).speed.bps,
{
}

/// A version of digits, a point and more gives the floor exactly when the
/// digits are worth 3 or more.
pub proof fn law_a_version_of_three_or_more_is_a_floor(digits: Seq<char>, more: Seq<char>)
    requires
        all_digits(digits),
        place_value(digits) <= u32::MAX,
        trimmed(digits.push('.') + more) == digits.push('.') + more,
    ensures
        bcd_floor(Some(digits.push('.') + more)) == (if place_value(digits) >= 3 {
            Some(UsbSpeed { bps: 5_000_000_000 })
        } else {
            None
        }),
{
    assert(!digits.contains('.')) by {
        assert forall|i: int| 0 <= i < digits.len() implies digits[i] != '.' by {}
    }
    lemma_split_front(digits, more, '.');
    law_digits_read_at_their_worth(digits, u32::MAX as nat);
}

} // verus!
