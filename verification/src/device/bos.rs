//! The BOS (Binary device Object Store): the device's own statement of the
//! link rates it supports, as the sysfs `bos_descriptors` attribute gives it.
//!
//! Layouts, as in `include/uapi/linux/usb/ch9.h`:
//! - `USB_DT_BOS` 0x0F (bLength 5): bLength, bDescriptorType, wTotalLength
//!   (little-endian), bNumDeviceCaps.
//! - `USB_DT_DEVICE_CAPABILITY` 0x10: bLength, bDescriptorType,
//!   bDevCapabilityType.
//! - `USB_SS_CAP_TYPE` 3 (bLength 10): wSpeedSupported at offset 4; bit 3 is
//!   5 Gb/s operation.
//! - `USB_SSP_CAP_TYPE` 0xA: bmAttributes (u32) at offset 4, its low five bits
//!   the sublink attribute count minus one; the u32 sublink speed attributes
//!   start at offset 12: exponent in bits 4-5 (0 b/s, 1 Kb/s, 2 Mb/s, 3 Gb/s),
//!   mantissa from bit 16.
//!
//! The BOS states lane rates, not lane counts, so the value here is the
//! per-lane rate.

pub mod laws;

use vstd::prelude::*;

use crate::number::{parse_uint, read_uint};
use crate::speed::UsbSpeed;
use crate::text::{split, split_on, to_chars, trim, trimmed};

verus! {

/// Where a device's capability figure came from.
#[derive(Debug, Clone, Copy, PartialEq, Eq, Structural)]
pub enum CapabilitySource {
    /// Decoded from the device's BOS.
    Bos,
    /// Inferred from bcdUSB (sysfs `version`) 3.x on a kernel or device
    /// without a BOS file: a floor of 5 Gb/s, never more.
    BcdUsb,
}

impl CapabilitySource {
    /// The JSON value.
    pub fn as_str(self) -> (r: &'static str)
        ensures
            r@ == (match self {
                CapabilitySource::Bos => "bos"@,
                CapabilitySource::BcdUsb => "bcd_usb"@,
            }),
    {
        match self {
            CapabilitySource::Bos => "bos",
            CapabilitySource::BcdUsb => "bcd_usb",
        }
    }
}

/// The highest link rate a device says it supports, and how that is known.
#[derive(Debug, Clone, Copy, PartialEq, Eq, Structural)]
pub struct Capability {
    pub speed: UsbSpeed,
    pub source: CapabilitySource,
}

const DT_BOS: u8 = 0x0f;

const DT_DEVICE_CAPABILITY: u8 = 0x10;

const SS_CAP_TYPE: u8 = 0x03;

const SSP_CAP_TYPE: u8 = 0x0a;

/// The little-endian u16 at `i`.
pub open spec fn le16(b: Seq<u8>, i: int) -> nat {
    b[i] as nat + 256 * b[i + 1] as nat
}

/// The little-endian u32 at `i`.
pub open spec fn le32(b: Seq<u8>, i: int) -> nat {
    le16(b, i) + 65536 * le16(b, i + 2)
}

/// Whether `bytes` start with a BOS header.
pub open spec fn is_bos(bytes: Seq<u8>) -> bool {
    bytes.len() >= 5 && bytes[0] >= 5 && bytes[1] == 0x0f
}

/// The bytes up to `wTotalLength`, as far as they are there.
pub open spec fn bos_block(bytes: Seq<u8>) -> Seq<u8> {
    if le16(bytes, 2) <= bytes.len() {
        bytes.take(le16(bytes, 2) as int)
    } else {
        bytes
    }
}

/// The descriptors of `block` from `at` on. One whose length is below its
/// three-byte header, or that runs past the block, ends the walk.
pub open spec fn descriptors(block: Seq<u8>, at: int) -> Seq<Seq<u8>>
    decreases block.len() - at,
{
    if at < 0 || at + 3 > block.len() || block[at] < 3 || at + block[at] > block.len() {
        Seq::empty()
    } else {
        seq![block.subrange(at, at + block[at])] + descriptors(block, at + block[at])
    }
}

/// The device capability descriptors of a BOS; none when the bytes are not
/// a BOS.
pub open spec fn bos_descriptors(bytes: Seq<u8>) -> Seq<Seq<u8>> {
    if is_bos(bytes) {
        descriptors(bos_block(bytes), bytes[0] as int)
    } else {
        Seq::empty()
    }
}

/// Whether a capability descriptor states a link rate: SuperSpeed (type 3)
/// and SuperSpeedPlus (type 0x0A).
pub open spec fn is_rate_descriptor(cap: Seq<u8>) -> bool {
    cap[1] == 0x10 && (cap[2] == 0x03 || cap[2] == 0x0a)
}

/// The descriptors of `caps` that state a rate, in order.
pub open spec fn rate_descriptors(caps: Seq<Seq<u8>>) -> Seq<Seq<u8>>
    decreases caps.len(),
{
    if caps.len() == 0 {
        Seq::empty()
    } else if is_rate_descriptor(caps.last()) {
        rate_descriptors(caps.drop_last()).push(caps.last())
    } else {
        rate_descriptors(caps.drop_last())
    }
}

/// The rate of a sublink speed attribute, in bits per second.
pub open spec fn sublink_rate(v: nat) -> nat {
    let mantissa = v / 65536;
    let exponent = v / 16 % 4;
    if exponent == 0 {
        mantissa
    } else if exponent == 1 {
        mantissa * 1_000
    } else if exponent == 2 {
        mantissa * 1_000_000
    } else {
        mantissa * 1_000_000_000
    }
}

/// Whether sublink attribute `i` of a SuperSpeedPlus descriptor states `rate`.
pub open spec fn sublink_states(cap: Seq<u8>, i: int, rate: nat) -> bool {
    &&& 0 <= i <= le32(cap, 4) % 32
    &&& 12 + 4 * i + 4 <= cap.len()
    &&& rate == sublink_rate(le32(cap, 12 + 4 * i))
}

/// Whether one rate descriptor states `rate` (in bits per second).
pub open spec fn descriptor_states(cap: Seq<u8>, rate: nat) -> bool {
    &&& rate > 0
    &&& if cap[2] == 0x03 {
        cap.len() >= 6 && le16(cap, 4) / 8 % 2 == 1 && rate == 5_000_000_000
    } else {
        cap.len() >= 12 && exists|i: int| sublink_states(cap, i, rate)
    }
}

/// Whether one of `caps` states `rate`.
pub open spec fn any_states(caps: Seq<Seq<u8>>, rate: nat) -> bool {
    exists|k: int| 0 <= k < caps.len() && descriptor_states(#[trigger] caps[k], rate)
}

/// Whether the BOS advertises `rate`: an SuperSpeedPlus sublink rate, or
/// 5 Gb/s when the SuperSpeed capability claims that operation.
pub open spec fn advertises(bytes: Seq<u8>, rate: nat) -> bool {
    any_states(rate_descriptors(bos_descriptors(bytes)), rate)
}

/// What `capability_from_bos` returns: the largest advertised rate.
pub open spec fn largest_advertised(bytes: Seq<u8>, r: Option<UsbSpeed>) -> bool {
    match r {
        Some(s) => advertises(bytes, s.bps as nat) && forall|rate: nat|
            advertises(bytes, rate) ==> rate <= s.bps,
        None => forall|rate: nat| !advertises(bytes, rate),
    }
}

/// The bytes of several descriptors, one after another.
pub open spec fn concatenated(caps: Seq<Seq<u8>>) -> Seq<u8>
    decreases caps.len(),
{
    if caps.len() == 0 {
        Seq::empty()
    } else {
        concatenated(caps.drop_last()) + caps.last()
    }
}

/// A BOS that holds just `kept`: a five-byte header and the descriptors.
pub open spec fn bos_of(kept: Seq<Seq<u8>>) -> Seq<u8> {
    let total = 5 + concatenated(kept).len();
    seq![
        5u8,
        0x0fu8,
        (total % 256) as u8,
        (total / 256) as u8,
        (if kept.len() <= 255 { kept.len() } else { 0 }) as u8,
    ] + concatenated(kept)
}

/// The BOS reduced to the descriptors that state a rate.
pub open spec fn reduced_bos(bytes: Seq<u8>) -> Seq<u8> {
    bos_of(rate_descriptors(bos_descriptors(bytes)))
}

/// The bytes held by each of several byte vectors.
pub open spec fn byte_views(v: Seq<Vec<u8>>) -> Seq<Seq<u8>> {
    v.map_values(|b: Vec<u8>| b@)
}

/// What each descriptor the walk yields looks like.
pub open spec fn framed(cap: Seq<u8>) -> bool {
    cap.len() >= 3 && cap[0] == cap.len()
}

proof fn lemma_descriptors_framed(block: Seq<u8>, at: int)
    requires
        0 <= at,
    ensures
        forall|k: int| 0 <= k < descriptors(block, at).len() ==> framed(#[trigger] descriptors(block, at)[k]),
        at <= block.len() ==> concatenated(descriptors(block, at)).len() + at <= block.len(),
        at > block.len() ==> descriptors(block, at).len() == 0,
    decreases block.len() - at,
{
    let all = descriptors(block, at);
    if all.len() > 0 {
        let head = block.subrange(at, at + block[at]);
        let next = at + block[at];
        lemma_descriptors_framed(block, next);
        let tail = descriptors(block, next);
        assert forall|k: int| 0 <= k < all.len() implies framed(#[trigger] all[k]) by {
            if k > 0 {
                assert(all[k] == tail[k - 1]);
            }
        }
        lemma_concatenated_front(head, tail);
    }
}

proof fn lemma_concatenated_front(head: Seq<u8>, tail: Seq<Seq<u8>>)
    ensures
        concatenated(seq![head] + tail) == head + concatenated(tail),
    decreases tail.len(),
{
    let all = seq![head] + tail;
    if tail.len() == 0 {
        assert(all.drop_last() == Seq::<Seq<u8>>::empty());
        assert(concatenated(all.drop_last()) == Seq::<u8>::empty());
        assert(all.last() == head);
        assert(Seq::<u8>::empty() + head == head);
        assert(head + concatenated(tail) == head);
    } else {
        assert(all.drop_last() == seq![head] + tail.drop_last());
        lemma_concatenated_front(head, tail.drop_last());
        assert(concatenated(all) == head + concatenated(tail.drop_last()) + tail.last());
        assert(head + concatenated(tail.drop_last()) + tail.last() == head + concatenated(tail));
    }
}

proof fn lemma_rate_descriptors(caps: Seq<Seq<u8>>)
    requires
        forall|k: int| 0 <= k < caps.len() ==> framed(#[trigger] caps[k]),
    ensures
        forall|k: int|
            0 <= k < rate_descriptors(caps).len() ==> framed(#[trigger] rate_descriptors(caps)[k])
                && is_rate_descriptor(rate_descriptors(caps)[k]),
        concatenated(rate_descriptors(caps)).len() <= concatenated(caps).len(),
        rate_descriptors(caps).len() <= caps.len(),
    decreases caps.len(),
{
    if caps.len() > 0 {
        lemma_rate_descriptors(caps.drop_last());
        let kept = rate_descriptors(caps);
        if is_rate_descriptor(caps.last()) {
            assert(kept.drop_last() == rate_descriptors(caps.drop_last()));
        }
    }
}

/// Filtering a list whose every entry states a rate keeps it whole.
proof fn lemma_rate_descriptors_again(caps: Seq<Seq<u8>>)
    requires
        forall|k: int| 0 <= k < caps.len() ==> is_rate_descriptor(#[trigger] caps[k]),
    ensures
        rate_descriptors(caps) == caps,
    decreases caps.len(),
{
    if caps.len() > 0 {
        lemma_rate_descriptors_again(caps.drop_last());
        assert(caps.drop_last().push(caps.last()) == caps);
    }
}

proof fn lemma_concatenated_split(caps: Seq<Seq<u8>>, k: int)
    requires
        0 <= k < caps.len(),
    ensures
        concatenated(caps.take(k)).len() + caps[k].len() <= concatenated(caps).len(),
        concatenated(caps).subrange(
            concatenated(caps.take(k)).len() as int,
            (concatenated(caps.take(k)).len() + caps[k].len()) as int,
        ) == caps[k],
        concatenated(caps.take(k + 1)).len() == concatenated(caps.take(k)).len() + caps[k].len(),
    decreases caps.len(),
{
    assert(caps.take(k + 1).drop_last() == caps.take(k));
    if k == caps.len() - 1 {
        assert(caps.take(k) == caps.drop_last());
    } else {
        let front = caps.drop_last();
        lemma_concatenated_split(front, k);
        assert(front.take(k) == caps.take(k));
        let at = concatenated(caps.take(k)).len() as int;
        assert(concatenated(caps).subrange(at, at + caps[k].len()) == concatenated(front).subrange(
            at,
            at + caps[k].len(),
        ));
    }
}

/// Walking the block that `bos_of` builds finds the descriptors again.
proof fn lemma_bos_of_walk(kept: Seq<Seq<u8>>, k: int)
    requires
        forall|j: int| 0 <= j < kept.len() ==> framed(#[trigger] kept[j]),
        0 <= k <= kept.len(),
        5 + concatenated(kept).len() <= 65535,
    ensures
        descriptors(bos_of(kept), 5 + concatenated(kept.take(k)).len() as int) == kept.skip(k),
    decreases kept.len() - k,
{
    let block = bos_of(kept);
    let at = 5 + concatenated(kept.take(k)).len() as int;
    if k == kept.len() {
        assert(kept.take(k) == kept);
        assert(kept.skip(k) == Seq::<Seq<u8>>::empty());
    } else {
        lemma_concatenated_split(kept, k);
        let cap = kept[k];
        assert(framed(cap));
        let inner = concatenated(kept);
        assert(block.subrange(at, at + cap.len()) == inner.subrange(at - 5, at - 5 + cap.len()));
        assert(block[at] == cap[0]) by {
            assert(block.subrange(at, at + cap.len())[0] == cap[0]);
        }
        lemma_bos_of_walk(kept, k + 1);
        assert(kept.skip(k) == seq![cap] + kept.skip(k + 1));
    }
}

proof fn lemma_bos_of_descriptors(kept: Seq<Seq<u8>>)
    requires
        forall|j: int| 0 <= j < kept.len() ==> framed(#[trigger] kept[j]),
        5 + concatenated(kept).len() <= 65535,
    ensures
        bos_descriptors(bos_of(kept)) == kept,
{
    let b = bos_of(kept);
    let total = 5 + concatenated(kept).len();
    assert(le16(b, 2) == total) by {
        assert(b[2] == (total % 256) as u8);
        assert(b[3] == (total / 256) as u8);
    }
    assert(b.len() == total);
    assert(bos_block(b) == b);
    assert(kept.take(0) == Seq::<Seq<u8>>::empty());
    lemma_bos_of_walk(kept, 0);
    assert(kept.skip(0) == kept);
}

proof fn lemma_kept_bounds(bytes: Seq<u8>)
    ensures
        ({
            let kept = rate_descriptors(bos_descriptors(bytes));
            &&& forall|j: int|
                0 <= j < kept.len() ==> framed(#[trigger] kept[j]) && is_rate_descriptor(kept[j])
            &&& 5 + concatenated(kept).len() <= 65535
            &&& kept.len() <= bytes.len()
        }),
{
    let caps = bos_descriptors(bytes);
    if is_bos(bytes) {
        lemma_descriptors_framed(bos_block(bytes), bytes[0] as int);
        lemma_rate_descriptors(caps);
        lemma_count(bos_block(bytes), bytes[0] as int);
    }
}

proof fn lemma_count(block: Seq<u8>, at: int)
    requires
        0 <= at,
    ensures
        at <= block.len() ==> descriptors(block, at).len() <= block.len() - at,
        at > block.len() ==> descriptors(block, at).len() == 0,
    decreases block.len() - at,
{
    if descriptors(block, at).len() > 0 {
        lemma_count(block, at + block[at]);
    }
}

/// The reduced BOS advertises exactly the rates of the full one.
pub proof fn law_reduction_keeps_the_rates(bytes: Seq<u8>, rate: nat)
    ensures
        advertises(reduced_bos(bytes), rate) == advertises(bytes, rate),
{
    let kept = rate_descriptors(bos_descriptors(bytes));
    lemma_kept_bounds(bytes);
    lemma_bos_of_descriptors(kept);
    lemma_rate_descriptors_again(kept);
}

/// Reducing twice is reducing once.
pub proof fn law_reduction_is_idempotent(bytes: Seq<u8>)
    ensures
        reduced_bos(reduced_bos(bytes)) == reduced_bos(bytes),
{
    let kept = rate_descriptors(bos_descriptors(bytes));
    lemma_kept_bounds(bytes);
    lemma_bos_of_descriptors(kept);
    lemma_rate_descriptors_again(kept);
}

/// The reduced BOS holds rate descriptors of the full one and nothing else.
pub proof fn law_reduction_holds_only_rate_descriptors(bytes: Seq<u8>)
    ensures
        bos_descriptors(reduced_bos(bytes)) == rate_descriptors(bos_descriptors(bytes)),
        forall|k: int|
            0 <= k < bos_descriptors(reduced_bos(bytes)).len() ==> is_rate_descriptor(
                #[trigger] bos_descriptors(reduced_bos(bytes))[k],
            ),
{
    let kept = rate_descriptors(bos_descriptors(bytes));
    lemma_kept_bounds(bytes);
    lemma_bos_of_descriptors(kept);
}

/// Bytes that are not a BOS, and a BOS without a rate descriptor, reduce to
/// a bare header.
pub proof fn law_reduction_of_nothing_is_a_bare_header(bytes: Seq<u8>)
    requires
        rate_descriptors(bos_descriptors(bytes)).len() == 0,
    ensures
        reduced_bos(bytes) == seq![5u8, 0x0fu8, 5u8, 0u8, 0u8],
{
    let kept = rate_descriptors(bos_descriptors(bytes));
    assert(concatenated(kept) == Seq::<u8>::empty());
    assert(reduced_bos(bytes) =~= seq![5u8, 0x0fu8, 5u8, 0u8, 0u8]);
}

/// The bytes `b[from..to]`.
pub fn byte_slice(b: &[u8], from: usize, to: usize) -> (r: Vec<u8>)
    requires
        from <= to <= b@.len(),
    ensures
        r@ == b@.subrange(from as int, to as int),
{
    let mut r: Vec<u8> = Vec::new();
    let mut i: usize = from;
    while i < to
        invariant
            from <= i <= to <= b@.len(),
            r@ == b@.subrange(from as int, i as int),
        decreases to - i,
    {
        r.push(b[i]);
        assert(b@.subrange(from as int, i + 1) == b@.subrange(from as int, i as int).push(b@[i as int]));
        i = i + 1;
    }
    r
}

/// The device capability descriptors of a BOS, each as its own bytes, in
/// order. `None` when `bytes` do not start with a BOS header.
fn capabilities(bytes: &[u8]) -> (r: Option<Vec<Vec<u8>>>)
    ensures
        r is Some <==> is_bos(bytes@),
        r matches Some(caps) ==> byte_views(caps@) == bos_descriptors(bytes@),
{
    if bytes.len() < 5 || bytes[0] < 5 || bytes[1] != DT_BOS {
        return None;
    }
    let total: usize = bytes[2] as usize + 256 * bytes[3] as usize;
    let len: usize = if total <= bytes.len() { total } else { bytes.len() };
    let ghost block = bos_block(bytes@);
    assert(block == bytes@.take(len as int));
    let mut at: usize = bytes[0] as usize;
    let mut caps: Vec<Vec<u8>> = Vec::new();
    assert(byte_views(caps@) + descriptors(block, at as int) == descriptors(block, at as int));
    loop
        invariant
            len <= bytes@.len(),
            len <= 65535,
            at <= 65535,
            block == bytes@.take(len as int),
            is_bos(bytes@),
            block == bos_block(bytes@),
            byte_views(caps@) + descriptors(block, at as int) == bos_descriptors(bytes@),
        decreases len + 3 - at,
    {
        if at + 3 > len || bytes[at] < 3 || bytes[at] as usize > len - at {
            assert(descriptors(block, at as int) == Seq::<Seq<u8>>::empty());
            assert(byte_views(caps@) == bos_descriptors(bytes@));
            return Some(caps);
        }
        let step: usize = bytes[at] as usize;
        let cap = byte_slice(bytes, at, at + step);
        let ghost before = byte_views(caps@);
        caps.push(cap);
        proof {
            assert(block.subrange(at as int, at + step) == cap@);
            assert(byte_views(caps@) == before.push(cap@));
            let rest = descriptors(block, at + step);
            assert(before.push(cap@) + rest == before + (seq![cap@] + rest));
        }
        at = at + step;
    }
}

/// Whether a capability descriptor states a link rate.
fn states_a_rate(cap: &Vec<u8>) -> (r: bool)
    requires
        cap@.len() >= 3,
    ensures
        r == is_rate_descriptor(cap@),
{
    cap[1] == DT_DEVICE_CAPABILITY && (cap[2] == SS_CAP_TYPE || cap[2] == SSP_CAP_TYPE)
}

/// The largest rate a descriptor states, or zero.
fn descriptor_rate(cap: &Vec<u8>) -> (best: u64)
    requires
        framed(cap@),
        is_rate_descriptor(cap@),
    ensures
        best > 0 ==> descriptor_states(cap@, best as nat),
        forall|rate: nat| descriptor_states(cap@, rate) ==> rate <= best,
{
    if cap[2] == SS_CAP_TYPE {
        if cap.len() >= 6 {
            let speeds: u32 = cap[4] as u32 + 256 * cap[5] as u32;
            if speeds / 8 % 2 == 1 {
                return 5_000_000_000;
            }
        }
        return 0;
    }
    if cap.len() < 12 {
        return 0;
    }
    let count: usize = (cap[4] as usize) % 32;
    assert(le32(cap@, 4) % 32 == count);
    let mut best: u64 = 0;
    let mut i: usize = 0;
    while i <= count && 12 + 4 * i + 4 <= cap.len()
        invariant
            12 <= cap@.len(),
            cap@.len() <= 255,
            cap@[2] != 0x03,
            i <= count + 1,
            count < 32,
            count == le32(cap@, 4) % 32,
            i > 0 ==> 12 + 4 * (i - 1) + 4 <= cap@.len(),
            best > 0 ==> descriptor_states(cap@, best as nat),
            forall|j: int, rate: nat| 0 <= j < i && #[trigger] sublink_states(cap@, j, rate) ==> rate <= best,
        decreases count + 1 - i,
    {
        let off: usize = 12 + 4 * i;
        let v: u64 = cap[off] as u64 + 256 * cap[off + 1] as u64 + 65536 * (cap[off + 2] as u64 + 256
            * cap[off + 3] as u64);
        assert(v == le32(cap@, 12 + 4 * i));
        let mantissa: u64 = v / 65536;
        let exponent: u64 = v / 16 % 4;
        let rate: u64 = if exponent == 0 {
            mantissa
        } else if exponent == 1 {
            mantissa * 1_000
        } else if exponent == 2 {
            mantissa * 1_000_000
        } else {
            mantissa * 1_000_000_000
        };
        assert(rate == sublink_rate(v as nat));
        if rate > best {
            assert(sublink_states(cap@, i as int, rate as nat));
            best = rate;
        }
        i = i + 1;
    }
    best
}

/// The largest link rate the BOS advertises: every SuperSpeedPlus sublink
/// rate and, when the SuperSpeed capability claims 5 Gb/s operation, that.
/// `None` when the bytes are not a BOS or carry neither capability.
pub fn capability_from_bos(bytes: &[u8]) -> (r: Option<UsbSpeed>)
    ensures
        largest_advertised(bytes@, r),
{
    let kept = kept_capabilities(bytes);
    proof {
        lemma_kept_bounds(bytes@);
    }
    let ghost all = rate_descriptors(bos_descriptors(bytes@));
    let mut best: u64 = 0;
    let mut i: usize = 0;
    while i < kept.len()
        invariant
            i <= kept.len(),
            byte_views(kept@) == all,
            forall|j: int|
                0 <= j < all.len() ==> framed(#[trigger] all[j]) && is_rate_descriptor(all[j]),
            best > 0 ==> any_states(all, best as nat),
            forall|j: int, rate: nat|
                0 <= j < i && #[trigger] descriptor_states(all[j], rate) ==> rate <= best,
        decreases kept.len() - i,
    {
        assert(all[i as int] == kept@[i as int]@);
        let rate = descriptor_rate(&kept[i]);
        if rate > best {
            best = rate;
        }
        i = i + 1;
    }
    if best > 0 {
        Some(UsbSpeed { bps: best })
    } else {
        None
    }
}

/// The descriptors of a BOS that state a rate, in order.
fn kept_capabilities(bytes: &[u8]) -> (kept: Vec<Vec<u8>>)
    ensures
        byte_views(kept@) == rate_descriptors(bos_descriptors(bytes@)),
{
    let mut kept: Vec<Vec<u8>> = Vec::new();
    match capabilities(bytes) {
        None => {
            assert(byte_views(kept@) == rate_descriptors(bos_descriptors(bytes@)));
        },
        Some(caps) => {
            let ghost all = byte_views(caps@);
            proof {
                lemma_descriptors_framed(bos_block(bytes@), bytes@[0] as int);
            }
            let mut i: usize = 0;
            assert(all.take(0) == Seq::<Seq<u8>>::empty());
            assert(byte_views(kept@) == rate_descriptors(all.take(0)));
            while i < caps.len()
                invariant
                    i <= caps.len(),
                    all == byte_views(caps@),
                    forall|j: int| 0 <= j < all.len() ==> framed(#[trigger] all[j]),
                    byte_views(kept@) == rate_descriptors(all.take(i as int)),
                decreases caps.len() - i,
            {
                let cap = &caps[i];
                assert(all[i as int] == cap@);
                let ghost before = byte_views(kept@);
                assert(all.take(i + 1).drop_last() == all.take(i as int));
                if states_a_rate(cap) {
                    let copy = byte_slice(cap.as_slice(), 0, cap.len());
                    assert(cap@.subrange(0, cap@.len() as int) == cap@);
                    kept.push(copy);
                    assert(byte_views(kept@) == before.push(cap@));
                }
                i = i + 1;
            }
            assert(all.take(all.len() as int) == all);
        },
    }
    kept
}

/// The BOS reduced to what a replay reads: the SuperSpeed and SuperSpeedPlus
/// capability descriptors under a rebuilt header. Everything else is
/// dropped: the USB 2.0 extension, the Container ID (a UUID that identifies
/// the unit the way a serial does), the billboard and platform capabilities.
pub fn rate_capabilities_only(bytes: &[u8]) -> (out: Vec<u8>)
    ensures
        out@ == reduced_bos(bytes@),
{
    let kept = kept_capabilities(bytes);
    let ghost all = byte_views(kept@);
    proof {
        lemma_kept_bounds(bytes@);
    }
    let mut body: Vec<u8> = Vec::new();
    let mut i: usize = 0;
    assert(all.take(0) == Seq::<Seq<u8>>::empty());
    while i < kept.len()
        invariant
            i <= kept.len(),
            all == byte_views(kept@),
            body@ == concatenated(all.take(i as int)),
        decreases kept.len() - i,
    {
        assert(all[i as int] == kept@[i as int]@);
        assert(all.take(i + 1).drop_last() == all.take(i as int));
        push_bytes(&mut body, &kept[i]);
        i = i + 1;
    }
    assert(all.take(all.len() as int) == all);
    let total: usize = 5 + body.len();
    let count: u8 = if kept.len() <= 255 { kept.len() as u8 } else { 0 };
    let mut out: Vec<u8> = Vec::new();
    out.push(5);
    out.push(DT_BOS);
    out.push((total % 256) as u8);
    out.push((total / 256) as u8);
    out.push(count);
    push_bytes(&mut out, &body);
    assert(out@ == bos_of(all));
    out
}

/// Append all of `tail` to `v`.
pub fn push_bytes(v: &mut Vec<u8>, tail: &Vec<u8>)
    ensures
        final(v)@ == old(v)@ + tail@,
{
    let mut i: usize = 0;
    let ghost start = v@;
    while i < tail.len()
        invariant
            i <= tail.len(),
            v@ == start + tail@.take(i as int),
        decreases tail.len() - i,
    {
        v.push(tail[i]);
        assert(tail@.take(i + 1) == tail@.take(i as int).push(tail@[i as int]));
        assert(v@ == start + tail@.take(i + 1));
        i = i + 1;
    }
    assert(tail@.take(tail@.len() as int) == tail@);
}

/// How reading a device's `bos_descriptors` went.
#[derive(Debug)]
pub enum BosFile {
    /// The file was read.
    Present(Vec<u8>),
    /// The file is there and cannot be read.
    Unreadable,
    /// There is no such file.
    Absent,
}

/// The major version that a bcdUSB text states.
pub open spec fn major_version(version: Seq<char>) -> Option<nat> {
    read_uint(split_on(trimmed(version), '.')[0], 10, u32::MAX as nat)
}

/// The floor that bcdUSB gives: 5 Gb/s from version 3 on.
pub open spec fn bcd_floor(version: Option<Seq<char>>) -> Option<UsbSpeed> {
    match version {
        Some(v) => match major_version(v) {
            Some(major) => if major >= 3 {
                Some(UsbSpeed { bps: 5_000_000_000 })
            } else {
                None
            },
            None => None,
        },
        None => None,
    }
}

/// What a `bos_descriptors` file and a bcdUSB text say of a device: a BOS
/// that was read decides alone, one that cannot be read says nothing, and
/// without one bcdUSB 3.x is a floor.
pub open spec fn capability_stated(bos: BosFile, version: Option<Seq<char>>, r: Option<Capability>) -> bool {
    match bos {
        BosFile::Present(bytes) => match r {
            Some(c) => c.source == CapabilitySource::Bos && largest_advertised(bytes@, Some(c.speed)),
            None => largest_advertised(bytes@, None),
        },
        BosFile::Unreadable => r is None,
        BosFile::Absent => match bcd_floor(version) {
            Some(speed) => r == Some(Capability { speed, source: CapabilitySource::BcdUsb }),
            None => r is None,
        },
    }
}

/// A device that declares bcdUSB 3.00 or later is SuperSpeed-capable. The
/// absence of this signal proves nothing: a device linked below its
/// capability usually reports bcdUSB 2.10.
pub fn read_max_capability(version: Option<&String>) -> (r: Option<UsbSpeed>)
    ensures
        r == bcd_floor(
            match version {
                Some(v) => Some(v@),
                None => None,
            },
        ),
{
    let raw = match version {
        None => {
            return None;
        },
        Some(v) => to_chars(v.as_str()),
    };
    let text = trim(&raw);
    let pieces = split(&text, '.');
    proof {
        crate::text::lemma_split_on_nonempty(text@, '.');
        assert(crate::text::char_views(pieces@)[0] == pieces@[0]@);
    }
    match parse_uint(&pieces[0], 10, u32::MAX as u64) {
        None => None,
        Some(major) => if major >= 3 {
            Some(UsbSpeed { bps: 5_000_000_000 })
        } else {
            None
        },
    }
}

/// The capability of a device. A device linked below its capability usually
/// reports bcdUSB 2.10 on the USB 2 bus, so on a kernel without a BOS file
/// the absence of a capability proves nothing.
pub fn read_capability(bos: &BosFile, version: Option<&String>) -> (r: Option<Capability>)
    ensures
        capability_stated(
            *bos,
            match version {
                Some(v) => Some(v@),
                None => None,
            },
            r,
        ),
{
    match bos {
        BosFile::Present(bytes) => match capability_from_bos(bytes.as_slice()) {
            Some(speed) => Some(Capability { speed, source: CapabilitySource::Bos }),
            None => None,
        },
        BosFile::Unreadable => None,
        BosFile::Absent => match read_max_capability(version) {
            Some(speed) => Some(Capability { speed, source: CapabilitySource::BcdUsb }),
            None => None,
        },
    }
}

/// At most one answer fits: the largest advertised rate is unique.
pub proof fn law_largest_is_unique(bytes: Seq<u8>, a: Option<UsbSpeed>, b: Option<UsbSpeed>)
    requires
        largest_advertised(bytes, a),
        largest_advertised(bytes, b),
    ensures
        a == b,
{
    match (a, b) {
        (Some(x), Some(y)) => {
            assert(x.bps as nat <= y.bps);
            assert(y.bps as nat <= x.bps);
        },
        (Some(x), None) => {
            assert(advertises(bytes, x.bps as nat));
        },
        (None, Some(y)) => {
            assert(advertises(bytes, y.bps as nat));
        },
        (None, None) => {},
    }
}

/// A replay of the reduced BOS decides what the full one decided.
pub proof fn law_reduction_keeps_the_capability(bytes: Seq<u8>, r: Option<UsbSpeed>)
    ensures
        largest_advertised(reduced_bos(bytes), r) == largest_advertised(bytes, r),
{
    assert forall|rate: nat|
        #![trigger advertises(reduced_bos(bytes), rate)]
        #![trigger advertises(bytes, rate)]
        advertises(reduced_bos(bytes), rate) == advertises(bytes, rate) by {
        law_reduction_keeps_the_rates(bytes, rate);
    }
}

} // verus!
