//! What a filter promises, said of the text that the user wrote: each
//! KEY=VALUE term holds of everything that passes, and what meets every term
//! passes.

use vstd::prelude::*;

use crate::device::UsbDevice;
use crate::number::{all_digits, law_digits_read_at_their_worth, law_only_digits_are_read, place_value, read_uint};
use crate::text::{
    first_index, lemma_first_index, lemma_first_index_is, lemma_split_front, lemma_split_single, occurs, occurs_at,
    split_on,
};
use crate::usbmon::TransferType;

use super::{
    device_wanted, expression, expressions, lowercased, nothing_wanted, set_wants_device, set_wants_traffic,
    terms_wanted, traffic_wanted, with_key, with_term, FilterFault, Wanted,
};

verus! {

/// Whether `piece` stands in `raw` between commas, with `before` in front of
/// it and `after` behind it.
pub open spec fn stands(raw: Seq<char>, before: Seq<char>, piece: Seq<char>, after: Seq<char>) -> bool {
    &&& raw == before + piece + after
    &&& !piece.contains(',')
    &&& before.len() == 0 || before.last() == ','
    &&& after.len() == 0 || after[0] == ','
}

/// Whether `piece` is one of the comma-separated pieces of `raw`.
pub open spec fn has_piece(raw: Seq<char>, piece: Seq<char>) -> bool {
    exists|before: Seq<char>, after: Seq<char>| #[trigger] stands(raw, before, piece, after)
}

/// A key and its value as a term writes them.
pub open spec fn term(key: Seq<char>, value: Seq<char>) -> Seq<char> {
    key.push('=') + value
}

/// Whether the term KEY=VALUE is written in `raw`.
pub open spec fn has_term(raw: Seq<char>, key: Seq<char>, value: Seq<char>) -> bool {
    has_piece(raw, term(key, value)) && !key.contains('=')
}

/// Whether a value writes the number `n` in decimal, with or without a plus
/// sign in front.
pub open spec fn number_is(value: Seq<char>, n: u8) -> bool {
    let digits = if value.len() > 0 && value[0] == '+' {
        value.skip(1)
    } else {
        value
    };
    all_digits(digits) && place_value(digits) == n
}

/// Whether a value writes a known id in four hexadecimal digits.
pub open spec fn id_is(value: Seq<char>, id: Option<u16>) -> bool {
    value.len() == 4 && id is Some && read_uint(value, 16, 65535) == Some(id->0 as nat)
}

/// Whether the lower case of a name is there and holds the lower case of
/// `value`.
pub open spec fn name_holds(name: Option<String>, value: Seq<char>) -> bool {
    name is Some && exists|at: int|
        0 <= at <= lowercased(name->0@).len() - lowercased(value).len() && #[trigger] lowercased(name->0@).subrange(
            at,
            at + lowercased(value).len(),
        ) == lowercased(value)
}

/// What a term says of the device that it lets through. Terms on endpoints
/// say nothing of it.
pub open spec fn asked_of_device(key: Seq<char>, value: Seq<char>, d: UsbDevice) -> bool {
    &&& key == "bus"@ ==> number_is(value, d.bus_id)
    &&& key == "dev"@ ==> number_is(value, d.device_id)
    &&& key == "vid"@ ==> id_is(value, d.vendor_id)
    &&& key == "pid"@ ==> id_is(value, d.product_id)
    &&& key == "id"@ ==> value.len() == 9 && value[4] == ':' && id_is(value.take(4), d.vendor_id) && id_is(
        value.skip(5),
        d.product_id,
    )
    &&& key == "name"@ ==> name_holds(d.vendor, value) || name_holds(d.product, value)
    &&& key == "internal"@ ==> ((value == "yes"@ || value == "true"@) && d.is_internal) || ((value == "no"@ || value
        == "false"@) && !d.is_internal)
}

/// What a term says of the traffic that it lets through, beside the device.
pub open spec fn asked_of_traffic(
    key: Seq<char>,
    value: Seq<char>,
    endpoint: u8,
    dir_in: bool,
    transfer: Option<TransferType>,
) -> bool {
    &&& key == "ep"@ ==> number_is(value, endpoint) && endpoint <= 15
    &&& key == "dir"@ ==> (value == "in"@ && dir_in) || (value == "out"@ && !dir_in)
    &&& key == "type"@ ==> {
        ||| (value == "control"@ || value == "ctrl"@) && transfer == Some(TransferType::Control)
        ||| value == "iso"@ && transfer == Some(TransferType::Isochronous)
        ||| value == "bulk"@ && transfer == Some(TransferType::Bulk)
        ||| (value == "interrupt"@ || value == "int"@) && transfer == Some(TransferType::Interrupt)
    }
}

/// Whether a key is one that a filter knows.
pub open spec fn is_key(key: Seq<char>) -> bool {
    key == "bus"@ || key == "dev"@ || key == "vid"@ || key == "pid"@ || key == "id"@ || key == "name"@ || key == "ep"@
        || key == "dir"@ || key == "type"@ || key == "internal"@
}

proof fn lemma_keys()
    ensures
        "bus"@ == seq!['b', 'u', 's'],
        "dev"@ == seq!['d', 'e', 'v'],
        "vid"@ == seq!['v', 'i', 'd'],
        "pid"@ == seq!['p', 'i', 'd'],
        "id"@ == seq!['i', 'd'],
        "name"@ == seq!['n', 'a', 'm', 'e'],
        "ep"@ == seq!['e', 'p'],
        "dir"@ == seq!['d', 'i', 'r'],
        "type"@ == seq!['t', 'y', 'p', 'e'],
        "internal"@ == seq!['i', 'n', 't', 'e', 'r', 'n', 'a', 'l'],
{
    reveal_strlit("bus");
    reveal_strlit("dev");
    reveal_strlit("vid");
    reveal_strlit("pid");
    reveal_strlit("id");
    reveal_strlit("name");
    reveal_strlit("ep");
    reveal_strlit("dir");
    reveal_strlit("type");
    reveal_strlit("internal");
}

proof fn lemma_keys_differ(key: Seq<char>)
    ensures
        key == "bus"@ ==> key.len() == 3 && key[0] == 'b',
        key == "dev"@ ==> key.len() == 3 && key[0] == 'd' && key[1] == 'e',
        key == "vid"@ ==> key.len() == 3 && key[0] == 'v',
        key == "pid"@ ==> key.len() == 3 && key[0] == 'p',
        key == "id"@ ==> key.len() == 2 && key[0] == 'i',
        key == "name"@ ==> key.len() == 4 && key[0] == 'n',
        key == "ep"@ ==> key.len() == 2 && key[0] == 'e',
        key == "dir"@ ==> key.len() == 3 && key[0] == 'd' && key[1] == 'i',
        key == "type"@ ==> key.len() == 4 && key[0] == 't',
        key == "internal"@ ==> key.len() == 8,
{
    lemma_keys();
}

proof fn lemma_words_differ()
    ensures
        "in"@ != "out"@,
        "yes"@ != "no"@,
        "yes"@ != "false"@,
        "true"@ != "no"@,
        "true"@ != "false"@,
        "iso"@ != "control"@ && "iso"@ != "ctrl"@ && "iso"@ != "bulk"@ && "iso"@ != "interrupt"@ && "iso"@ != "int"@,
        "bulk"@ != "control"@ && "bulk"@ != "ctrl"@ && "bulk"@ != "interrupt"@ && "bulk"@ != "int"@,
        "control"@ != "interrupt"@ && "control"@ != "int"@,
        "ctrl"@ != "interrupt"@ && "ctrl"@ != "int"@,
{
    reveal_strlit("in");
    reveal_strlit("out");
    reveal_strlit("yes");
    reveal_strlit("no");
    reveal_strlit("true");
    reveal_strlit("false");
    reveal_strlit("iso");
    reveal_strlit("control");
    reveal_strlit("ctrl");
    reveal_strlit("bulk");
    reveal_strlit("interrupt");
    reveal_strlit("int");
    assert("in"@.len() == 2 && "out"@.len() == 3 && "yes"@.len() == 3 && "no"@.len() == 2 && "true"@.len() == 4
        && "false"@.len() == 5);
    assert("iso"@.len() == 3 && "control"@.len() == 7 && "ctrl"@.len() == 4 && "bulk"@.len() == 4 && "interrupt"@.len()
        == 9 && "int"@.len() == 3);
    assert("iso"@[1] == 's' && "int"@[1] == 'n');
    assert("bulk"@[0] == 'b' && "ctrl"@[0] == 'c');
}

proof fn lemma_number(value: Seq<char>, n: u8)
    ensures
        number_is(value, n) <==> read_uint(value, 10, 255) == Some(n as nat),
{
    let digits = if value.len() > 0 && value[0] == '+' {
        value.skip(1)
    } else {
        value
    };
    if all_digits(digits) {
        law_digits_read_at_their_worth(digits, 255);
        if value.len() > 0 && value[0] == '+' {
            assert(value =~= seq!['+'] + digits);
        }
    } else if read_uint(value, 10, 255) is Some {
        assert forall|i: int| 0 <= i < digits.len() implies '0' <= #[trigger] digits[i] <= '9' by {
            let at = if value[0] == '+' {
                i + 1
            } else {
                i
            };
            assert(digits[i] == value[at]);
            law_only_digits_are_read(value, 10, 255, at);
        }
    }
}

proof fn lemma_name(name: Option<String>, value: Seq<char>)
    ensures
        name_holds(name, value) <==> super::name_hit(name, lowercased(value)),
{
    if let Some(s) = name {
        let hay = lowercased(s@);
        let needle = lowercased(value);
        if name_holds(name, value) {
            let at = choose|at: int|
                0 <= at <= hay.len() - needle.len() && #[trigger] hay.subrange(at, at + needle.len()) == needle;
            assert(occurs_at(hay, needle, at));
        }
        if occurs(hay, needle) {
            let at = choose|at: int| occurs_at(hay, needle, at);
            assert(hay.subrange(at, at + needle.len()) == needle);
        }
    }
}

proof fn lemma_key(w: Wanted, key: Seq<char>, value: Seq<char>, v: Wanted, d: UsbDevice)
    requires
        with_key(w, key, value) == Ok::<Wanted, FilterFault>(v),
    ensures
        is_key(key),
        device_wanted(v, d) <==> device_wanted(w, d) && asked_of_device(key, value, d),
{
    lemma_keys_differ(key);
    lemma_words_differ();
    lemma_number(value, d.bus_id);
    lemma_number(value, d.device_id);
    lemma_name(d.vendor, value);
    lemma_name(d.product, value);
    if key == "id"@ {
        let k = first_index(value, ':');
        lemma_first_index(value, ':');
        assert(value.take(k as int).len() == 4);
        assert(value.skip(k as int + 1).len() == 4);
        assert(value[4] == ':');
    }
}

proof fn lemma_key_traffic(
    w: Wanted,
    key: Seq<char>,
    value: Seq<char>,
    v: Wanted,
    d: UsbDevice,
    endpoint: u8,
    dir_in: bool,
    transfer: Option<TransferType>,
)
    requires
        with_key(w, key, value) == Ok::<Wanted, FilterFault>(v),
    ensures
        traffic_wanted(v, d, endpoint, dir_in, transfer) <==> traffic_wanted(w, d, endpoint, dir_in, transfer)
            && asked_of_device(key, value, d) && asked_of_traffic(key, value, endpoint, dir_in, transfer),
{
    lemma_key(w, key, value, v, d);
    lemma_keys_differ(key);
    lemma_words_differ();
    lemma_number(value, endpoint);
}

proof fn lemma_term_splits(key: Seq<char>, value: Seq<char>)
    requires
        !key.contains('='),
    ensures
        ({
            let pair = term(key, value);
            let k = first_index(pair, '=') as int;
            &&& k < pair.len()
            &&& pair.take(k) == key
            &&& pair.skip(k + 1) == value
        }),
{
    let pair = term(key, value);
    assert forall|j: int| 0 <= j < key.len() implies pair[j] != '=' by {
        assert(pair[j] == key[j]);
    }
    lemma_first_index_is(pair, '=', key.len() as int);
    assert(pair.take(key.len() as int) =~= key);
    assert(pair.skip(key.len() as int + 1) =~= value);
}

proof fn lemma_pair_is_a_term(pair: Seq<char>) -> (t: (Seq<char>, Seq<char>))
    requires
        first_index(pair, '=') < pair.len(),
    ensures
        pair == term(t.0, t.1),
        !t.0.contains('='),
        t.0 == pair.take(first_index(pair, '=') as int),
        t.1 == pair.skip(first_index(pair, '=') as int + 1),
{
    let k = first_index(pair, '=') as int;
    lemma_first_index(pair, '=');
    let key = pair.take(k);
    let value = pair.skip(k + 1);
    assert forall|j: int| 0 <= j < key.len() implies key[j] != '=' by {
        assert(key[j] == pair[j]);
    }
    assert(pair =~= term(key, value));
    (key, value)
}

/// Whether every term among `pairs` holds of a device.
spec fn all_asked(pairs: Seq<Seq<char>>, d: UsbDevice) -> bool {
    forall|i: int, key: Seq<char>, value: Seq<char>|
        0 <= i < pairs.len() && #[trigger] pairs[i] == #[trigger] term(key, value) && !key.contains('=')
            ==> asked_of_device(key, value, d)
}

/// Whether every term among `pairs` holds of traffic.
spec fn all_asked_of_traffic(
    pairs: Seq<Seq<char>>,
    d: UsbDevice,
    endpoint: u8,
    dir_in: bool,
    transfer: Option<TransferType>,
) -> bool {
    forall|i: int, key: Seq<char>, value: Seq<char>|
        0 <= i < pairs.len() && #[trigger] pairs[i] == #[trigger] term(key, value) && !key.contains('=')
            ==> asked_of_device(key, value, d) && asked_of_traffic(key, value, endpoint, dir_in, transfer)
}

proof fn lemma_terms(
    pairs: Seq<Seq<char>>,
    w: Wanted,
    d: UsbDevice,
    endpoint: u8,
    dir_in: bool,
    transfer: Option<TransferType>,
)
    requires
        terms_wanted(pairs) == Ok::<Wanted, FilterFault>(w),
    ensures
        device_wanted(w, d) <==> all_asked(pairs, d),
        traffic_wanted(w, d, endpoint, dir_in, transfer) <==> all_asked_of_traffic(
            pairs,
            d,
            endpoint,
            dir_in,
            transfer,
        ),
        forall|i: int| 0 <= i < pairs.len() ==> first_index(#[trigger] pairs[i], '=') < pairs[i].len(),
        forall|i: int|
            0 <= i < pairs.len() ==> is_key((#[trigger] pairs[i]).take(first_index(pairs[i], '=') as int)),
    decreases pairs.len(),
{
    if pairs.len() > 0 {
        let front = pairs.drop_last();
        let last = pairs.last();
        let before = terms_wanted(front)->Ok_0;
        lemma_terms(front, before, d, endpoint, dir_in, transfer);
        let (key, value) = lemma_pair_is_a_term(last);
        lemma_key_traffic(before, key, value, w, d, endpoint, dir_in, transfer);
        lemma_key(before, key, value, w, d);
        assert forall|i: int, k: Seq<char>, v: Seq<char>|
            0 <= i < pairs.len() && #[trigger] pairs[i] == #[trigger] term(k, v) && !k.contains('=') implies (i
            == front.len() && k == key && v == value) || (i < front.len() && front[i] == term(k, v)) by {
            if i == front.len() {
                lemma_term_splits(k, v);
            } else {
                assert(front[i] == pairs[i]);
            }
        }
        if all_asked(pairs, d) {
            assert(pairs[pairs.len() - 1] == term(key, value));
            assert forall|i: int, k: Seq<char>, v: Seq<char>|
                0 <= i < front.len() && #[trigger] front[i] == #[trigger] term(k, v) && !k.contains('=')
                    implies asked_of_device(k, v, d) by {
                assert(pairs[i] == term(k, v));
            }
        }
        if all_asked_of_traffic(pairs, d, endpoint, dir_in, transfer) {
            assert(pairs[pairs.len() - 1] == term(key, value));
            assert forall|i: int, k: Seq<char>, v: Seq<char>|
                0 <= i < front.len() && #[trigger] front[i] == #[trigger] term(k, v) && !k.contains('=')
                    implies asked_of_device(k, v, d) && asked_of_traffic(k, v, endpoint, dir_in, transfer) by {
                assert(pairs[i] == term(k, v));
            }
        }
        assert forall|i: int| 0 <= i < pairs.len() implies first_index(#[trigger] pairs[i], '=') < pairs[i].len()
            && is_key(pairs[i].take(first_index(pairs[i], '=') as int)) by {
            if i < front.len() {
                assert(front[i] == pairs[i]);
            }
        }
    }
}

proof fn lemma_piece_is_split_off(raw: Seq<char>, before: Seq<char>, piece: Seq<char>, after: Seq<char>) -> (i: int)
    requires
        stands(raw, before, piece, after),
    ensures
        0 <= i < split_on(raw, ',').len(),
        split_on(raw, ',')[i] == piece,
    decreases before.len(),
{
    if before.len() == 0 {
        assert(raw =~= piece + after);
        if after.len() == 0 {
            assert(raw =~= piece);
            lemma_split_single(piece, ',');
        } else {
            assert(raw =~= piece.push(',') + after.skip(1));
            lemma_split_front(piece, after.skip(1), ',');
        }
        0
    } else {
        let k = first_index(before, ',') as int;
        lemma_first_index(before, ',');
        if k >= before.len() {
            assert(before[before.len() - 1] != ',');
        }
        let a = before.take(k);
        let rest = before.skip(k + 1);
        assert(!a.contains(',')) by {
            assert forall|j: int| 0 <= j < a.len() implies a[j] != ',' by {
                assert(a[j] == before[j]);
            }
        }
        assert(raw =~= a.push(',') + (rest + piece + after));
        lemma_split_front(a, rest + piece + after, ',');
        if rest.len() > 0 {
            assert(rest.last() == before.last());
        }
        let i = lemma_piece_is_split_off(rest + piece + after, rest, piece, after);
        i + 1
    }
}

proof fn lemma_split_off_is_a_piece(raw: Seq<char>, i: int) -> (around: (Seq<char>, Seq<char>))
    requires
        0 <= i < split_on(raw, ',').len(),
    ensures
        stands(raw, around.0, split_on(raw, ',')[i], around.1),
    decreases raw.len(),
{
    let k = first_index(raw, ',') as int;
    lemma_first_index(raw, ',');
    let empty = Seq::<char>::empty();
    if k >= raw.len() {
        assert(!raw.contains(','));
        assert(raw =~= empty + raw + empty);
        (empty, empty)
    } else {
        let a = raw.take(k);
        let rest = raw.skip(k + 1);
        if i == 0 {
            assert(!a.contains(',')) by {
                assert forall|j: int| 0 <= j < a.len() implies a[j] != ',' by {
                    assert(a[j] == raw[j]);
                }
            }
            assert(raw =~= empty + a + raw.skip(k));
            (empty, raw.skip(k))
        } else {
            assert(split_on(raw, ',')[i] == split_on(rest, ',')[i - 1]);
            let inner = lemma_split_off_is_a_piece(rest, i - 1);
            let before = a.push(',') + inner.0;
            let piece = split_on(rest, ',')[i - 1];
            assert(raw =~= a.push(',') + rest);
            assert(rest == inner.0 + piece + inner.1);
            assert(raw =~= before + piece + inner.1);
            (before, inner.1)
        }
    }
}

/// An expression lets a device through exactly when every term of its text
/// holds of the device: `bus=` and `dev=` name its numbers, `vid=`, `pid=`
/// and `id=` its ids, `name=` stands in its vendor or product, and
/// `internal=` says whether it belongs to the machine.
pub proof fn law_a_device_passes_when_every_term_holds(raw: Seq<char>, w: Wanted, d: UsbDevice)
    requires
        expression(raw) == Ok::<Wanted, FilterFault>(w),
    ensures
        device_wanted(w, d) <==> forall|key: Seq<char>, value: Seq<char>| #[trigger]
            has_term(raw, key, value) ==> asked_of_device(key, value, d),
{
    let pairs = split_on(raw, ',');
    lemma_terms(pairs, w, d, 0, false, None);
    if device_wanted(w, d) {
        assert forall|key: Seq<char>, value: Seq<char>| #[trigger] has_term(raw, key, value) implies asked_of_device(
            key,
            value,
            d,
        ) by {
            let (before, after) = choose|before: Seq<char>, after: Seq<char>| #[trigger]
                stands(raw, before, term(key, value), after);
            let i = lemma_piece_is_split_off(raw, before, term(key, value), after);
            assert(pairs[i] == term(key, value));
        }
    }
    if forall|key: Seq<char>, value: Seq<char>| #[trigger]
        has_term(raw, key, value) ==> asked_of_device(key, value, d) {
        assert forall|i: int, key: Seq<char>, value: Seq<char>|
            0 <= i < pairs.len() && #[trigger] pairs[i] == #[trigger] term(key, value) && !key.contains('=')
                implies asked_of_device(key, value, d) by {
            let around = lemma_split_off_is_a_piece(raw, i);
            assert(stands(raw, around.0, term(key, value), around.1));
            assert(has_term(raw, key, value));
        }
    }
}

/// An expression lets traffic through exactly when every term of its text
/// holds of it: those on the device, and `ep=`, `dir=` and `type=` of the
/// traffic itself.
pub proof fn law_traffic_passes_when_every_term_holds(
    raw: Seq<char>,
    w: Wanted,
    d: UsbDevice,
    endpoint: u8,
    dir_in: bool,
    transfer: Option<TransferType>,
)
    requires
        expression(raw) == Ok::<Wanted, FilterFault>(w),
    ensures
        traffic_wanted(w, d, endpoint, dir_in, transfer) <==> forall|key: Seq<char>, value: Seq<char>| #[trigger]
            has_term(raw, key, value) ==> asked_of_device(key, value, d) && asked_of_traffic(
                key,
                value,
                endpoint,
                dir_in,
                transfer,
            ),
{
    let pairs = split_on(raw, ',');
    lemma_terms(pairs, w, d, endpoint, dir_in, transfer);
    if traffic_wanted(w, d, endpoint, dir_in, transfer) {
        assert forall|key: Seq<char>, value: Seq<char>| #[trigger] has_term(raw, key, value) implies asked_of_device(
            key,
            value,
            d,
        ) && asked_of_traffic(key, value, endpoint, dir_in, transfer) by {
            let (before, after) = choose|before: Seq<char>, after: Seq<char>| #[trigger]
                stands(raw, before, term(key, value), after);
            let i = lemma_piece_is_split_off(raw, before, term(key, value), after);
            assert(pairs[i] == term(key, value));
        }
    }
    if forall|key: Seq<char>, value: Seq<char>| #[trigger]
        has_term(raw, key, value) ==> asked_of_device(key, value, d) && asked_of_traffic(
            key,
            value,
            endpoint,
            dir_in,
            transfer,
        ) {
        assert forall|i: int, key: Seq<char>, value: Seq<char>|
            0 <= i < pairs.len() && #[trigger] pairs[i] == #[trigger] term(key, value) && !key.contains('=')
                implies asked_of_device(key, value, d) && asked_of_traffic(key, value, endpoint, dir_in, transfer) by {
            let around = lemma_split_off_is_a_piece(raw, i);
            assert(stands(raw, around.0, term(key, value), around.1));
            assert(has_term(raw, key, value));
        }
    }
}

/// An accepted expression is made of terms with known keys: a piece without
/// `=`, or with a key that is not known, is refused.
pub proof fn law_an_accepted_expression_is_made_of_terms(raw: Seq<char>, piece: Seq<char>)
    requires
        expression(raw) is Ok,
        has_piece(raw, piece),
    ensures
        exists|key: Seq<char>, value: Seq<char>| piece == #[trigger] term(key, value) && is_key(key),
{
    let (before, after) = choose|before: Seq<char>, after: Seq<char>| #[trigger] stands(raw, before, piece, after);
    let i = lemma_piece_is_split_off(raw, before, piece, after);
    let pairs = split_on(raw, ',');
    let w = expression(raw)->Ok_0;
    lemma_terms(pairs, w, arbitrary(), 0, false, None);
    assert(pairs[i] == piece);
    let (key, value) = lemma_pair_is_a_term(piece);
    assert(is_key(key));
}

/// Whether a term with a key is written in `raw`.
pub open spec fn is_set(raw: Seq<char>, key: Seq<char>) -> bool {
    exists|value: Seq<char>| #[trigger] has_term(raw, key, value)
}

/// Whether a value is one that a key takes.
pub open spec fn is_good(key: Seq<char>, value: Seq<char>) -> bool {
    ||| (key == "bus"@ || key == "dev"@) && exists|n: u8| #[trigger] number_is(value, n)
    ||| (key == "vid"@ || key == "pid"@) && exists|n: u16| #[trigger] id_is(value, Some(n))
    ||| key == "id"@ && value.len() == 9 && value[4] == ':' && (exists|n: u16| #[trigger]
        id_is(value.take(4), Some(n))) && (exists|n: u16| #[trigger] id_is(value.skip(5), Some(n)))
    ||| key == "name"@
    ||| key == "ep"@ && exists|n: u8| n <= 15 && #[trigger] number_is(value, n)
    ||| key == "dir"@ && (value == "in"@ || value == "out"@)
    ||| key == "type"@ && (value == "control"@ || value == "ctrl"@ || value == "iso"@ || value == "bulk"@ || value
        == "interrupt"@ || value == "int"@)
    ||| key == "internal"@ && (value == "yes"@ || value == "true"@ || value == "no"@ || value == "false"@)
}

/// Whether a term with the key would ask again what `raw` asks already.
pub open spec fn is_taken(raw: Seq<char>, key: Seq<char>) -> bool {
    ||| is_set(raw, key)
    ||| (key == "vid"@ || key == "pid"@) && is_set(raw, "id"@)
    ||| key == "id"@ && (is_set(raw, "vid"@) || is_set(raw, "pid"@))
}

/// The key of a pair.
spec fn key_of(pair: Seq<char>) -> Seq<char> {
    pair.take(first_index(pair, '=') as int)
}

/// Whether a key is set among `pairs`.
spec fn sets(pairs: Seq<Seq<char>>, key: Seq<char>) -> bool {
    exists|i: int| 0 <= i < pairs.len() && key_of(#[trigger] pairs[i]) == key
}

proof fn lemma_sets(pairs: Seq<Seq<char>>, key: Seq<char>)
    requires
        pairs.len() > 0,
    ensures
        sets(pairs, key) <==> sets(pairs.drop_last(), key) || key_of(pairs.last()) == key,
{
    if sets(pairs, key) {
        let i = choose|i: int| 0 <= i < pairs.len() && key_of(#[trigger] pairs[i]) == key;
        if i < pairs.len() - 1 {
            assert(pairs.drop_last()[i] == pairs[i]);
        }
    }
    if sets(pairs.drop_last(), key) {
        let i = choose|i: int| 0 <= i < pairs.drop_last().len() && key_of(#[trigger] pairs.drop_last()[i]) == key;
        assert(pairs[i] == pairs.drop_last()[i]);
    }
    if key_of(pairs.last()) == key {
        assert(key_of(pairs[pairs.len() - 1]) == key);
    }
}

proof fn lemma_slots(pairs: Seq<Seq<char>>, w: Wanted)
    requires
        terms_wanted(pairs) == Ok::<Wanted, FilterFault>(w),
    ensures
        w.bus is Some <==> sets(pairs, "bus"@),
        w.dev is Some <==> sets(pairs, "dev"@),
        w.vid is Some <==> sets(pairs, "vid"@) || sets(pairs, "id"@),
        w.pid is Some <==> sets(pairs, "pid"@) || sets(pairs, "id"@),
        w.name is Some <==> sets(pairs, "name"@),
        w.ep is Some <==> sets(pairs, "ep"@),
        w.dir_in is Some <==> sets(pairs, "dir"@),
        w.transfer is Some <==> sets(pairs, "type"@),
        w.internal is Some <==> sets(pairs, "internal"@),
    decreases pairs.len(),
{
    if pairs.len() > 0 {
        lemma_slots(pairs.drop_last(), terms_wanted(pairs.drop_last())->Ok_0);
        lemma_keys_differ(key_of(pairs.last()));
        lemma_sets(pairs, "bus"@);
        lemma_sets(pairs, "dev"@);
        lemma_sets(pairs, "vid"@);
        lemma_sets(pairs, "pid"@);
        lemma_sets(pairs, "id"@);
        lemma_sets(pairs, "name"@);
        lemma_sets(pairs, "ep"@);
        lemma_sets(pairs, "dir"@);
        lemma_sets(pairs, "type"@);
        lemma_sets(pairs, "internal"@);
    }
}

proof fn lemma_is_set(raw: Seq<char>, key: Seq<char>)
    requires
        expression(raw) is Ok,
    ensures
        is_set(raw, key) <==> sets(split_on(raw, ','), key),
{
    let pairs = split_on(raw, ',');
    lemma_terms(pairs, expression(raw)->Ok_0, arbitrary(), 0, false, None);
    if is_set(raw, key) {
        let value = choose|value: Seq<char>| #[trigger] has_term(raw, key, value);
        let (before, after) = choose|before: Seq<char>, after: Seq<char>| #[trigger]
            stands(raw, before, term(key, value), after);
        let i = lemma_piece_is_split_off(raw, before, term(key, value), after);
        lemma_term_splits(key, value);
        assert(key_of(pairs[i]) == key);
    }
    if sets(pairs, key) {
        let i = choose|i: int| 0 <= i < pairs.len() && key_of(#[trigger] pairs[i]) == key;
        let (k, value) = lemma_pair_is_a_term(pairs[i]);
        let around = lemma_split_off_is_a_piece(raw, i);
        assert(stands(raw, around.0, term(key, value), around.1));
        assert(has_term(raw, key, value));
    }
}

proof fn lemma_good(w: Wanted, key: Seq<char>, value: Seq<char>)
    ensures
        with_key(w, key, value) is Ok <==> is_good(key, value) && (key == "bus"@ ==> w.bus is None) && (key == "dev"@
            ==> w.dev is None) && (key == "vid"@ ==> w.vid is None) && (key == "pid"@ ==> w.pid is None) && (key == "id"@
            ==> w.vid is None && w.pid is None) && (key == "name"@ ==> w.name is None) && (key == "ep"@ ==> w.ep is None)
            && (key == "dir"@ ==> w.dir_in is None) && (key == "type"@ ==> w.transfer is None) && (key == "internal"@
            ==> w.internal is None),
{
    lemma_keys_differ(key);
    lemma_words_differ();
    assert((exists|n: u8| #[trigger] number_is(value, n)) <==> read_uint(value, 10, 255) is Some) by {
        if read_uint(value, 10, 255) is Some {
            lemma_number(value, read_uint(value, 10, 255)->0 as u8);
            assert(number_is(value, read_uint(value, 10, 255)->0 as u8));
        }
        if exists|n: u8| #[trigger] number_is(value, n) {
            let n = choose|n: u8| #[trigger] number_is(value, n);
            lemma_number(value, n);
        }
    }
    assert((exists|n: u8| n <= 15 && #[trigger] number_is(value, n)) <==> (read_uint(value, 10, 255) is Some
        && read_uint(value, 10, 255)->0 <= 15)) by {
        if read_uint(value, 10, 255) is Some && read_uint(value, 10, 255)->0 <= 15 {
            lemma_number(value, read_uint(value, 10, 255)->0 as u8);
            assert(number_is(value, read_uint(value, 10, 255)->0 as u8));
        }
        if exists|n: u8| n <= 15 && #[trigger] number_is(value, n) {
            let n = choose|n: u8| n <= 15 && #[trigger] number_is(value, n);
            lemma_number(value, n);
        }
    }
    lemma_good_id(value);
    lemma_good_id(value.take(4));
    lemma_good_id(value.skip(5));
    if key == "id"@ {
        let k = first_index(value, ':') as int;
        lemma_first_index(value, ':');
        if is_good(key, value) {
            let v = value.take(4);
            assert forall|j: int| 0 <= j < 4 implies value[j] != ':' by {
                law_only_digits_are_read(v, 16, 65535, j);
                assert(v[j] == value[j]);
            }
            lemma_first_index_is(value, ':', 4);
        }
        if k < value.len() && value.take(k).len() == 4 && value.skip(k + 1).len() == 4 {
            assert(value.len() == 9);
        }
    }
}

proof fn lemma_good_id(value: Seq<char>)
    ensures
        (exists|n: u16| #[trigger] id_is(value, Some(n))) <==> value.len() == 4 && read_uint(value, 16, 65535) is Some,
{
    if value.len() == 4 && read_uint(value, 16, 65535) is Some {
        assert(id_is(value, Some(read_uint(value, 16, 65535)->0 as u16)));
    }
}

/// A single term is accepted exactly when its key is known and takes its
/// value.
pub proof fn law_a_term_is_accepted_when_its_value_is_good(key: Seq<char>, value: Seq<char>)
    requires
        !key.contains('='),
        !term(key, value).contains(','),
    ensures
        expression(term(key, value)) is Ok <==> is_good(key, value),
{
    lemma_split_single(term(key, value), ',');
    lemma_term_splits(key, value);
    let pairs = seq![term(key, value)];
    assert(pairs.drop_last() =~= Seq::<Seq<char>>::empty());
    assert(terms_wanted(pairs.drop_last()) == Ok::<Wanted, FilterFault>(nothing_wanted()));
    lemma_good(nothing_wanted(), key, value);
}

/// One more term behind an accepted expression is accepted exactly when its
/// key takes its value and the expression does not ask for that already: a
/// key stands once, and `id=` stands for `vid=` and `pid=` together.
pub proof fn law_a_key_stands_once(raw: Seq<char>, key: Seq<char>, value: Seq<char>)
    requires
        expression(raw) is Ok,
        !key.contains('='),
        !term(key, value).contains(','),
    ensures
        expression(raw.push(',') + term(key, value)) is Ok <==> is_good(key, value) && !is_taken(raw, key),
{
    let pairs = split_on(raw, ',');
    let w = expression(raw)->Ok_0;
    lemma_split_back(raw, term(key, value));
    assert((pairs.push(term(key, value))).drop_last() =~= pairs);
    lemma_term_splits(key, value);
    lemma_good(w, key, value);
    lemma_slots(pairs, w);
    lemma_is_set(raw, key);
    lemma_is_set(raw, "id"@);
    lemma_is_set(raw, "vid"@);
    lemma_is_set(raw, "pid"@);
    lemma_keys_differ(key);
}

proof fn lemma_split_back(raw: Seq<char>, piece: Seq<char>)
    requires
        !piece.contains(','),
    ensures
        split_on(raw.push(',') + piece, ',') == split_on(raw, ',').push(piece),
    decreases raw.len(),
{
    let k = first_index(raw, ',') as int;
    lemma_first_index(raw, ',');
    if k >= raw.len() {
        assert(!raw.contains(','));
        lemma_split_single(piece, ',');
        lemma_split_single(raw, ',');
        lemma_split_front(raw, piece, ',');
        assert(seq![raw] + seq![piece] =~= seq![raw].push(piece));
    } else {
        let a = raw.take(k);
        let rest = raw.skip(k + 1);
        assert(!a.contains(',')) by {
            assert forall|j: int| 0 <= j < a.len() implies a[j] != ',' by {
                assert(a[j] == raw[j]);
            }
        }
        lemma_split_back(rest, piece);
        assert(raw.push(',') + piece =~= a.push(',') + (rest.push(',') + piece));
        lemma_split_front(a, rest.push(',') + piece, ',');
        assert(seq![a] + split_on(rest, ',').push(piece) =~= (seq![a] + split_on(rest, ',')).push(piece));
    }
}

/// A device that passes stops passing when a field that a term names, and
/// nothing else, takes another value.
pub proof fn law_a_changed_field_no_longer_passes(raw: Seq<char>, w: Wanted, d: UsbDevice, e: UsbDevice)
    requires
        expression(raw) == Ok::<Wanted, FilterFault>(w),
        device_wanted(w, d),
    ensures
        is_set(raw, "bus"@) && e.bus_id != d.bus_id ==> !device_wanted(w, e),
        is_set(raw, "dev"@) && e.device_id != d.device_id ==> !device_wanted(w, e),
        is_set(raw, "vid"@) && e.vendor_id != d.vendor_id ==> !device_wanted(w, e),
        is_set(raw, "pid"@) && e.product_id != d.product_id ==> !device_wanted(w, e),
        is_set(raw, "id"@) && (e.vendor_id != d.vendor_id || e.product_id != d.product_id) ==> !device_wanted(w, e),
        is_set(raw, "internal"@) && e.is_internal != d.is_internal ==> !device_wanted(w, e),
        is_set(raw, "name"@) && e.vendor is None && e.product is None ==> !device_wanted(w, e),
{
    lemma_is_set(raw, "bus"@);
    lemma_is_set(raw, "dev"@);
    lemma_is_set(raw, "vid"@);
    lemma_is_set(raw, "pid"@);
    lemma_is_set(raw, "id"@);
    lemma_is_set(raw, "internal"@);
    lemma_is_set(raw, "name"@);
    lemma_slots(split_on(raw, ','), w);
}

/// Every argument is an expression of its own, and a set lets a device
/// through when one of them does, or when there is none; likewise for
/// traffic.
pub proof fn law_arguments_are_alternatives(
    args: Seq<Seq<char>>,
    set: Seq<Wanted>,
    d: UsbDevice,
    endpoint: u8,
    dir_in: bool,
    transfer: Option<TransferType>,
)
    requires
        expressions(args) == Ok::<Seq<Wanted>, FilterFault>(set),
    ensures
        set.len() == args.len(),
        forall|i: int|
            0 <= i < args.len() ==> expression(#[trigger] args[i]) == Ok::<Wanted, FilterFault>(set[i]),
        args.len() == 0 ==> set_wants_device(set, d) && set_wants_traffic(set, d, endpoint, dir_in, transfer),
        args.len() > 0 ==> (set_wants_device(set, d) <==> exists|i: int|
            0 <= i < args.len() && #[trigger] device_wanted(set[i], d)),
        args.len() > 0 ==> (set_wants_traffic(set, d, endpoint, dir_in, transfer) <==> exists|i: int|
            0 <= i < args.len() && #[trigger] traffic_wanted(set[i], d, endpoint, dir_in, transfer)),
    decreases args.len(),
{
    if args.len() > 0 {
        let front = expressions(args.drop_last())->Ok_0;
        law_arguments_are_alternatives(args.drop_last(), front, d, endpoint, dir_in, transfer);
        assert forall|i: int| 0 <= i < args.len() implies expression(#[trigger] args[i]) == Ok::<Wanted, FilterFault>(
            set[i],
        ) by {
            if i < args.len() - 1 {
                assert(args.drop_last()[i] == args[i]);
                assert(set[i] == front[i]);
            }
        }
        if exists|i: int| 0 <= i < args.len() && #[trigger] device_wanted(set[i], d) {
            let i = choose|i: int| 0 <= i < args.len() && #[trigger] device_wanted(set[i], d);
            assert(device_wanted(set[i], d));
        }
        if exists|i: int| 0 <= i < args.len() && #[trigger] traffic_wanted(set[i], d, endpoint, dir_in, transfer) {
            let i = choose|i: int|
                0 <= i < args.len() && #[trigger] traffic_wanted(set[i], d, endpoint, dir_in, transfer);
            assert(traffic_wanted(set[i], d, endpoint, dir_in, transfer));
        }
    }
}

/// Why a single term is refused: one without `=` is no term, a key that is
/// not known is named, and a value that its key does not take is named with
/// its key.
pub proof fn law_a_refused_term_is_named(key: Seq<char>, value: Seq<char>, piece: Seq<char>)
    requires
        !key.contains('='),
        !term(key, value).contains(','),
        !is_good(key, value),
        !piece.contains(','),
        !piece.contains('='),
    ensures
        expression(piece) == Err::<Wanted, FilterFault>(FilterFault::NotKeyValue { pair: piece }),
        expression(term(key, value)) == Err::<Wanted, FilterFault>(
            if !is_key(key) {
                FilterFault::UnknownKey { key }
            } else if key == "dir"@ {
                FilterFault::BadDirection { value }
            } else if key == "type"@ {
                FilterFault::BadType { value }
            } else if key == "internal"@ {
                FilterFault::BadInternal { value }
            } else if key == "vid"@ || key == "pid"@ {
                FilterFault::NotHex { key, value }
            } else if key == "id"@ && !value.contains(':') {
                FilterFault::NotId { value }
            } else if key == "id"@ {
                (expression(term(key, value)))->Err_0
            } else if key == "ep"@ && read_uint(value, 10, 255) is Some {
                FilterFault::EndpointRange { endpoint: (read_uint(value, 10, 255)->0) as u8 }
            } else {
                FilterFault::NotNumber { key, value }
            },
        ),
{
    lemma_split_single(piece, ',');
    lemma_first_index_is(piece, '=', piece.len() as int);
    let one = seq![piece];
    assert(one.drop_last() =~= Seq::<Seq<char>>::empty());
    assert(terms_wanted(one.drop_last()) == Ok::<Wanted, FilterFault>(nothing_wanted()));
    assert(terms_wanted(one) == with_term(nothing_wanted(), piece));
    lemma_split_single(term(key, value), ',');
    lemma_term_splits(key, value);
    let pairs = seq![term(key, value)];
    assert(pairs.drop_last() =~= Seq::<Seq<char>>::empty());
    assert(terms_wanted(pairs) == with_term(nothing_wanted(), term(key, value)));
    lemma_good(nothing_wanted(), key, value);
    lemma_keys_differ(key);
    lemma_first_index(value, ':');
    if key == "id"@ && !value.contains(':') {
        if first_index(value, ':') < value.len() {
            assert(value[first_index(value, ':') as int] == ':');
        }
    }
}

} // verus!
