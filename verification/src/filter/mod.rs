//! `--filter` expressions: KEY=VALUE pairs joined by commas AND together,
//! repeated flags OR together, and an empty set matches everything.

pub mod laws;

use vstd::prelude::*;

use crate::device::UsbDevice;
use crate::number::{decimal, parse_uint, read_uint, to_decimal};
use crate::text::{
    char_views, contains, extend, extend_str, find_char, first_index, from_chars, occurs, slice, split, split_on,
    str_eq, to_chars,
};
use crate::usbmon::{TransferType, UsbPacket};

verus! {

/// What `str::to_lowercase` makes of a string.
pub uninterp spec fn lowercased(s: Seq<char>) -> Seq<char>;

/// `str::to_lowercase`: the Unicode lower case of the whole string, which is
/// a function of its characters. Nothing more is claimed of it.
#[verifier::external_body]
pub(crate) fn lowercase(s: &str) -> (r: String)
    ensures
        r@ == lowercased(s@),
{
    s.to_lowercase()
}

/// Why an expression was refused.
#[derive(Debug)]
pub enum FilterError {
    NotKeyValue { pair: String },
    NotId { value: String },
    EndpointRange { endpoint: u8 },
    BadDirection { value: String },
    BadType { value: String },
    BadInternal { value: String },
    UnknownKey { key: String },
    Twice { key: String },
    NotNumber { key: String, value: String },
    NotHex { key: String, value: String },
}

/// What a `FilterError` says.
pub enum FilterFault {
    NotKeyValue { pair: Seq<char> },
    NotId { value: Seq<char> },
    EndpointRange { endpoint: u8 },
    BadDirection { value: Seq<char> },
    BadType { value: Seq<char> },
    BadInternal { value: Seq<char> },
    UnknownKey { key: Seq<char> },
    Twice { key: Seq<char> },
    NotNumber { key: Seq<char>, value: Seq<char> },
    NotHex { key: Seq<char>, value: Seq<char> },
}

impl View for FilterError {
    type V = FilterFault;

    open spec fn view(&self) -> FilterFault {
        match self {
            FilterError::NotKeyValue { pair } => FilterFault::NotKeyValue { pair: pair@ },
            FilterError::NotId { value } => FilterFault::NotId { value: value@ },
            FilterError::EndpointRange { endpoint } => FilterFault::EndpointRange { endpoint: *endpoint },
            FilterError::BadDirection { value } => FilterFault::BadDirection { value: value@ },
            FilterError::BadType { value } => FilterFault::BadType { value: value@ },
            FilterError::BadInternal { value } => FilterFault::BadInternal { value: value@ },
            FilterError::UnknownKey { key } => FilterFault::UnknownKey { key: key@ },
            FilterError::Twice { key } => FilterFault::Twice { key: key@ },
            FilterError::NotNumber { key, value } => FilterFault::NotNumber { key: key@, value: value@ },
            FilterError::NotHex { key, value } => FilterFault::NotHex { key: key@, value: value@ },
        }
    }
}

impl FilterFault {
    /// The sentence shown to the user.
    pub open spec fn text(self) -> Seq<char> {
        match self {
            FilterFault::NotKeyValue { pair } => "filter term '"@ + pair + "' is not KEY=VALUE"@,
            FilterFault::NotId { value } => "filter id '"@ + value + "' is not VID:PID"@,
            FilterFault::EndpointRange { endpoint } => "filter ep is 0 through 15, got "@ + decimal(
                endpoint as nat,
            ),
            FilterFault::BadDirection { value } => "filter dir is 'in' or 'out', got '"@ + value + "'"@,
            FilterFault::BadType { value } => "filter type is control, iso, bulk, or interrupt, got '"@ + value
                + "'"@,
            FilterFault::BadInternal { value } => "filter internal is 'yes' or 'no', got '"@ + value + "'"@,
            FilterFault::UnknownKey { key } => "unknown filter key '"@ + key + "'"@,
            FilterFault::Twice { key } => "filter key '"@ + key + "' appears twice in one expression"@,
            FilterFault::NotNumber { key, value } => "filter "@ + key + " '"@ + value
                + "' is not a number 0 through 255"@,
            FilterFault::NotHex { key, value } => "filter "@ + key + " '"@ + value + "' is not 4 hex digits"@,
        }
    }
}

fn quoted(before: &str, value: &str, after: &str) -> (r: String)
    ensures
        r@ == before@ + value@ + after@,
{
    let mut r = to_chars(before);
    extend_str(&mut r, value);
    extend_str(&mut r, after);
    from_chars(&r)
}

fn quoted_key(key: &str, value: &str, after: &str) -> (r: String)
    ensures
        r@ == "filter "@ + key@ + " '"@ + value@ + after@,
{
    let mut r = to_chars("filter ");
    extend_str(&mut r, key);
    extend_str(&mut r, " '");
    extend_str(&mut r, value);
    extend_str(&mut r, after);
    from_chars(&r)
}

impl FilterError {
    /// The sentence shown to the user.
    pub fn message(&self) -> (r: String)
        ensures
            r@ == self@.text(),
    {
        match self {
            FilterError::NotKeyValue { pair } => quoted("filter term '", pair.as_str(), "' is not KEY=VALUE"),
            FilterError::NotId { value } => quoted("filter id '", value.as_str(), "' is not VID:PID"),
            FilterError::EndpointRange { endpoint } => {
                let mut r = to_chars("filter ep is 0 through 15, got ");
                let digits = to_decimal(*endpoint as u64);
                extend(&mut r, &digits);
                from_chars(&r)
            },
            FilterError::BadDirection { value } => quoted(
                "filter dir is 'in' or 'out', got '",
                value.as_str(),
                "'",
            ),
            FilterError::BadType { value } => quoted(
                "filter type is control, iso, bulk, or interrupt, got '",
                value.as_str(),
                "'",
            ),
            FilterError::BadInternal { value } => quoted(
                "filter internal is 'yes' or 'no', got '",
                value.as_str(),
                "'",
            ),
            FilterError::UnknownKey { key } => quoted("unknown filter key '", key.as_str(), "'"),
            FilterError::Twice { key } => quoted(
                "filter key '",
                key.as_str(),
                "' appears twice in one expression",
            ),
            FilterError::NotNumber { key, value } => quoted_key(
                key.as_str(),
                value.as_str(),
                "' is not a number 0 through 255",
            ),
            FilterError::NotHex { key, value } => quoted_key(key.as_str(), value.as_str(), "' is not 4 hex digits"),
        }
    }
}

/// One `--filter` argument, parsed. Every populated key must hold.
#[derive(Debug, Clone, PartialEq)]
pub struct FilterExpr {
    bus: Option<u8>,
    dev: Option<u8>,
    vid: Option<u16>,
    pid: Option<u16>,
    /// Lowercased at parse time; matched against vendor and product.
    name: Option<String>,
    ep: Option<u8>,
    dir_in: Option<bool>,
    transfer: Option<TransferType>,
    internal: Option<bool>,
}

/// What a `FilterExpr` asks.
pub struct Wanted {
    pub bus: Option<u8>,
    pub dev: Option<u8>,
    pub vid: Option<u16>,
    pub pid: Option<u16>,
    pub name: Option<Seq<char>>,
    pub ep: Option<u8>,
    pub dir_in: Option<bool>,
    pub transfer: Option<TransferType>,
    pub internal: Option<bool>,
}

impl View for FilterExpr {
    type V = Wanted;

    closed spec fn view(&self) -> Wanted {
        Wanted {
            bus: self.bus,
            dev: self.dev,
            vid: self.vid,
            pid: self.pid,
            name: match self.name {
                Some(n) => Some(n@),
                None => None,
            },
            ep: self.ep,
            dir_in: self.dir_in,
            transfer: self.transfer,
            internal: self.internal,
        }
    }
}

/// An expression that asks nothing yet.
pub open spec fn nothing_wanted() -> Wanted {
    Wanted {
        bus: None,
        dev: None,
        vid: None,
        pid: None,
        name: None,
        ep: None,
        dir_in: None,
        transfer: None,
        internal: None,
    }
}

/// The number that a value writes, or the fault.
pub open spec fn number_value(key: Seq<char>, value: Seq<char>) -> Result<u8, FilterFault> {
    match read_uint(value, 10, 255) {
        Some(n) => Ok(n as u8),
        None => Err(FilterFault::NotNumber { key, value }),
    }
}

/// The four hexadecimal digits that a value writes, or the fault.
pub open spec fn hex_value(key: Seq<char>, value: Seq<char>) -> Result<u16, FilterFault> {
    if value.len() != 4 {
        Err(FilterFault::NotHex { key, value })
    } else {
        match read_uint(value, 16, 65535) {
            Some(n) => Ok(n as u16),
            None => Err(FilterFault::NotHex { key, value }),
        }
    }
}

/// A key's new value, refused when it has one already.
pub open spec fn once<T>(slot: Option<T>, key: Seq<char>, value: Result<T, FilterFault>) -> Result<
    Option<T>,
    FilterFault,
> {
    match value {
        Err(e) => Err(e),
        Ok(v) => if slot is Some {
            Err(FilterFault::Twice { key })
        } else {
            Ok(Some(v))
        },
    }
}

pub open spec fn direction_value(value: Seq<char>) -> Result<bool, FilterFault> {
    if value == "in"@ {
        Ok(true)
    } else if value == "out"@ {
        Ok(false)
    } else {
        Err(FilterFault::BadDirection { value })
    }
}

pub open spec fn type_value(value: Seq<char>) -> Result<TransferType, FilterFault> {
    if value == "control"@ || value == "ctrl"@ {
        Ok(TransferType::Control)
    } else if value == "iso"@ {
        Ok(TransferType::Isochronous)
    } else if value == "bulk"@ {
        Ok(TransferType::Bulk)
    } else if value == "interrupt"@ || value == "int"@ {
        Ok(TransferType::Interrupt)
    } else {
        Err(FilterFault::BadType { value })
    }
}

pub open spec fn internal_value(value: Seq<char>) -> Result<bool, FilterFault> {
    if value == "yes"@ || value == "true"@ {
        Ok(true)
    } else if value == "no"@ || value == "false"@ {
        Ok(false)
    } else {
        Err(FilterFault::BadInternal { value })
    }
}

pub open spec fn endpoint_value(value: Seq<char>) -> Result<u8, FilterFault> {
    match number_value("ep"@, value) {
        Err(e) => Err(e),
        Ok(n) => if n > 15 {
            Err(FilterFault::EndpointRange { endpoint: n })
        } else {
            Ok(n)
        },
    }
}

/// `vid` and `pid` set from `VID:PID`.
pub open spec fn with_id(w: Wanted, value: Seq<char>) -> Result<Wanted, FilterFault> {
    let k = first_index(value, ':');
    if k >= value.len() {
        Err(FilterFault::NotId { value })
    } else {
        match once(w.vid, "vid"@, hex_value("id"@, value.take(k as int))) {
            Err(e) => Err(e),
            Ok(vid) => match once(w.pid, "pid"@, hex_value("id"@, value.skip(k as int + 1))) {
                Err(e) => Err(e),
                Ok(pid) => Ok((Wanted { vid, pid, ..w })),
            },
        }
    }
}

/// An expression with one more KEY=VALUE term.
pub open spec fn with_key(w: Wanted, key: Seq<char>, value: Seq<char>) -> Result<Wanted, FilterFault> {
    if key == "bus"@ {
        match once(w.bus, key, number_value(key, value)) {
            Ok(bus) => Ok((Wanted { bus, ..w })),
            Err(e) => Err(e),
        }
    } else if key == "dev"@ {
        match once(w.dev, key, number_value(key, value)) {
            Ok(dev) => Ok((Wanted { dev, ..w })),
            Err(e) => Err(e),
        }
    } else if key == "vid"@ {
        match once(w.vid, key, hex_value(key, value)) {
            Ok(vid) => Ok((Wanted { vid, ..w })),
            Err(e) => Err(e),
        }
    } else if key == "pid"@ {
        match once(w.pid, key, hex_value(key, value)) {
            Ok(pid) => Ok((Wanted { pid, ..w })),
            Err(e) => Err(e),
        }
    } else if key == "id"@ {
        with_id(w, value)
    } else if key == "name"@ {
        match once(w.name, key, Ok(lowercased(value))) {
            Ok(name) => Ok((Wanted { name, ..w })),
            Err(e) => Err(e),
        }
    } else if key == "ep"@ {
        match once(w.ep, key, endpoint_value(value)) {
            Ok(ep) => Ok((Wanted { ep, ..w })),
            Err(e) => Err(e),
        }
    } else if key == "dir"@ {
        match once(w.dir_in, key, direction_value(value)) {
            Ok(dir_in) => Ok((Wanted { dir_in, ..w })),
            Err(e) => Err(e),
        }
    } else if key == "type"@ {
        match once(w.transfer, key, type_value(value)) {
            Ok(transfer) => Ok((Wanted { transfer, ..w })),
            Err(e) => Err(e),
        }
    } else if key == "internal"@ {
        match once(w.internal, key, internal_value(value)) {
            Ok(internal) => Ok((Wanted { internal, ..w })),
            Err(e) => Err(e),
        }
    } else {
        Err(FilterFault::UnknownKey { key })
    }
}

/// An expression with one more term, as written.
pub open spec fn with_term(w: Wanted, pair: Seq<char>) -> Result<Wanted, FilterFault> {
    let k = first_index(pair, '=');
    if k >= pair.len() {
        Err(FilterFault::NotKeyValue { pair })
    } else {
        with_key(w, pair.take(k as int), pair.skip(k as int + 1))
    }
}

/// The expression that some terms make; the first fault decides.
pub open spec fn terms_wanted(pairs: Seq<Seq<char>>) -> Result<Wanted, FilterFault>
    decreases pairs.len(),
{
    if pairs.len() == 0 {
        Ok(nothing_wanted())
    } else {
        match terms_wanted(pairs.drop_last()) {
            Ok(w) => with_term(w, pairs.last()),
            Err(e) => Err(e),
        }
    }
}

/// The expression that an argument writes.
pub open spec fn expression(raw: Seq<char>) -> Result<Wanted, FilterFault> {
    terms_wanted(split_on(raw, ','))
}

/// The expressions that several arguments write; the first fault decides.
pub open spec fn expressions(args: Seq<Seq<char>>) -> Result<Seq<Wanted>, FilterFault>
    decreases args.len(),
{
    if args.len() == 0 {
        Ok(Seq::empty())
    } else {
        match expressions(args.drop_last()) {
            Err(e) => Err(e),
            Ok(front) => match expression(args.last()) {
                Ok(w) => Ok(front.push(w)),
                Err(e) => Err(e),
            },
        }
    }
}

/// Whether the needle stands in the lower case of a string that is there.
pub open spec fn name_hit(field: Option<String>, needle: Seq<char>) -> bool {
    match field {
        Some(s) => occurs(lowercased(s@), needle),
        None => false,
    }
}

/// Whether a device is one that the identity keys ask for.
pub open spec fn device_wanted(w: Wanted, d: UsbDevice) -> bool {
    &&& w.bus matches Some(bus) ==> bus == d.bus_id
    &&& w.dev matches Some(dev) ==> dev == d.device_id
    &&& w.vid matches Some(vid) ==> d.vendor_id == Some(vid)
    &&& w.pid matches Some(pid) ==> d.product_id == Some(pid)
    &&& w.name matches Some(n) ==> name_hit(d.vendor, n) || name_hit(d.product, n)
    &&& w.internal matches Some(want) ==> want == d.is_internal
}

/// Whether traffic on a device's endpoint is asked for.
pub open spec fn traffic_wanted(
    w: Wanted,
    d: UsbDevice,
    endpoint: u8,
    dir_in: bool,
    transfer_type: Option<TransferType>,
) -> bool {
    &&& device_wanted(w, d)
    &&& w.ep matches Some(ep) ==> ep == endpoint
    &&& w.dir_in matches Some(dir) ==> dir == dir_in
    &&& w.transfer matches Some(t) ==> transfer_type == Some(t)
}

/// Store a value under a key that has none yet.
fn set_once<T>(slot: &mut Option<T>, key: &str, value: T) -> (r: Result<(), FilterError>)
    ensures
        match r {
            Ok(_) => *old(slot) is None && *final(slot) == Some(value),
            Err(e) => *old(slot) is Some && *final(slot) == *old(slot) && e@ == (FilterFault::Twice {
                key: key@,
            }),
        },
{
    if slot.is_some() {
        return Err(FilterError::Twice { key: key.to_owned() });
    }
    *slot = Some(value);
    Ok(())
}

fn parse_u8(key: &str, value: &str) -> (r: Result<u8, FilterError>)
    ensures
        match r {
            Ok(n) => number_value(key@, value@) == Ok::<u8, FilterFault>(n),
            Err(e) => number_value(key@, value@) == Err::<u8, FilterFault>(e@),
        },
{
    let v = to_chars(value);
    match parse_uint(&v, 10, 255) {
        Some(n) => Ok(n as u8),
        None => Err(FilterError::NotNumber { key: key.to_owned(), value: value.to_owned() }),
    }
}

fn parse_hex16(key: &str, value: &str) -> (r: Result<u16, FilterError>)
    ensures
        match r {
            Ok(n) => hex_value(key@, value@) == Ok::<u16, FilterFault>(n),
            Err(e) => hex_value(key@, value@) == Err::<u16, FilterFault>(e@),
        },
{
    let v = to_chars(value);
    if v.len() != 4 {
        return Err(FilterError::NotHex { key: key.to_owned(), value: value.to_owned() });
    }
    match parse_uint(&v, 16, 65535) {
        Some(n) => Ok(n as u16),
        None => Err(FilterError::NotHex { key: key.to_owned(), value: value.to_owned() }),
    }
}

/// Whether the needle stands in a lowercased name.
pub fn name_matches(lowered: &str, needle: &str) -> (r: bool)
    ensures
        r == occurs(lowered@, needle@),
{
    let v = to_chars(lowered);
    let n = to_chars(needle);
    contains(&v, &n)
}

fn hit(field: &Option<String>, needle: &str) -> (r: bool)
    ensures
        r == name_hit(*field, needle@),
{
    match field {
        None => false,
        Some(s) => {
            let lowered = lowercase(s.as_str());
            name_matches(lowered.as_str(), needle)
        },
    }
}

impl FilterExpr {
    /// An expression that asks nothing yet.
    fn empty() -> (e: FilterExpr)
        ensures
            e@ == nothing_wanted(),
    {
        FilterExpr {
            bus: None,
            dev: None,
            vid: None,
            pid: None,
            name: None,
            ep: None,
            dir_in: None,
            transfer: None,
            internal: None,
        }
    }

    /// Add one KEY=VALUE term.
    fn add_key(&mut self, key: &str, value: &str) -> (r: Result<(), FilterError>)
        ensures
            match r {
                Ok(_) => with_key(old(self)@, key@, value@) == Ok::<Wanted, FilterFault>(final(self)@),
                Err(e) => with_key(old(self)@, key@, value@) == Err::<Wanted, FilterFault>(e@),
            },
    {
        if str_eq(key, "bus") {
            let n = parse_u8(key, value)?;
            set_once(&mut self.bus, key, n)
        } else if str_eq(key, "dev") {
            let n = parse_u8(key, value)?;
            set_once(&mut self.dev, key, n)
        } else if str_eq(key, "vid") {
            let n = parse_hex16(key, value)?;
            set_once(&mut self.vid, key, n)
        } else if str_eq(key, "pid") {
            let n = parse_hex16(key, value)?;
            set_once(&mut self.pid, key, n)
        } else if str_eq(key, "id") {
            self.add_id(value)
        } else if str_eq(key, "name") {
            let lowered = lowercase(value);
            set_once(&mut self.name, key, lowered)
        } else if str_eq(key, "ep") {
            let n = parse_u8("ep", value)?;
            if n > 15 {
                return Err(FilterError::EndpointRange { endpoint: n });
            }
            set_once(&mut self.ep, key, n)
        } else if str_eq(key, "dir") {
            let dir = if str_eq(value, "in") {
                true
            } else if str_eq(value, "out") {
                false
            } else {
                return Err(FilterError::BadDirection { value: value.to_owned() });
            };
            set_once(&mut self.dir_in, key, dir)
        } else if str_eq(key, "type") {
            let t = if str_eq(value, "control") || str_eq(value, "ctrl") {
                TransferType::Control
            } else if str_eq(value, "iso") {
                TransferType::Isochronous
            } else if str_eq(value, "bulk") {
                TransferType::Bulk
            } else if str_eq(value, "interrupt") || str_eq(value, "int") {
                TransferType::Interrupt
            } else {
                return Err(FilterError::BadType { value: value.to_owned() });
            };
            set_once(&mut self.transfer, key, t)
        } else if str_eq(key, "internal") {
            let want = if str_eq(value, "yes") || str_eq(value, "true") {
                true
            } else if str_eq(value, "no") || str_eq(value, "false") {
                false
            } else {
                return Err(FilterError::BadInternal { value: value.to_owned() });
            };
            set_once(&mut self.internal, key, want)
        } else {
            Err(FilterError::UnknownKey { key: key.to_owned() })
        }
    }

    /// Set `vid` and `pid` from `VID:PID`.
    fn add_id(&mut self, value: &str) -> (r: Result<(), FilterError>)
        ensures
            match r {
                Ok(_) => with_id(old(self)@, value@) == Ok::<Wanted, FilterFault>(final(self)@),
                Err(e) => with_id(old(self)@, value@) == Err::<Wanted, FilterFault>(e@),
            },
    {
        let v = to_chars(value);
        let k = find_char(&v, ':', 0);
        assert(v@.skip(0) == v@);
        if k >= v.len() {
            return Err(FilterError::NotId { value: value.to_owned() });
        }
        let head = slice(&v, 0, k);
        assert(head@ == v@.take(k as int));
        let tail = slice(&v, k + 1, v.len());
        assert(tail@ == v@.skip(k + 1));
        let vid_text = from_chars(&head);
        let pid_text = from_chars(&tail);
        let vid = parse_hex16("id", vid_text.as_str())?;
        set_once(&mut self.vid, "vid", vid)?;
        let pid = parse_hex16("id", pid_text.as_str())?;
        set_once(&mut self.pid, "pid", pid)
    }

    /// Parse one argument.
    pub fn parse(raw: &str) -> (r: Result<FilterExpr, FilterError>)
        ensures
            match r {
                Ok(e) => expression(raw@) == Ok::<Wanted, FilterFault>(e@),
                Err(e) => expression(raw@) == Err::<Wanted, FilterFault>(e@),
            },
    {
        let v = to_chars(raw);
        let pairs = split(&v, ',');
        let ghost views = char_views(pairs@);
        let mut expr = FilterExpr::empty();
        let mut i: usize = 0;
        assert(views.take(0) == Seq::<Seq<char>>::empty());
        while i < pairs.len()
            invariant
                i <= pairs.len(),
                views == char_views(pairs@),
                views == split_on(raw@, ','),
                terms_wanted(views.take(i as int)) == Ok::<Wanted, FilterFault>(expr@),
            decreases pairs.len() - i,
        {
            let pair = &pairs[i];
            assert(views[i as int] == pair@);
            assert(views.take(i + 1).drop_last() == views.take(i as int));
            let k = find_char(pair, '=', 0);
            assert(pair@.skip(0) == pair@);
            if k >= pair.len() {
                let e = FilterError::NotKeyValue { pair: from_chars(pair) };
                proof {
                    lemma_first_fault(views, i + 1);
                }
                return Err(e);
            }
            let head = slice(pair, 0, k);
            assert(head@ == pair@.take(k as int));
            let tail = slice(pair, k + 1, pair.len());
            assert(tail@ == pair@.skip(k + 1));
            let key = from_chars(&head);
            let value = from_chars(&tail);
            match expr.add_key(key.as_str(), value.as_str()) {
                Ok(_) => {},
                Err(e) => {
                    proof {
                        lemma_first_fault(views, i + 1);
                    }
                    return Err(e);
                },
            }
            i = i + 1;
        }
        assert(views.take(views.len() as int) == views);
        Ok(expr)
    }

    /// Identity keys only: does this device belong on screen at all.
    fn matches_device(&self, device: &UsbDevice) -> (r: bool)
        ensures
            r == device_wanted(self@, *device),
    {
        if let Some(bus) = self.bus {
            if bus != device.bus_id {
                return false;
            }
        }
        if let Some(dev) = self.dev {
            if dev != device.device_id {
                return false;
            }
        }
        if self.vid.is_some() && device.vendor_id != self.vid {
            return false;
        }
        if self.pid.is_some() && device.product_id != self.pid {
            return false;
        }
        if let Some(needle) = &self.name {
            if !hit(&device.vendor, needle.as_str()) && !hit(&device.product, needle.as_str()) {
                return false;
            }
        }
        if let Some(want) = self.internal {
            if want != device.is_internal {
                return false;
            }
        }
        true
    }

    /// Every key: identity against the device, ep/dir/type against the
    /// traffic.
    fn matches_traffic(
        &self,
        device: &UsbDevice,
        endpoint: u8,
        dir_in: bool,
        transfer_type: Option<TransferType>,
    ) -> (r: bool)
        ensures
            r == traffic_wanted(self@, *device, endpoint, dir_in, transfer_type),
    {
        if !self.matches_device(device) {
            return false;
        }
        if let Some(ep) = self.ep {
            if ep != endpoint {
                return false;
            }
        }
        if let Some(dir) = self.dir_in {
            if dir != dir_in {
                return false;
            }
        }
        if let Some(t) = self.transfer {
            match transfer_type {
                Some(u) => {
                    if t != u {
                        return false;
                    }
                },
                None => {
                    return false;
                },
            }
        }
        true
    }

    /// The same against a packet.
    fn matches_packet(&self, packet: &UsbPacket, device: &UsbDevice) -> (r: bool)
        ensures
            r == traffic_wanted(self@, *device, packet.endpoint, packet.direction, packet.transfer_type),
    {
        self.matches_traffic(device, packet.endpoint, packet.direction, packet.transfer_type)
    }
}

proof fn lemma_first_fault(pairs: Seq<Seq<char>>, k: int)
    requires
        0 <= k <= pairs.len(),
        terms_wanted(pairs.take(k)) is Err,
    ensures
        terms_wanted(pairs) == terms_wanted(pairs.take(k)),
    decreases pairs.len() - k,
{
    if k == pairs.len() {
        assert(pairs.take(k) == pairs);
    } else {
        assert(pairs.take(k + 1).drop_last() == pairs.take(k));
        lemma_first_fault(pairs, k + 1);
    }
}

proof fn lemma_first_bad_argument(args: Seq<Seq<char>>, k: int)
    requires
        0 <= k <= args.len(),
        expressions(args.take(k)) is Err,
    ensures
        expressions(args) == expressions(args.take(k)),
    decreases args.len() - k,
{
    if k == args.len() {
        assert(args.take(k) == args);
    } else {
        assert(args.take(k + 1).drop_last() == args.take(k));
        lemma_first_bad_argument(args, k + 1);
    }
}

/// Every `--filter` argument, ORed. Empty means match-all.
#[derive(Debug, Clone)]
pub struct FilterSet {
    pub exprs: Vec<FilterExpr>,
}

impl View for FilterSet {
    type V = Seq<Wanted>;

    open spec fn view(&self) -> Seq<Wanted> {
        self.exprs@.map_values(|e: FilterExpr| e@)
    }
}

impl Default for FilterSet {
    fn default() -> (r: FilterSet)
        ensures
            r@ == Seq::<Wanted>::empty(),
    {
        let r = FilterSet { exprs: Vec::new() };
        assert(r@ == Seq::<Wanted>::empty());
        r
    }
}

/// Whether a set lets a device through.
pub open spec fn set_wants_device(set: Seq<Wanted>, d: UsbDevice) -> bool {
    set.len() == 0 || exists|i: int| 0 <= i < set.len() && device_wanted(#[trigger] set[i], d)
}

/// Whether a set lets traffic through.
pub open spec fn set_wants_traffic(
    set: Seq<Wanted>,
    d: UsbDevice,
    endpoint: u8,
    dir_in: bool,
    transfer_type: Option<TransferType>,
) -> bool {
    set.len() == 0 || exists|i: int|
        0 <= i < set.len() && traffic_wanted(#[trigger] set[i], d, endpoint, dir_in, transfer_type)
}

impl FilterSet {
    /// Parse every argument; the first fault is returned.
    pub fn parse(args: &[String]) -> (r: Result<FilterSet, FilterError>)
        ensures
            match r {
                Ok(set) => expressions(crate::text::string_views(args@)) == Ok::<Seq<Wanted>, FilterFault>(set@),
                Err(e) => expressions(crate::text::string_views(args@)) == Err::<Seq<Wanted>, FilterFault>(e@),
            },
    {
        let ghost views = crate::text::string_views(args@);
        let mut set = FilterSet { exprs: Vec::new() };
        let mut i: usize = 0;
        assert(views.take(0) == Seq::<Seq<char>>::empty());
        assert(set@ == Seq::<Wanted>::empty());
        while i < args.len()
            invariant
                i <= args@.len(),
                views == crate::text::string_views(args@),
                expressions(views.take(i as int)) == Ok::<Seq<Wanted>, FilterFault>(set@),
            decreases args@.len() - i,
        {
            assert(views[i as int] == args@[i as int]@);
            assert(views.take(i + 1).drop_last() == views.take(i as int));
            match FilterExpr::parse(args[i].as_str()) {
                Ok(e) => {
                    let ghost before = set@;
                    set.exprs.push(e);
                    assert(set@ =~= before.push(e@));
                },
                Err(e) => {
                    proof {
                        lemma_first_bad_argument(views, i + 1);
                    }
                    return Err(e);
                },
            }
            i = i + 1;
        }
        assert(views.take(views.len() as int) == views);
        Ok(set)
    }

    /// Whether there is no expression.
    pub fn is_empty(&self) -> (r: bool)
        ensures
            r == (self@.len() == 0),
    {
        self.exprs.len() == 0
    }

    /// Whether a device belongs on screen.
    pub fn matches_device(&self, device: &UsbDevice) -> (r: bool)
        ensures
            r == set_wants_device(self@, *device),
    {
        if self.exprs.len() == 0 {
            return true;
        }
        let mut i: usize = 0;
        while i < self.exprs.len()
            invariant
                i <= self.exprs.len(),
                forall|j: int| 0 <= j < i ==> !device_wanted(#[trigger] self@[j], *device),
            decreases self.exprs.len() - i,
        {
            assert(self@[i as int] == self.exprs@[i as int]@);
            if self.exprs[i].matches_device(device) {
                return true;
            }
            i = i + 1;
        }
        false
    }

    /// Whether traffic counts.
    pub fn matches_traffic(
        &self,
        device: &UsbDevice,
        endpoint: u8,
        dir_in: bool,
        transfer_type: Option<TransferType>,
    ) -> (r: bool)
        ensures
            r == set_wants_traffic(self@, *device, endpoint, dir_in, transfer_type),
    {
        if self.exprs.len() == 0 {
            return true;
        }
        let mut i: usize = 0;
        while i < self.exprs.len()
            invariant
                i <= self.exprs.len(),
                forall|j: int|
                    0 <= j < i ==> !traffic_wanted(
                        #[trigger] self@[j],
                        *device,
                        endpoint,
                        dir_in,
                        transfer_type,
                    ),
            decreases self.exprs.len() - i,
        {
            assert(self@[i as int] == self.exprs@[i as int]@);
            if self.exprs[i].matches_traffic(device, endpoint, dir_in, transfer_type) {
                return true;
            }
            i = i + 1;
        }
        false
    }

    /// Whether a packet counts.
    pub fn matches_packet(&self, packet: &UsbPacket, device: &UsbDevice) -> (r: bool)
        ensures
            r == set_wants_traffic(
                self@,
                *device,
                packet.endpoint,
                packet.direction,
                packet.transfer_type,
            ),
    {
        if self.exprs.len() == 0 {
            return true;
        }
        let mut i: usize = 0;
        while i < self.exprs.len()
            invariant
                i <= self.exprs.len(),
                forall|j: int|
                    0 <= j < i ==> !traffic_wanted(
                        #[trigger] self@[j],
                        *device,
                        packet.endpoint,
                        packet.direction,
                        packet.transfer_type,
                    ),
            decreases self.exprs.len() - i,
        {
            assert(self@[i as int] == self.exprs@[i as int]@);
            if self.exprs[i].matches_packet(packet, device) {
                return true;
            }
            i = i + 1;
        }
        false
    }

    /// True iff any expression in this set sets the `internal` key. Callers
    /// use this to reject such a filter up front when no snapshot exists,
    /// rather than let it silently match nothing.
    pub fn uses_internal(&self) -> (r: bool)
        ensures
            r == exists|i: int| 0 <= i < self@.len() && (#[trigger] self@[i]).internal is Some,
    {
        let mut i: usize = 0;
        while i < self.exprs.len()
            invariant
                i <= self.exprs.len(),
                forall|j: int| 0 <= j < i ==> (#[trigger] self@[j]).internal is None,
            decreases self.exprs.len() - i,
        {
            assert(self@[i as int] == self.exprs@[i as int]@);
            if self.exprs[i].internal.is_some() {
                return true;
            }
            i = i + 1;
        }
        false
    }
}

/// Traffic that counts belongs to a device that is shown.
pub proof fn law_counted_traffic_is_on_a_shown_device(
    set: Seq<Wanted>,
    d: UsbDevice,
    endpoint: u8,
    dir_in: bool,
    transfer_type: Option<TransferType>,
)
    requires
        set_wants_traffic(set, d, endpoint, dir_in, transfer_type),
    ensures
        set_wants_device(set, d),
{
    if set.len() > 0 {
        let i = choose|i: int|
            0 <= i < set.len() && traffic_wanted(#[trigger] set[i], d, endpoint, dir_in, transfer_type);
        assert(device_wanted(set[i], d));
    }
}

/// Repeated expressions OR: two sets together let through what one of them
/// does, as long as neither is empty.
pub proof fn law_expressions_are_alternatives(a: Seq<Wanted>, b: Seq<Wanted>, d: UsbDevice)
    requires
        a.len() > 0,
        b.len() > 0,
    ensures
        set_wants_device(a + b, d) == (set_wants_device(a, d) || set_wants_device(b, d)),
{
    if set_wants_device(a, d) {
        let i = choose|i: int| 0 <= i < a.len() && device_wanted(#[trigger] a[i], d);
        assert((a + b)[i] == a[i]);
    }
    if set_wants_device(b, d) {
        let i = choose|i: int| 0 <= i < b.len() && device_wanted(#[trigger] b[i], d);
        assert((a + b)[a.len() + i] == b[i]);
    }
    if set_wants_device(a + b, d) {
        let i = choose|i: int| 0 <= i < (a + b).len() && device_wanted(#[trigger] (a + b)[i], d);
        if i < a.len() {
            assert(a[i] == (a + b)[i]);
        } else {
            assert(b[i - a.len()] == (a + b)[i]);
        }
    }
}

/// `id=VID:PID` asks exactly what `vid=VID,pid=PID` asks.
pub proof fn law_id_is_vid_and_pid(w: Wanted, vid: Seq<char>, pid: Seq<char>)
    requires
        !vid.contains(':'),
    ensures
        ({
            let one = with_key(w, "id"@, vid.push(':') + pid);
            let two = match with_key(w, "vid"@, vid) {
                Ok(v) => with_key(v, "pid"@, pid),
                Err(e) => Err::<Wanted, FilterFault>(e),
            };
            (one is Ok <==> two is Ok) && (one is Ok ==> one == two)
        }),
{
    reveal_strlit("bus");
    reveal_strlit("dev");
    reveal_strlit("vid");
    reveal_strlit("pid");
    reveal_strlit("id");
    assert("vid"@[0] == 'v' && "pid"@[0] == 'p' && "bus"@[0] == 'b' && "dev"@[0] == 'd');
    let value = vid.push(':') + pid;
    assert forall|j: int| 0 <= j < vid.len() implies value[j] != ':' by {
        assert(value[j] == vid[j]);
    }
    crate::text::lemma_first_index_is(value, ':', vid.len() as int);
    assert(value.take(vid.len() as int) == vid);
    assert(value.skip(vid.len() as int + 1) == pid);
    assert("id"@.len() == 2);
}

} // verus!
