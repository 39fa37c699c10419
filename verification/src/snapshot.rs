//! The devices that belong to the machine itself.

use vstd::prelude::*;

use crate::number::{hex4, to_hex4};
use crate::text::{from_chars, str_eq};

verus! {

/// One device that belongs to the machine, by where it sits and its ids.
#[derive(Debug)]
pub struct SnapshotDevice {
    /// The sysfs name: `1-4`.
    pub port_path: String,
    /// Four hexadecimal digits.
    pub vendor_id: Option<String>,
    pub product_id: Option<String>,
}

/// The devices that were there when the bare machine was captured.
#[derive(Debug)]
pub struct Snapshot {
    pub captured_unix: u64,
    pub devices: Vec<SnapshotDevice>,
}

/// Whether a stored id is the given one; an absent id only fits an absent one.
pub open spec fn id_fits(stored: Option<String>, id: Option<u16>) -> bool {
    match (stored, id) {
        (Some(s), Some(n)) => s@ == hex4(n as nat),
        (None, None) => true,
        _ => false,
    }
}

impl SnapshotDevice {
    /// Whether this is the device called `name` with these ids.
    pub open spec fn fits(self, name: Seq<char>, vendor_id: Option<u16>, product_id: Option<u16>) -> bool {
        self.port_path@ == name && id_fits(self.vendor_id, vendor_id) && id_fits(self.product_id, product_id)
    }
}

fn id_matches(stored: &Option<String>, id: Option<u16>) -> (r: bool)
    ensures
        r == id_fits(*stored, id),
{
    match (stored, id) {
        (Some(s), Some(n)) => {
            let digits = to_hex4(n);
            let text = from_chars(&digits);
            str_eq(s.as_str(), text.as_str())
        },
        (None, None) => true,
        _ => false,
    }
}

impl Snapshot {
    /// Whether the snapshot lists the device.
    pub open spec fn lists(self, name: Seq<char>, vendor_id: Option<u16>, product_id: Option<u16>) -> bool {
        exists|i: int|
            0 <= i < self.devices@.len() && (#[trigger] self.devices@[i]).fits(name, vendor_id, product_id)
    }

    /// Whether the device called `name` with these ids belongs to the machine.
    pub fn is_internal(&self, name: &str, vendor_id: Option<u16>, product_id: Option<u16>) -> (r: bool)
        ensures
            r == self.lists(name@, vendor_id, product_id),
    {
        let mut i: usize = 0;
        while i < self.devices.len()
            invariant
                i <= self.devices.len(),
                forall|j: int|
                    0 <= j < i ==> !(#[trigger] self.devices@[j]).fits(name@, vendor_id, product_id),
            decreases self.devices.len() - i,
        {
            let d = &self.devices[i];
            if str_eq(d.port_path.as_str(), name) && id_matches(&d.vendor_id, vendor_id) && id_matches(
                &d.product_id,
                product_id,
            ) {
                return true;
            }
            i = i + 1;
        }
        false
    }
}

} // verus!
