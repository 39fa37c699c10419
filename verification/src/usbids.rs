//! Vendor and product names by id.

use vstd::prelude::*;

verus! {

/// A vendor's name.
#[derive(Debug)]
pub struct VendorName {
    pub vendor: u16,
    pub name: String,
}

/// A product's name.
#[derive(Debug)]
pub struct ProductName {
    pub vendor: u16,
    pub product: u16,
    pub name: String,
}

/// The usb.ids names.
#[derive(Debug)]
pub struct UsbIds {
    pub vendors: Vec<VendorName>,
    pub products: Vec<ProductName>,
}

/// The first name listed for a vendor.
pub open spec fn vendor_in(v: Seq<VendorName>, vendor: u16) -> Option<Seq<char>>
    decreases v.len(),
{
    if v.len() == 0 {
        None
    } else if v[0].vendor == vendor {
        Some(v[0].name@)
    } else {
        vendor_in(v.skip(1), vendor)
    }
}

/// The first name listed for a product.
pub open spec fn product_in(v: Seq<ProductName>, vendor: u16, product: u16) -> Option<Seq<char>>
    decreases v.len(),
{
    if v.len() == 0 {
        None
    } else if v[0].vendor == vendor && v[0].product == product {
        Some(v[0].name@)
    } else {
        product_in(v.skip(1), vendor, product)
    }
}

impl UsbIds {
    /// The name of a vendor.
    pub open spec fn vendor(self, vendor: u16) -> Option<Seq<char>> {
        vendor_in(self.vendors@, vendor)
    }

    /// The name of a product.
    pub open spec fn product(self, vendor: u16, product: u16) -> Option<Seq<char>> {
        product_in(self.products@, vendor, product)
    }

    /// The name of a vendor.
    pub fn vendor_name(&self, vendor: u16) -> (r: Option<&String>)
        ensures
            match r {
                Some(n) => self.vendor(vendor) == Some(n@),
                None => self.vendor(vendor) is None,
            },
    {
        let v = &self.vendors;
        let mut i: usize = 0;
        assert(v@.skip(0) == v@);
        while i < v.len()
            invariant
                i <= v.len(),
                vendor_in(v@, vendor) == vendor_in(v@.skip(i as int), vendor),
                v == &self.vendors,
            decreases v.len() - i,
        {
            if v[i].vendor == vendor {
                return Some(&v[i].name);
            }
            assert(v@.skip(i as int).skip(1) == v@.skip(i + 1));
            i = i + 1;
        }
        None
    }

    /// The name of a product.
    pub fn product_name(&self, vendor: u16, product: u16) -> (r: Option<&String>)
        ensures
            match r {
                Some(n) => self.product(vendor, product) == Some(n@),
                None => self.product(vendor, product) is None,
            },
    {
        let v = &self.products;
        let mut i: usize = 0;
        assert(v@.skip(0) == v@);
        while i < v.len()
            invariant
                i <= v.len(),
                product_in(v@, vendor, product) == product_in(v@.skip(i as int), vendor, product),
                v == &self.products,
            decreases v.len() - i,
        {
            if v[i].vendor == vendor && v[i].product == product {
                return Some(&v[i].name);
            }
            assert(v@.skip(i as int).skip(1) == v@.skip(i + 1));
            i = i + 1;
        }
        None
    }
}

} // verus!
