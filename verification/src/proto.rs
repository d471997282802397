//! The record shapes the catalog pipeline works over.
//!
//! AAGUIDs are carried as their 128-bit value; certificates as DER bytes;
//! quirk tags as opaque strings.

use vstd::prelude::*;

verus! {

/// A manufacturer record from the enrichment data.
#[derive(Debug, Clone)]
pub struct Manufacturer {
    /// Our name of the manufacturer; must be unique.
    name: String,
    /// Strings that match it to the names the upstream feed uses.
    fido_names: Vec<String>,
}

impl Manufacturer {
    /// The manufacturer's name.
    pub closed spec fn spec_name(self) -> Seq<char> {
        self.name@
    }

    /// The feed-side names the manufacturer is known under.
    pub closed spec fn spec_fido_names(self) -> Seq<String> {
        self.fido_names@
    }

    /// Assemble a manufacturer record.
    pub fn new(name: String, fido_names: Vec<String>) -> (r: Self)
        ensures
            r.spec_name() == name@,
            r.spec_fido_names() == fido_names@,
    {
        Manufacturer { name, fido_names }
    }

    /// The manufacturer's name.
    pub fn name(&self) -> (r: &String)
        ensures
            r@ == self.spec_name(),
    {
        &self.name
    }

    /// The feed-side names the manufacturer is known under.
    pub fn fido_names(&self) -> (r: &Vec<String>)
        ensures
            r@ == self.spec_fido_names(),
    {
        &self.fido_names
    }
}

/// A stock-keeping unit of a device: one purchasable variant, carrying the
/// attestation CAs (as DER bytes) that vouch for it.
#[derive(Debug, Clone)]
pub struct Sku {
    /// The signing CAs' certificates.
    pub attestation_cas: Vec<Vec<u8>>,
}

/// How an enrichment record combines with the upstream feed entry filed
/// under the same AAGUID.
#[derive(Debug, Clone, Copy, PartialEq, Eq, Structural)]
pub enum FidoMdsLink {
    /// This metadata is extending an existing device.
    Extend,
    /// This metadata is a unique device, but exists as a clone of another
    /// device in the upstream feed, sharing its attestation.
    Clone,
}

impl Default for FidoMdsLink {
    /// Enrichment records extend their feed entry unless they say
    /// otherwise.
    fn default() -> (r: Self)
        ensures
            r == FidoMdsLink::Extend,
    {
        FidoMdsLink::Extend
    }
}

/// A locally authored device record from the enrichment data.
#[derive(Debug, Clone)]
pub struct Device {
    /// The AAGUID this device implements.
    pub aaguid: u128,
    /// How this record combines with a same-AAGUID feed record.
    pub mds_link: FidoMdsLink,
    /// Display name.
    pub display_name: String,
    /// Behavioural annotation tags.
    pub quirks: Vec<String>,
    /// The purchasable variants, each carrying its attestation CAs.
    pub skus: Vec<Sku>,
    /// Informational image names; unused by the reconciliation.
    pub images: Vec<String>,
}

/// A device record of the upstream metadata feed, read-only input to the
/// reconciliation.
#[derive(Debug, Clone)]
pub struct FeedDevice {
    /// The AAGUID the feed files this device under.
    pub aaguid: u128,
    /// The feed's display name for the device.
    pub description: String,
    /// The attestation root certificates, as DER bytes.
    pub attestation_root_certificates: Vec<Vec<u8>>,
}

} // verus!
