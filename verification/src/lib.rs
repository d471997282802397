//! A device catalog for WebAuthn authenticators.
//!
//! The crate reconciles an upstream FIDO Metadata Service feed with locally
//! curated enrichment records, producing a catalog keyed by the attestation
//! certificate authority that vouches for each device, together with a
//! quirks index keyed by device identifier (AAGUID). It also maintains a
//! registry of attestation CAs deduplicated by certificate digest.

use vstd::prelude::*;

pub mod attestation_ca;
pub mod enrichment;
pub mod keymap;
pub mod patch;
pub mod proto;

verus! {

/// The failures the catalog pipeline can report.
///
/// `InvalidInputLocation` and `MalformedRecord` are raised by the loader
/// that feeds this library; `DigestError` by registry operations on a
/// certificate that cannot be digested; `DuplicateFeedAaguid` by the
/// reconciliation engine when the upstream feed breaks its uniqueness
/// promise.
#[derive(Debug, Clone, Copy, PartialEq, Eq, Structural)]
pub enum CatalogError {
    InvalidInputLocation,
    MalformedRecord,
    DigestError,
    DuplicateFeedAaguid,
}

} // verus!
