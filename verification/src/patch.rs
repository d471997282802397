//! Manual corrections applied over records of the upstream feed.
//!
//! Some devices are known to report wrong data in the feed; this module
//! recognises them by AAGUID and by a fingerprint of the reported value,
//! and supplies the correction or refers the record to manual review.

use vstd::prelude::*;

verus! {

/// One user verification method of a feed record, carried as its FIDO
/// registry code.
#[derive(Debug, Clone, Copy, PartialEq, Eq, Hash, Structural)]
pub struct UserVerificationMethod {
    /// The registry code of the verification method.
    pub method: u64,
}

/// The YubiKey 5 Lightning's AAGUID.
pub const YK5LIGHTNING: u128 = 0xc5ef55ff_ad9a_4b9f_b580_adebafe026d0;

/// The fingerprint of the verification table the feed is known to report
/// for that device.
pub const YK5LIGHTNING_HASH: u64 = 9891217653727489461;

/// Relies on std's `SipHasher`: a fingerprint of the reported table,
/// deterministic within one build for the hasher's fixed default key.
/// Nothing is promised of the value; callers hold for every outcome.
#[verifier::external_body]
#[allow(deprecated)]
fn uvm_hash(uvm: &Vec<Vec<UserVerificationMethod>>) -> u64 {
    let mut hasher = std::hash::SipHasher::new();
    std::hash::Hash::hash(uvm, &mut hasher);
    std::hash::Hasher::finish(&hasher)
}

/// Patch the user verification methods reported for a device.
///
/// Devices other than the YubiKey 5 Lightning pass through unpatched
/// (`Ok(None)`). For that device no corrected table has been established,
/// so the record is referred to manual review — whether the reported
/// table still matches the known fingerprint or has changed under us.
pub fn user_verification_method(
    aaguid: Option<u128>,
    uvm: &Vec<Vec<UserVerificationMethod>>,
) -> (r: Result<Option<Vec<Vec<UserVerificationMethod>>>, ()>)
    ensures
        r is Err <==> aaguid == Option::Some(YK5LIGHTNING),
        r is Ok ==> r->Ok_0 is None,
{
    match aaguid {
        Option::Some(a) => {
            if a == YK5LIGHTNING {
                let hash = uvm_hash(uvm);
                if hash == YK5LIGHTNING_HASH {
                    match user_verification_method_yk5lightning(uvm) {
                        Ok(v) => Ok(Some(v)),
                        Err(()) => Err(()),
                    }
                } else {
                    Err(())
                }
            } else {
                Ok(None)
            }
        },
        Option::None => Ok(None),
    }
}

/// The corrected verification table for the YubiKey 5 Lightning.
///
/// No corrected table has been established for this device yet, so every
/// request is referred back to the caller for manual review.
#[allow(unused_variables)]
pub fn user_verification_method_yk5lightning(
    uvm_and: &Vec<Vec<UserVerificationMethod>>,
) -> (r: Result<Vec<Vec<UserVerificationMethod>>, ()>)
    ensures
        r is Err,
{
    Err(())
}

} // verus!
