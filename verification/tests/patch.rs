//! The feed patch table.

use device_catalog::patch::user_verification_method;
use device_catalog::patch::user_verification_method_yk5lightning;
use device_catalog::patch::UserVerificationMethod;
use device_catalog::patch::YK5LIGHTNING;

fn table() -> Vec<Vec<UserVerificationMethod>> {
    vec![vec![UserVerificationMethod { method: 2 }], vec![
        UserVerificationMethod { method: 4 },
        UserVerificationMethod { method: 1 },
    ]]
}

#[test]
fn unpatched_devices_pass_through() {
    assert_eq!(user_verification_method(None, &table()), Ok(None));
    assert_eq!(user_verification_method(Some(0x1234), &table()), Ok(None));
}

#[test]
fn the_yk5_lightning_is_referred_to_manual_review() {
    assert_eq!(user_verification_method(Some(YK5LIGHTNING), &table()), Err(()));
    assert_eq!(user_verification_method_yk5lightning(&table()), Err(()));
}
