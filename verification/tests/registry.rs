//! The CA registry: digest-keyed identity, replace-on-insert,
//! merge-on-stream.

use device_catalog::attestation_ca::AttestationCa;
use device_catalog::attestation_ca::AttestationCaList;
use device_catalog::CatalogError;

fn cert1_der() -> Vec<u8> {
    vec![
        48, 130, 1, 146, 48, 130, 1, 57, 160, 3, 2, 1, 2, 2, 20, 116,
        3, 152, 21, 214, 200, 95, 155, 152, 223, 112, 189, 117, 65, 143, 17, 151,
        190, 53, 99, 48, 10, 6, 8, 42, 134, 72, 206, 61, 4, 3, 2, 48,
        31, 49, 29, 48, 27, 6, 3, 85, 4, 3, 12, 20, 67, 97, 116, 97,
        108, 111, 103, 32, 84, 101, 115, 116, 32, 82, 111, 111, 116, 32, 67, 65,
        48, 30, 23, 13, 50, 54, 49, 48, 49, 49, 50, 49, 53, 55, 53, 50,
        90, 23, 13, 51, 54, 49, 48, 48, 56, 50, 49, 53, 55, 53, 50, 90,
        48, 31, 49, 29, 48, 27, 6, 3, 85, 4, 3, 12, 20, 67, 97, 116,
        97, 108, 111, 103, 32, 84, 101, 115, 116, 32, 82, 111, 111, 116, 32, 67,
        65, 48, 89, 48, 19, 6, 7, 42, 134, 72, 206, 61, 2, 1, 6, 8,
        42, 134, 72, 206, 61, 3, 1, 7, 3, 66, 0, 4, 148, 94, 22, 69,
        52, 145, 42, 117, 120, 67, 10, 199, 161, 129, 205, 24, 80, 68, 107, 26,
        214, 99, 18, 194, 245, 221, 134, 179, 121, 118, 70, 101, 196, 31, 139, 173,
        123, 55, 143, 202, 219, 246, 244, 251, 52, 2, 159, 27, 175, 24, 217, 185,
        35, 132, 164, 122, 47, 85, 113, 37, 246, 174, 108, 119, 163, 83, 48, 81,
        48, 29, 6, 3, 85, 29, 14, 4, 22, 4, 20, 249, 118, 148, 74, 204,
        199, 134, 143, 164, 84, 127, 64, 118, 176, 51, 230, 227, 121, 147, 217, 48,
        31, 6, 3, 85, 29, 35, 4, 24, 48, 22, 128, 20, 249, 118, 148, 74,
        204, 199, 134, 143, 164, 84, 127, 64, 118, 176, 51, 230, 227, 121, 147, 217,
        48, 15, 6, 3, 85, 29, 19, 1, 1, 255, 4, 5, 48, 3, 1, 1,
        255, 48, 10, 6, 8, 42, 134, 72, 206, 61, 4, 3, 2, 3, 71, 0,
        48, 68, 2, 32, 49, 202, 192, 88, 80, 88, 100, 125, 253, 206, 206, 178,
        139, 152, 94, 226, 230, 244, 35, 45, 15, 167, 90, 100, 223, 122, 27, 166,
        113, 221, 18, 23, 2, 32, 74, 158, 139, 214, 185, 62, 18, 219, 86, 161,
        14, 87, 171, 210, 85, 172, 4, 149, 152, 98, 223, 192, 30, 200, 138, 22,
        27, 247, 94, 8, 111, 177,
    ]
}

fn cert2_der() -> Vec<u8> {
    vec![
        48, 130, 1, 150, 48, 130, 1, 61, 160, 3, 2, 1, 2, 2, 20, 15,
        199, 98, 203, 149, 143, 247, 166, 197, 85, 22, 140, 254, 199, 45, 201, 155,
        174, 218, 88, 48, 10, 6, 8, 42, 134, 72, 206, 61, 4, 3, 2, 48,
        33, 49, 31, 48, 29, 6, 3, 85, 4, 3, 12, 22, 67, 97, 116, 97,
        108, 111, 103, 32, 84, 101, 115, 116, 32, 83, 101, 99, 111, 110, 100, 32,
        67, 65, 48, 30, 23, 13, 50, 54, 49, 48, 49, 49, 50, 49, 53, 56,
        48, 49, 90, 23, 13, 51, 54, 49, 48, 48, 56, 50, 49, 53, 56, 48,
        49, 90, 48, 33, 49, 31, 48, 29, 6, 3, 85, 4, 3, 12, 22, 67,
        97, 116, 97, 108, 111, 103, 32, 84, 101, 115, 116, 32, 83, 101, 99, 111,
        110, 100, 32, 67, 65, 48, 89, 48, 19, 6, 7, 42, 134, 72, 206, 61,
        2, 1, 6, 8, 42, 134, 72, 206, 61, 3, 1, 7, 3, 66, 0, 4,
        174, 203, 121, 229, 231, 30, 86, 42, 133, 92, 127, 174, 135, 17, 135, 51,
        32, 52, 74, 29, 121, 52, 120, 228, 176, 109, 78, 183, 128, 50, 92, 249,
        11, 163, 161, 202, 197, 41, 115, 79, 56, 130, 180, 4, 111, 38, 216, 131,
        190, 22, 146, 150, 43, 222, 121, 0, 38, 8, 181, 56, 45, 100, 23, 138,
        163, 83, 48, 81, 48, 29, 6, 3, 85, 29, 14, 4, 22, 4, 20, 197,
        238, 203, 118, 102, 59, 142, 54, 24, 74, 230, 34, 74, 58, 248, 243, 158,
        86, 177, 29, 48, 31, 6, 3, 85, 29, 35, 4, 24, 48, 22, 128, 20,
        197, 238, 203, 118, 102, 59, 142, 54, 24, 74, 230, 34, 74, 58, 248, 243,
        158, 86, 177, 29, 48, 15, 6, 3, 85, 29, 19, 1, 1, 255, 4, 5,
        48, 3, 1, 1, 255, 48, 10, 6, 8, 42, 134, 72, 206, 61, 4, 3,
        2, 3, 71, 0, 48, 68, 2, 32, 73, 58, 51, 46, 9, 108, 48, 129,
        214, 21, 78, 1, 125, 71, 95, 55, 137, 40, 217, 109, 62, 214, 143, 187,
        170, 127, 239, 145, 181, 95, 91, 78, 2, 32, 6, 181, 184, 49, 193, 58,
        249, 164, 123, 249, 135, 113, 64, 177, 130, 174, 65, 41, 234, 123, 202, 171,
        228, 63, 21, 92, 35, 248, 19, 248, 245, 197,
    ]
}

fn cert1_kid() -> Vec<u8> {
    vec![77, 22, 17, 207, 158, 236, 4, 221, 16, 239, 1, 147, 217, 225, 55, 113, 211, 27, 142, 228, 128, 129, 30, 111, 166, 151, 96, 194, 127, 229, 1, 250]
}

fn cert2_kid() -> Vec<u8> {
    vec![16, 138, 91, 180, 89, 223, 157, 146, 215, 76, 132, 41, 147, 194, 24, 101, 131, 57, 164, 71, 207, 46, 129, 240, 67, 185, 148, 182, 167, 222, 45, 9]
}

fn cert1_pem() -> Vec<u8> {
    let text = "-----BEGIN CERTIFICATE-----\nMIIBkjCCATmgAwIBAgIUdAOYFdbIX5uY33C9dUGPEZe+NWMwCgYIKoZIzj0EAwIw\nHzEdMBsGA1UEAwwUQ2F0YWxvZyBUZXN0IFJvb3QgQ0EwHhcNMjYxMDExMjE1NzUy\nWhcNMzYxMDA4MjE1NzUyWjAfMR0wGwYDVQQDDBRDYXRhbG9nIFRlc3QgUm9vdCBD\nQTBZMBMGByqGSM49AgEGCCqGSM49AwEHA0IABJReFkU0kSp1eEMKx6GBzRhQRGsa\n1mMSwvXdhrN5dkZlxB+LrXs3j8rb9vT7NAKfG68Y2bkjhKR6L1VxJfaubHejUzBR\nMB0GA1UdDgQWBBT5dpRKzMeGj6RUf0B2sDPm43mT2TAfBgNVHSMEGDAWgBT5dpRK\nzMeGj6RUf0B2sDPm43mT2TAPBgNVHRMBAf8EBTADAQH/MAoGCCqGSM49BAMCA0cA\nMEQCIDHKwFhQWGR9/c7OsouYXuLm9CMtD6daZN96G6Zx3RIXAiBKnovWuT4S21ah\nDler0lWsBJWYYt/AHsiKFhv3XghvsQ==\n-----END CERTIFICATE-----\n";
    text.as_bytes().to_vec()
}

#[test]
fn digest_is_deterministic() {
    let a = AttestationCa::new_from_der(&cert1_der()).unwrap();
    let b = AttestationCa::new_from_der(&cert1_der()).unwrap();
    assert_eq!(a.get_kid().unwrap(), b.get_kid().unwrap());
}

#[test]
fn kid_is_the_sha256_fingerprint() {
    let ca = AttestationCa::new_from_der(&cert1_der()).unwrap();
    assert_eq!(ca.get_kid().unwrap(), cert1_kid());
    let cb = AttestationCa::new_from_der(&cert2_der()).unwrap();
    assert_eq!(cb.get_kid().unwrap(), cert2_kid());
}

#[test]
fn pem_decodes_to_the_same_certificate() {
    let ca = AttestationCa::new_from_pem(&cert1_pem()).unwrap();
    assert_eq!(ca.ca, cert1_der());
    assert_eq!(ca.get_kid().unwrap(), cert1_kid());
    assert!(ca.aaguids.is_empty());
}

#[test]
fn malformed_certificate_is_a_digest_error() {
    let bad = AttestationCa { ca: vec![1, 2, 3], aaguids: Vec::new() };
    assert_eq!(bad.get_kid(), Err(CatalogError::DigestError));
    assert_eq!(
        AttestationCa::new_from_der(&[0u8; 4]).unwrap_err(),
        CatalogError::DigestError
    );
    assert_eq!(
        AttestationCa::new_from_pem(b"not pem").unwrap_err(),
        CatalogError::DigestError
    );
    let mut list = AttestationCaList::new();
    assert!(matches!(list.insert(bad), Err(CatalogError::DigestError)));
    assert!(list.is_empty());
}

#[test]
fn insert_replaces_and_returns_the_old_entry() {
    let mut list = AttestationCaList::new();
    let mut first = AttestationCa::new_from_der(&cert1_der()).unwrap();
    first.insert_aaguid(7);
    assert!(list.insert(first).unwrap().is_none());
    assert!(!list.is_empty());

    let mut second = AttestationCa::new_from_der(&cert1_der()).unwrap();
    second.insert_aaguid(9);
    let prev = list.insert(second).unwrap().expect("same digest must displace");
    assert_eq!(prev.aaguids, vec![7]);
    assert_eq!(list.cas.len(), 1);
    assert_eq!(list.cas[0].0, cert1_kid());
    assert_eq!(list.cas[0].1.aaguids, vec![9]);
}

#[test]
fn from_iter_merges_allow_lists_and_keeps_the_first_certificate() {
    let pairs = vec![
        (cert1_der(), 5u128),
        (cert1_der(), 2u128),
        (cert2_der(), 8u128),
        (cert1_der(), 5u128),
    ];
    let list = AttestationCaList::try_from_iter(pairs).unwrap();
    assert_eq!(list.cas.len(), 2);
    let one = list.cas.iter().find(|(k, _)| *k == cert1_kid()).unwrap();
    assert_eq!(one.1.ca, cert1_der());
    assert_eq!(one.1.aaguids, vec![2, 5]);
    let two = list.cas.iter().find(|(k, _)| *k == cert2_kid()).unwrap();
    assert_eq!(two.1.aaguids, vec![8]);
}

#[test]
fn try_from_iter_rejects_a_bad_certificate() {
    let pairs = vec![(cert1_der(), 1u128), (vec![0u8, 1, 2], 2u128)];
    assert_eq!(
        AttestationCaList::try_from_iter(pairs).unwrap_err(),
        CatalogError::DigestError
    );
}

#[test]
fn allow_list_stays_sorted_and_deduplicated() {
    let mut ca = AttestationCa::new_from_der(&cert1_der()).unwrap();
    ca.insert_aaguid(5);
    ca.insert_aaguid(3);
    ca.insert_aaguid(5);
    assert_eq!(ca.aaguids, vec![3, 5]);
    ca.set_aaguids(vec![1, 2, 4]);
    assert_eq!(ca.aaguids, vec![1, 2, 4]);
}

#[test]
fn serialisable_round_trip() {
    let mut ca = AttestationCa::new_from_der(&cert1_der()).unwrap();
    ca.insert_aaguid(11);
    let stored = ca.into_serialisable();
    assert_eq!(stored.ca, cert1_der());
    assert_eq!(stored.aaguids, vec![11]);
    let back = AttestationCa::from_serialisable(stored).unwrap();
    assert_eq!(back.ca, cert1_der());
    assert_eq!(back.aaguids, vec![11]);
}

#[test]
fn registry_from_one_ca_or_pem() {
    let ca = AttestationCa::new_from_der(&cert2_der()).unwrap();
    let list = AttestationCaList::from_ca(ca).unwrap();
    assert_eq!(list.cas.len(), 1);
    assert_eq!(list.cas[0].0, cert2_kid());

    let list2 = AttestationCaList::from_pem(&cert1_pem()).unwrap();
    assert_eq!(list2.cas.len(), 1);
    assert_eq!(list2.cas[0].0, cert1_kid());

    let empty = AttestationCaList::default();
    assert!(empty.is_empty());
}

#[test]
fn merge_result_does_not_depend_on_pair_order() {
    let forward = vec![
        (cert1_der(), 5u128),
        (cert2_der(), 8u128),
        (cert1_der(), 2u128),
    ];
    let backward = vec![
        (cert1_der(), 2u128),
        (cert2_der(), 8u128),
        (cert1_der(), 5u128),
    ];
    let a = AttestationCaList::try_from_iter(forward).unwrap();
    let b = AttestationCaList::try_from_iter(backward).unwrap();
    assert_eq!(a.cas.len(), b.cas.len());
    for (kid, ca) in &a.cas {
        let other = b.cas.iter().find(|(k, _)| k == kid).unwrap();
        assert_eq!(other.1.ca, ca.ca);
        assert_eq!(other.1.aaguids, ca.aaguids);
    }
}
