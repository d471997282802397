//! The quirk and authority projections.

use device_catalog::enrichment::EnrichedMds;
use device_catalog::enrichment::Enrichment;
use device_catalog::proto::Device;
use device_catalog::proto::FeedDevice;
use device_catalog::proto::FidoMdsLink;

fn quirky_device(aaguid: u128, quirks: Vec<&str>) -> Device {
    Device {
        aaguid,
        mds_link: FidoMdsLink::Extend,
        display_name: "Quirky".to_string(),
        quirks: quirks.into_iter().map(|q| q.to_string()).collect(),
        skus: Vec::new(),
        images: Vec::new(),
    }
}

#[test]
fn quirkless_devices_never_become_keys() {
    let enrichment = Enrichment::new(
        vec![
            quirky_device(1, vec![]),
            quirky_device(2, vec!["late-set"]),
            quirky_device(3, vec![]),
        ],
        Vec::new(),
    );
    let quirks = enrichment.to_quirks();
    assert_eq!(quirks.len(), 1);
    assert_eq!(quirks[0].aaguid, 2);
    assert_eq!(quirks[0].quirks, vec!["late-set".to_string()]);
}

#[test]
fn quirks_of_one_aaguid_are_unioned() {
    let enrichment = Enrichment::new(
        vec![
            quirky_device(7, vec!["a", "b"]),
            quirky_device(9, vec!["z"]),
            quirky_device(7, vec!["b", "c"]),
        ],
        Vec::new(),
    );
    let quirks = enrichment.to_quirks();
    assert_eq!(quirks.len(), 2);
    assert_eq!(quirks[0].aaguid, 7);
    assert_eq!(
        quirks[0].quirks,
        vec!["a".to_string(), "b".to_string(), "c".to_string()]
    );
    assert_eq!(quirks[1].aaguid, 9);
    assert_eq!(quirks[1].quirks, vec!["z".to_string()]);
}

#[test]
fn empty_store_projects_to_an_empty_quirk_map() {
    let enrichment = Enrichment::new(Vec::new(), Vec::new());
    assert!(enrichment.to_quirks().is_empty());
}

fn feed_device(aaguid: u128, description: &str, certs: Vec<Vec<u8>>) -> FeedDevice {
    FeedDevice {
        aaguid,
        description: description.to_string(),
        attestation_root_certificates: certs,
    }
}

#[test]
fn each_referenced_ca_owns_exactly_one_authority() {
    let shared = vec![0xAAu8];
    let only = vec![0xBBu8];
    let feed = vec![
        feed_device(1, "One", vec![shared.clone()]),
        feed_device(2, "Two", vec![shared.clone(), only.clone()]),
    ];
    let enrichment = Enrichment::new(Vec::new(), Vec::new());
    let merged = EnrichedMds::try_from(&feed, &enrichment).unwrap();
    let catalog = merged.to_mds();

    assert_eq!(catalog.len(), 2);
    let shared_authority = catalog.iter().find(|a| a.ca == shared).unwrap();
    assert_eq!(shared_authority.skus.len(), 2);
    assert_eq!(shared_authority.skus[0].display_name, "One");
    assert_eq!(shared_authority.skus[1].display_name, "Two");
    let only_authority = catalog.iter().find(|a| a.ca == only).unwrap();
    assert_eq!(only_authority.skus.len(), 1);
    assert_eq!(only_authority.skus[0].display_name, "Two");
}

#[test]
fn a_device_without_anchors_joins_no_authority() {
    let feed = vec![feed_device(5, "Anchorless", Vec::new())];
    let enrichment = Enrichment::new(Vec::new(), Vec::new());
    let merged = EnrichedMds::try_from(&feed, &enrichment).unwrap();
    assert_eq!(merged.devices().len(), 1);
    assert!(merged.to_mds().is_empty());
}

#[test]
fn repeated_anchors_of_one_device_keep_their_repeats() {
    let ca = vec![0xEEu8];
    let feed = vec![feed_device(6, "Twice", vec![ca.clone(), ca.clone()])];
    let enrichment = Enrichment::new(Vec::new(), Vec::new());
    let merged = EnrichedMds::try_from(&feed, &enrichment).unwrap();
    let catalog = merged.to_mds();
    assert_eq!(catalog.len(), 1);
    assert_eq!(catalog[0].skus.len(), 2);
}
