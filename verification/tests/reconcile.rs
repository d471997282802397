//! The reconciliation engine: the four join cases, ordering, and the
//! duplicate-feed failure.

use device_catalog::enrichment::EnrichedMds;
use device_catalog::enrichment::Enrichment;
use device_catalog::proto::Device;
use device_catalog::proto::FeedDevice;
use device_catalog::proto::FidoMdsLink;
use device_catalog::proto::Sku;
use device_catalog::CatalogError;

fn feed_device(aaguid: u128, description: &str, certs: Vec<Vec<u8>>) -> FeedDevice {
    FeedDevice {
        aaguid,
        description: description.to_string(),
        attestation_root_certificates: certs,
    }
}

fn local_device(aaguid: u128, link: FidoMdsLink, name: &str, quirks: Vec<&str>) -> Device {
    Device {
        aaguid,
        mds_link: link,
        display_name: name.to_string(),
        quirks: quirks.into_iter().map(|q| q.to_string()).collect(),
        skus: Vec::new(),
        images: Vec::new(),
    }
}

#[test]
fn feed_only_device_is_taken_from_the_feed() {
    // AAGUID X is known to the feed alone.
    let x = 0x10u128;
    let c1 = vec![0xC1u8, 1, 1];
    let feed = vec![feed_device(x, "Token A", vec![c1.clone()])];
    let enrichment = Enrichment::new(Vec::new(), Vec::new());

    let merged = EnrichedMds::try_from(&feed, &enrichment).unwrap();
    let devices = merged.devices();
    assert_eq!(devices.len(), 1);
    assert_eq!(devices[0].aaguid, x);
    assert_eq!(devices[0].display_name, "Token A");
    assert!(devices[0].quirks.is_empty());
    assert_eq!(devices[0].ca, vec![c1.clone()]);

    let catalog = merged.to_mds();
    assert_eq!(catalog.len(), 1);
    assert_eq!(catalog[0].ca, c1);
    assert_eq!(catalog[0].skus.len(), 1);
    assert_eq!(catalog[0].skus[0].aaguid, x);
    assert_eq!(catalog[0].skus[0].display_name, "Token A");
}

#[test]
fn extend_takes_identity_from_the_feed_and_quirks_from_the_record() {
    // AAGUID Y is known to both sources; the record extends the feed entry.
    let y = 0x20u128;
    let c2 = vec![0xC2u8, 2, 2];
    let feed = vec![feed_device(y, "Dongle", vec![c2.clone()])];
    let enrichment = Enrichment::new(
        vec![local_device(y, FidoMdsLink::Extend, "Local Name", vec!["no-pin"])],
        Vec::new(),
    );

    let merged = EnrichedMds::try_from(&feed, &enrichment).unwrap();
    let devices = merged.devices();
    assert_eq!(devices.len(), 1);
    assert_eq!(devices[0].aaguid, y);
    assert_eq!(devices[0].display_name, "Dongle");
    assert_eq!(devices[0].quirks, vec!["no-pin".to_string()]);
    assert_eq!(devices[0].ca, vec![c2]);
}

#[test]
fn clone_keeps_its_own_identity_but_shares_the_feed_anchors() {
    // AAGUID Y is known to both sources; the record clones the feed entry.
    let y = 0x20u128;
    let c2 = vec![0xC2u8, 2, 2];
    let feed = vec![feed_device(y, "Dongle", vec![c2.clone()])];
    let enrichment = Enrichment::new(
        vec![local_device(y, FidoMdsLink::Clone, "Dongle Clone", vec![])],
        Vec::new(),
    );

    let merged = EnrichedMds::try_from(&feed, &enrichment).unwrap();
    let devices = merged.devices();
    assert_eq!(devices.len(), 1);
    assert_eq!(devices[0].aaguid, y);
    assert_eq!(devices[0].display_name, "Dongle Clone");
    assert!(devices[0].quirks.is_empty());
    assert_eq!(devices[0].ca, vec![c2]);
}

#[test]
fn duplicate_feed_aaguid_aborts_the_pass() {
    // AAGUID Z is filed twice in the feed.
    let z = 0x30u128;
    let feed = vec![
        feed_device(z, "First", vec![vec![1u8]]),
        feed_device(z, "Second", vec![vec![2u8]]),
    ];
    let enrichment = Enrichment::new(Vec::new(), Vec::new());
    assert_eq!(
        EnrichedMds::try_from(&feed, &enrichment).unwrap_err(),
        CatalogError::DuplicateFeedAaguid
    );

    // The same duplication fails whatever the enrichment holds.
    let enrichment2 = Enrichment::new(
        vec![local_device(z, FidoMdsLink::Extend, "Any", vec![])],
        Vec::new(),
    );
    assert_eq!(
        EnrichedMds::try_from(&feed, &enrichment2).unwrap_err(),
        CatalogError::DuplicateFeedAaguid
    );
}

#[test]
fn enrichment_only_device_gathers_anchors_from_its_skus() {
    // AAGUID W is known locally alone, with two SKUs carrying one CA each.
    let w = 0x40u128;
    let c3 = vec![0xC3u8, 3];
    let c4 = vec![0xC4u8, 4];
    let mut dev = local_device(w, FidoMdsLink::Extend, "Local Only", vec![]);
    dev.skus = vec![
        Sku { attestation_cas: vec![c3.clone()] },
        Sku { attestation_cas: vec![c4.clone()] },
    ];
    let enrichment = Enrichment::new(vec![dev], Vec::new());

    let merged = EnrichedMds::try_from(&Vec::new(), &enrichment).unwrap();
    let devices = merged.devices();
    assert_eq!(devices.len(), 1);
    assert_eq!(devices[0].aaguid, w);
    assert_eq!(devices[0].ca, vec![c3.clone(), c4.clone()]);

    let catalog = merged.to_mds();
    assert_eq!(catalog.len(), 2);
    for authority in &catalog {
        assert_eq!(authority.skus.len(), 1);
        assert_eq!(authority.skus[0].aaguid, w);
        assert_eq!(authority.skus[0].display_name, "Local Only");
    }
    assert_eq!(catalog[0].ca, c3);
    assert_eq!(catalog[1].ca, c4);
}

#[test]
fn output_is_ordered_by_aaguid_and_covers_both_sources() {
    let feed = vec![feed_device(9, "Feed Nine", vec![])];
    let enrichment = Enrichment::new(
        vec![
            local_device(4, FidoMdsLink::Extend, "Local Four", vec![]),
            local_device(4, FidoMdsLink::Extend, "Local Four Again", vec![]),
        ],
        Vec::new(),
    );
    let merged = EnrichedMds::try_from(&feed, &enrichment).unwrap();
    let devices = merged.devices();
    // Every AAGUID of the union is represented, keys ascending, local
    // records in load order under their key.
    assert_eq!(devices.len(), 3);
    assert_eq!(devices[0].aaguid, 4);
    assert_eq!(devices[0].display_name, "Local Four");
    assert_eq!(devices[1].aaguid, 4);
    assert_eq!(devices[1].display_name, "Local Four Again");
    assert_eq!(devices[2].aaguid, 9);
    assert_eq!(devices[2].display_name, "Feed Nine");
}

#[test]
fn several_local_records_under_one_feed_entry() {
    let y = 0x21u128;
    let c = vec![0xCCu8];
    let feed = vec![feed_device(y, "Feed Name", vec![c.clone()])];
    let enrichment = Enrichment::new(
        vec![
            local_device(y, FidoMdsLink::Extend, "Annotation", vec!["a"]),
            local_device(y, FidoMdsLink::Clone, "Rebadge", vec!["b"]),
        ],
        Vec::new(),
    );
    let merged = EnrichedMds::try_from(&feed, &enrichment).unwrap();
    let devices = merged.devices();
    assert_eq!(devices.len(), 2);
    assert_eq!(devices[0].display_name, "Feed Name");
    assert_eq!(devices[0].quirks, vec!["a".to_string()]);
    assert_eq!(devices[1].display_name, "Rebadge");
    assert_eq!(devices[1].quirks, vec!["b".to_string()]);
    assert_eq!(devices[0].ca, vec![c.clone()]);
    assert_eq!(devices[1].ca, vec![c]);
}

#[test]
fn the_filter_restricts_the_key_union() {
    let z = 0x30u128;
    let x = 0x10u128;
    let feed = vec![
        feed_device(x, "Kept", vec![]),
        feed_device(z, "Dup", vec![]),
        feed_device(z, "Dup", vec![]),
    ];
    let enrichment = Enrichment::new(Vec::new(), Vec::new());
    // Unfiltered, the duplicated key aborts the pass.
    assert!(EnrichedMds::try_from(&feed, &enrichment).is_err());
    // Restricted to X, the duplication is never reached.
    let merged = EnrichedMds::try_from_filtered(&feed, &enrichment, &vec![x]).unwrap();
    let devices = merged.devices();
    assert_eq!(devices.len(), 1);
    assert_eq!(devices[0].aaguid, x);
}
