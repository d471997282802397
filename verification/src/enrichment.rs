//! The reconciliation engine and its projections.
//!
//! The engine joins the upstream feed and the local enrichment store over
//! their AAGUIDs: the union of the two key sets is walked in ascending
//! order, each key is classified (feed-only, enrichment-only, or both,
//! with the record's linkage policy deciding the "both" case), and one
//! enriched device is emitted per source record. A duplicated feed AAGUID
//! aborts the whole pass. The enriched list is then re-projected from
//! AAGUID-keyed to CA-keyed form by the authority projector; the quirks
//! projector maps the raw enrichment store on its own.

use vstd::prelude::*;

use crate::keymap::al_contains;
use crate::keymap::al_get;
use crate::keymap::al_unique_keys;
use crate::keymap::al_update;
use crate::keymap::insert_sorted;
use crate::keymap::key_eq;
use crate::keymap::lemma_al_absent;
use crate::keymap::lemma_al_get_at;
use crate::keymap::lemma_al_update_at;
use crate::keymap::lemma_al_update_props;
use crate::keymap::lemma_seq_insert_sorted_props;
use crate::keymap::seq_insert_sorted;
use crate::keymap::slice_to_vec;
use crate::keymap::sorted_unique;
use crate::proto::Device;
use crate::proto::FeedDevice;
use crate::proto::FidoMdsLink;
use crate::proto::Manufacturer;
use crate::proto::Sku;
use crate::CatalogError;

verus! {

/// Mathematical content of one enriched device: its AAGUID, display name,
/// quirk tags, and the certificates anchoring it.
#[verifier::ext_equal]
pub ghost struct EdModel {
    pub aaguid: u128,
    pub display_name: Seq<char>,
    pub quirks: Seq<Seq<char>>,
    pub cas: Seq<Seq<u8>>,
}

/// The character content of a list of strings.
pub open spec fn strs_view(s: Seq<String>) -> Seq<Seq<char>>
    decreases s.len(),
{
    if s.len() == 0 {
        Seq::empty()
    } else {
        strs_view(s.drop_last()).push(s.last()@)
    }
}

/// The byte content of a list of byte vectors.
pub open spec fn bytes_view(s: Seq<Vec<u8>>) -> Seq<Seq<u8>>
    decreases s.len(),
{
    if s.len() == 0 {
        Seq::empty()
    } else {
        bytes_view(s.drop_last()).push(s.last()@)
    }
}

/// Appending a vector appends its bytes to the view.
pub proof fn lemma_bytes_view_push(s: Seq<Vec<u8>>, x: Vec<u8>)
    ensures
        bytes_view(s.push(x)) == bytes_view(s).push(x@),
{
    assert((s.push(x)).drop_last() =~= s);
    assert(s.push(x).last() == x);
}

/// The view keeps lengths and per-index content.
pub proof fn lemma_bytes_view_index(s: Seq<Vec<u8>>)
    ensures
        bytes_view(s).len() == s.len(),
        forall|i: int| 0 <= i < s.len() ==> bytes_view(s)[i] == s[i]@,
    decreases s.len(),
{
    if s.len() > 0 {
        lemma_bytes_view_index(s.drop_last());
        assert forall|i: int| 0 <= i < s.len() implies bytes_view(s)[i] == s[i]@ by {
            if i < s.len() - 1 {
                assert(bytes_view(s)[i] == bytes_view(s.drop_last())[i]);
                assert(s.drop_last()[i] == s[i]);
            }
        }
    }
}

/// The feed records filed under `a`, in feed order.
pub open spec fn feed_for(feed: Seq<FeedDevice>, a: u128) -> Seq<FeedDevice>
    decreases feed.len(),
{
    if feed.len() == 0 {
        Seq::empty()
    } else {
        let prev = feed_for(feed.drop_last(), a);
        if feed.last().aaguid == a {
            prev.push(feed.last())
        } else {
            prev
        }
    }
}

/// The enrichment records filed under `a`, in store order.
pub open spec fn devs_for(devs: Seq<Device>, a: u128) -> Seq<Device>
    decreases devs.len(),
{
    if devs.len() == 0 {
        Seq::empty()
    } else {
        let prev = devs_for(devs.drop_last(), a);
        if devs.last().aaguid == a {
            prev.push(devs.last())
        } else {
            prev
        }
    }
}

/// Every CA of every SKU of an enrichment record, flattened in order.
pub open spec fn sku_cas(skus: Seq<Sku>) -> Seq<Seq<u8>>
    decreases skus.len(),
{
    if skus.len() == 0 {
        Seq::empty()
    } else {
        sku_cas(skus.drop_last()) + bytes_view(skus.last().attestation_cas@)
    }
}

/// The device emitted for a feed record with no enrichment: the feed's
/// identity, no quirks, the feed's trust anchors.
pub open spec fn feed_entry_model(f: FeedDevice) -> EdModel {
    EdModel {
        aaguid: f.aaguid,
        display_name: f.description@,
        quirks: Seq::empty(),
        cas: bytes_view(f.attestation_root_certificates@),
    }
}

/// The device emitted for an enrichment record with no feed entry: the
/// local identity and quirks, with trust anchors gathered from its SKUs.
pub open spec fn enrich_entry_model(d: Device) -> EdModel {
    EdModel {
        aaguid: d.aaguid,
        display_name: d.display_name@,
        quirks: strs_view(d.quirks@),
        cas: sku_cas(d.skus@),
    }
}

/// The device emitted when feed and enrichment meet: under `Extend` the
/// feed is authoritative for identity and the local record only annotates
/// quirks; under `Clone` the local record keeps its own identity but
/// shares the feed entry's trust anchors.
pub open spec fn both_entry_model(f: FeedDevice, d: Device) -> EdModel {
    match d.mds_link {
        FidoMdsLink::Extend => EdModel {
            aaguid: f.aaguid,
            display_name: f.description@,
            quirks: strs_view(d.quirks@),
            cas: bytes_view(f.attestation_root_certificates@),
        },
        FidoMdsLink::Clone => EdModel {
            aaguid: d.aaguid,
            display_name: d.display_name@,
            quirks: strs_view(d.quirks@),
            cas: bytes_view(f.attestation_root_certificates@),
        },
    }
}

/// The devices emitted for the enrichment records `s`, each combined with
/// the one feed record `f`.
pub open spec fn both_entries(f: FeedDevice, s: Seq<Device>) -> Seq<EdModel>
    decreases s.len(),
{
    if s.len() == 0 {
        Seq::empty()
    } else {
        both_entries(f, s.drop_last()).push(both_entry_model(f, s.last()))
    }
}

/// The devices emitted for the enrichment records `s` on their own.
pub open spec fn enrich_entries(s: Seq<Device>) -> Seq<EdModel>
    decreases s.len(),
{
    if s.len() == 0 {
        Seq::empty()
    } else {
        enrich_entries(s.drop_last()).push(enrich_entry_model(s.last()))
    }
}

/// The devices emitted for one AAGUID, assuming the feed holds at most
/// one record for it.
pub open spec fn emitted_for(feed: Seq<FeedDevice>, devs: Seq<Device>, a: u128) -> Seq<EdModel> {
    let fs = feed_for(feed, a);
    let es = devs_for(devs, a);
    if fs.len() > 0 && es.len() > 0 {
        both_entries(fs[0], es)
    } else if fs.len() > 0 {
        seq![feed_entry_model(fs[0])]
    } else {
        enrich_entries(es)
    }
}

/// The whole reconciliation output: the per-key emissions concatenated in
/// key order.
pub open spec fn reconcile_all(feed: Seq<FeedDevice>, devs: Seq<Device>, keys: Seq<u128>) -> Seq<
    EdModel,
>
    decreases keys.len(),
{
    if keys.len() == 0 {
        Seq::empty()
    } else {
        reconcile_all(feed, devs, keys.drop_last()) + emitted_for(feed, devs, keys.last())
    }
}

/// Whether the optional allow-list accepts `a`; no list accepts
/// everything.
pub open spec fn allowed(allow: Option<Seq<u128>>, a: u128) -> bool {
    match allow {
        Option::None => true,
        Option::Some(l) => l.contains(a),
    }
}

/// The AAGUIDs accepted from `s`, collected into ascending order without
/// duplicates.
pub open spec fn collect_keys(s: Seq<u128>, allow: Option<Seq<u128>>) -> Seq<u128>
    decreases s.len(),
{
    if s.len() == 0 {
        Seq::empty()
    } else {
        let prev = collect_keys(s.drop_last(), allow);
        if allowed(allow, s.last()) {
            seq_insert_sorted(prev, s.last())
        } else {
            prev
        }
    }
}

/// Every AAGUID either source mentions, feed first.
pub open spec fn aaguids_of(feed: Seq<FeedDevice>, devs: Seq<Device>) -> Seq<u128> {
    feed.map_values(|f: FeedDevice| f.aaguid) + devs.map_values(|d: Device| d.aaguid)
}

/// The reconciliation's key union: the accepted AAGUIDs of both sources,
/// ascending and duplicate-free.
pub open spec fn union_keys(
    feed: Seq<FeedDevice>,
    devs: Seq<Device>,
    allow: Option<Seq<u128>>,
) -> Seq<u128> {
    collect_keys(aaguids_of(feed, devs), allow)
}

/// The feed holds at most one record for each of the given keys.
pub open spec fn feed_unique_on(feed: Seq<FeedDevice>, keys: Seq<u128>) -> bool {
    forall|i: int| 0 <= i < keys.len() ==> feed_for(feed, #[trigger] keys[i]).len() <= 1
}

/// The mathematical content of an optional allow-list argument.
pub open spec fn allow_view(allow: Option<&Vec<u128>>) -> Option<Seq<u128>> {
    match allow {
        Option::None => Option::None,
        Option::Some(l) => Option::Some(l@),
    }
}

/// The in-memory enrichment store: the locally authored device records
/// and manufacturer records, in load order.
pub struct Enrichment {
    devices: Vec<Device>,
    manufacturers: Vec<Manufacturer>,
}

impl Enrichment {
    /// The device records, in load order.
    pub closed spec fn spec_devices(self) -> Seq<Device> {
        self.devices@
    }

    /// The manufacturer records, in load order.
    pub closed spec fn spec_manufacturers(self) -> Seq<Manufacturer> {
        self.manufacturers@
    }

    /// Assemble the store from already-loaded records.
    pub fn new(devices: Vec<Device>, manufacturers: Vec<Manufacturer>) -> (r: Self)
        ensures
            r.spec_devices() == devices@,
            r.spec_manufacturers() == manufacturers@,
    {
        Enrichment { devices, manufacturers }
    }

    /// The device records, in load order.
    pub fn devices(&self) -> (r: &Vec<Device>)
        ensures
            r@ == self.spec_devices(),
    {
        &self.devices
    }

    /// The manufacturer records, in load order.
    pub fn manufacturers(&self) -> (r: &Vec<Manufacturer>)
        ensures
            r@ == self.spec_manufacturers(),
    {
        &self.manufacturers
    }

    /// Project the raw device records into the quirks index: one entry
    /// per AAGUID with at least one quirked record, in first-sight order,
    /// carrying the union of those records' quirk tags. Devices with an
    /// empty quirk set contribute nothing.
    pub fn to_quirks(&self) -> (r: Vec<QuirkEntry>)
        ensures
            qm_view(r@) == quirk_map_model(self.spec_devices()),
            al_unique_keys(qm_view(r@)),
    {
        let ghost dseq = self.spec_devices();
        let mut out: Vec<QuirkEntry> = Vec::new();
        let mut i: usize = 0;
        proof {
            assert(qm_view(out@) =~= Seq::<(u128, Seq<Seq<char>>)>::empty());
            assert(dseq.take(0) =~= Seq::<Device>::empty());
        }
        while i < self.devices.len()
            invariant
                0 <= i <= dseq.len(),
                dseq == self.spec_devices(),
                qm_view(out@) == quirk_map_model(dseq.take(i as int)),
                al_unique_keys(qm_view(out@)),
            decreases dseq.len() - i,
        {
            let ghost q0 = qm_view(out@);
            proof {
                assert(dseq.take(i + 1).drop_last() =~= dseq.take(i as int));
                assert(dseq.take(i + 1).last() == dseq[i as int]);
            }
            let dev = &self.devices[i];
            if dev.quirks.len() > 0 {
                let a = dev.aaguid;
                let mut t: usize = 0;
                while t < out.len() && out[t].aaguid != a
                    invariant
                        0 <= t <= out@.len(),
                        q0 == qm_view(out@),
                        forall|n: int| 0 <= n < t ==> qm_view(out@)[n].0 != a,
                    decreases out@.len() - t,
                {
                    proof {
                        lemma_qm_view_index(out@);
                    }
                    t = t + 1;
                }
                proof {
                    lemma_qm_view_index(out@);
                }
                if t < out.len() {
                    proof {
                        assert(q0[t as int].0 == a);
                        lemma_al_get_at(q0, t as int);
                    }
                    let mut entry = out.remove(t);
                    proof {
                        assert(strs_view(entry.quirks@) == al_get(q0, a));
                    }
                    union_quirk_vec(&mut entry.quirks, &dev.quirks);
                    let ghost newv = strs_view(entry.quirks@);
                    proof {
                        assert(newv == union_quirks(al_get(q0, a), dseq[i as int].quirks@));
                        lemma_al_update_at(q0, t as int, newv);
                        lemma_al_update_props(q0, a, newv);
                    }
                    out.insert(t, entry);
                    proof {
                        lemma_qm_view_index(out@);
                        assert(qm_view(out@) =~= q0.update(t as int, (a, newv)));
                        assert(qm_view(out@) =~= al_update(q0, a, newv));
                        assert(qm_view(out@) == quirk_map_model(dseq.take(i + 1)));
                    }
                } else {
                    proof {
                        lemma_al_absent(q0, a);
                    }
                    let mut quirks: Vec<String> = Vec::new();
                    proof {
                        assert(strs_view(quirks@) =~= Seq::<Seq<char>>::empty());
                    }
                    union_quirk_vec(&mut quirks, &dev.quirks);
                    let entry = QuirkEntry { aaguid: a, quirks: quirks };
                    proof {
                        assert(strs_view(entry.quirks@) == union_quirks(
                            Seq::empty(),
                            dseq[i as int].quirks@,
                        ));
                        lemma_qm_view_index(out@);
                    }
                    out.push(entry);
                    proof {
                        lemma_qm_view_index(out@);
                        assert(qm_view(out@) =~= q0.push(
                            (a, union_quirks(Seq::empty(), dseq[i as int].quirks@)),
                        ));
                        assert(qm_view(out@) == quirk_map_model(dseq.take(i + 1)));
                        assert(al_unique_keys(qm_view(out@))) by {
                            let m1 = qm_view(out@);
                            assert forall|p: int, q: int| 0 <= p < q < m1.len() implies m1[p].0
                                != m1[q].0 by {
                                if q == m1.len() - 1 {
                                    assert(m1[p] == q0[p]);
                                }
                            }
                        }
                    }
                }
            } else {
                proof {
                    assert(quirk_map_model(dseq.take(i + 1)) == q0);
                }
            }
            i = i + 1;
        }
        proof {
            assert(dseq.take(dseq.len() as int) =~= dseq);
        }
        out
    }
}

/// One merged device: produced only by the reconciliation, and consumed
/// by the authority projector.
#[derive(Debug, Clone)]
pub struct EnrichedDevice {
    /// The device's identifier.
    pub aaguid: u128,
    /// The device's display name.
    pub display_name: String,
    /// Behavioural annotation tags.
    pub quirks: Vec<String>,
    /// The certificates (DER bytes) this device is anchored to.
    pub ca: Vec<Vec<u8>>,
}

impl EnrichedDevice {
    /// The device's mathematical content.
    pub open spec fn model(self) -> EdModel {
        EdModel {
            aaguid: self.aaguid,
            display_name: self.display_name@,
            quirks: strs_view(self.quirks@),
            cas: bytes_view(self.ca@),
        }
    }
}

/// The content of a list of enriched devices.
pub open spec fn eds_view(s: Seq<EnrichedDevice>) -> Seq<EdModel>
    decreases s.len(),
{
    if s.len() == 0 {
        Seq::empty()
    } else {
        eds_view(s.drop_last()).push(s.last().model())
    }
}

/// Appending a device appends its content to the view.
pub proof fn lemma_eds_view_push(s: Seq<EnrichedDevice>, d: EnrichedDevice)
    ensures
        eds_view(s.push(d)) == eds_view(s).push(d.model()),
{
    assert((s.push(d)).drop_last() =~= s);
    assert(s.push(d).last() == d);
}

/// The reconciliation output: the merged device list, in ascending AAGUID
/// order.
#[derive(Debug)]
pub struct EnrichedMds {
    devices: Vec<EnrichedDevice>,
}

/// Copy a byte vector.
fn clone_bytes(v: &Vec<u8>) -> (r: Vec<u8>)
    ensures
        r@ == v@,
{
    slice_to_vec(v.as_slice())
}

/// Copy a list of strings, keeping each string's value.
fn clone_strings(v: &Vec<String>) -> (r: Vec<String>)
    ensures
        r@ == v@,
{
    let mut r: Vec<String> = Vec::new();
    let mut i: usize = 0;
    while i < v.len()
        invariant
            0 <= i <= v@.len(),
            r@ == v@.take(i as int),
        decreases v@.len() - i,
    {
        r.push(v[i].clone());
        proof {
            assert(r@ =~= v@.take(i + 1));
        }
        i = i + 1;
    }
    proof {
        assert(v@.take(v@.len() as int) =~= v@);
    }
    r
}

/// Copy a list of certificates, keeping each one's bytes.
fn clone_cert_list(v: &Vec<Vec<u8>>) -> (r: Vec<Vec<u8>>)
    ensures
        bytes_view(r@) == bytes_view(v@),
{
    let mut r: Vec<Vec<u8>> = Vec::new();
    let mut i: usize = 0;
    proof {
        assert(v@.take(0) =~= Seq::<Vec<u8>>::empty());
    }
    while i < v.len()
        invariant
            0 <= i <= v@.len(),
            bytes_view(r@) == bytes_view(v@.take(i as int)),
        decreases v@.len() - i,
    {
        let c = clone_bytes(&v[i]);
        proof {
            lemma_bytes_view_push(r@, c);
            assert(v@.take(i + 1).drop_last() =~= v@.take(i as int));
            assert(v@.take(i + 1).last() == v@[i as int]);
        }
        r.push(c);
        proof {
            assert(bytes_view(r@) =~= bytes_view(v@.take(i + 1)));
        }
        i = i + 1;
    }
    proof {
        assert(v@.take(v@.len() as int) =~= v@);
    }
    r
}

/// Gather every SKU's CA list of one enrichment record, flattened in
/// order.
fn flatten_sku_cas(skus: &Vec<Sku>) -> (r: Vec<Vec<u8>>)
    ensures
        bytes_view(r@) == sku_cas(skus@),
{
    let mut r: Vec<Vec<u8>> = Vec::new();
    let mut i: usize = 0;
    proof {
        assert(bytes_view(r@) =~= sku_cas(skus@.take(0)));
    }
    while i < skus.len()
        invariant
            0 <= i <= skus@.len(),
            bytes_view(r@) == sku_cas(skus@.take(i as int)),
        decreases skus@.len() - i,
    {
        let ghost pre = bytes_view(r@);
        let cas = &skus[i].attestation_cas;
        let mut j: usize = 0;
        proof {
            assert(cas@.take(0) =~= Seq::<Vec<u8>>::empty());
            assert(pre + bytes_view(cas@.take(0)) =~= pre);
        }
        while j < cas.len()
            invariant
                0 <= j <= cas@.len(),
                i < skus@.len(),
                cas@ == skus@[i as int].attestation_cas@,
                bytes_view(r@) == pre + bytes_view(cas@.take(j as int)),
            decreases cas@.len() - j,
        {
            let c = clone_bytes(&cas[j]);
            proof {
                lemma_bytes_view_push(r@, c);
                assert(cas@.take(j + 1).drop_last() =~= cas@.take(j as int));
                assert(cas@.take(j + 1).last() == cas@[j as int]);
                assert(bytes_view(cas@.take(j + 1)) == bytes_view(cas@.take(j as int)).push(
                    cas@[j as int]@,
                ));
            }
            r.push(c);
            proof {
                assert(bytes_view(r@) =~= pre + bytes_view(cas@.take(j + 1)));
            }
            j = j + 1;
        }
        proof {
            assert(cas@.take(cas@.len() as int) =~= cas@);
            assert(skus@.take(i + 1).drop_last() =~= skus@.take(i as int));
            assert(skus@.take(i + 1).last() == skus@[i as int]);
            assert(bytes_view(r@) =~= sku_cas(skus@.take(i + 1)));
        }
        i = i + 1;
    }
    proof {
        assert(skus@.take(skus@.len() as int) =~= skus@);
    }
    r
}

/// Whether the optional allow-list accepts `a`.
fn allowed_exec(allow: Option<&Vec<u128>>, a: u128) -> (r: bool)
    ensures
        r == allowed(allow_view(allow), a),
{
    match allow {
        Option::None => true,
        Option::Some(list) => {
            let mut i: usize = 0;
            while i < list.len()
                invariant
                    0 <= i <= list@.len(),
                    allow_view(allow) == Option::Some(list@),
                    forall|j: int| 0 <= j < i ==> list@[j] != a,
                decreases list@.len() - i,
            {
                if list[i] == a {
                    proof {
                        assert(list@.contains(a)) by {
                            assert(list@[i as int] == a);
                        }
                    }
                    return true;
                }
                i = i + 1;
            }
            proof {
                if list@.contains(a) {
                    let j = choose|j: int| 0 <= j < list@.len() && list@[j] == a;
                    assert(false);
                }
            }
            false
        },
    }
}

/// A feed record filed under `a` and preceded by no other makes it the
/// head of `feed_for`.
proof fn lemma_feed_for_first(feed: Seq<FeedDevice>, a: u128, idx: int)
    requires
        0 <= idx < feed.len(),
        feed[idx].aaguid == a,
        forall|n: int| 0 <= n < idx ==> feed[n].aaguid != a,
    ensures
        feed_for(feed, a).len() >= 1,
        feed_for(feed, a)[0] == feed[idx],
    decreases feed.len(),
{
    if idx == feed.len() - 1 {
        lemma_feed_for_none(feed.drop_last(), a);
    } else {
        lemma_feed_for_first(feed.drop_last(), a, idx);
    }
}

/// With no record filed under `a`, nothing is selected.
proof fn lemma_feed_for_none(feed: Seq<FeedDevice>, a: u128)
    requires
        forall|n: int| 0 <= n < feed.len() ==> feed[n].aaguid != a,
    ensures
        feed_for(feed, a).len() == 0,
    decreases feed.len(),
{
    if feed.len() > 0 {
        lemma_feed_for_none(feed.drop_last(), a);
    }
}

impl EnrichedMds {
    /// The output's mathematical content.
    pub closed spec fn model(self) -> Seq<EdModel> {
        eds_view(self.devices@)
    }

    /// The merged devices, in emission order.
    pub fn devices(&self) -> (r: &Vec<EnrichedDevice>)
        ensures
            eds_view(r@) == self.model(),
    {
        &self.devices
    }

    /// Reconcile the upstream feed with the enrichment store.
    ///
    /// The output holds, for each AAGUID in the union of both key sets in
    /// ascending order, the devices `emitted_for` describes; the pass
    /// fails, producing nothing, exactly where the feed files more than
    /// one record under one of those AAGUIDs.
    pub fn try_from(fido: &Vec<FeedDevice>, enrichment: &Enrichment) -> (r: Result<
        EnrichedMds,
        CatalogError,
    >)
        ensures
            r is Ok <==> feed_unique_on(
                fido@,
                union_keys(fido@, enrichment.spec_devices(), Option::None),
            ),
            r is Ok ==> r->Ok_0.model() == reconcile_all(
                fido@,
                enrichment.spec_devices(),
                union_keys(fido@, enrichment.spec_devices(), Option::None),
            ),
            r is Err ==> r->Err_0 == CatalogError::DuplicateFeedAaguid,
    {
        Self::reconcile(fido, enrichment, Option::None)
    }

    /// Reconcile, restricted to an explicit AAGUID allow-list.
    pub fn try_from_filtered(
        fido: &Vec<FeedDevice>,
        enrichment: &Enrichment,
        allow: &Vec<u128>,
    ) -> (r: Result<EnrichedMds, CatalogError>)
        ensures
            r is Ok <==> feed_unique_on(
                fido@,
                union_keys(fido@, enrichment.spec_devices(), Option::Some(allow@)),
            ),
            r is Ok ==> r->Ok_0.model() == reconcile_all(
                fido@,
                enrichment.spec_devices(),
                union_keys(fido@, enrichment.spec_devices(), Option::Some(allow@)),
            ),
            r is Err ==> r->Err_0 == CatalogError::DuplicateFeedAaguid,
    {
        Self::reconcile(fido, enrichment, Option::Some(allow))
    }

    /// The reconciliation pass, with an optional key filter applied
    /// before the union is formed.
    pub fn reconcile(
        fido: &Vec<FeedDevice>,
        enrichment: &Enrichment,
        allow: Option<&Vec<u128>>,
    ) -> (r: Result<EnrichedMds, CatalogError>)
        ensures
            r is Ok <==> feed_unique_on(
                fido@,
                union_keys(fido@, enrichment.spec_devices(), allow_view(allow)),
            ),
            r is Ok ==> r->Ok_0.model() == reconcile_all(
                fido@,
                enrichment.spec_devices(),
                union_keys(fido@, enrichment.spec_devices(), allow_view(allow)),
            ),
            r is Err ==> r->Err_0 == CatalogError::DuplicateFeedAaguid,
    {
        let ghost av = allow_view(allow);
        let ghost dseq = enrichment.spec_devices();
        let ghost s_all = aaguids_of(fido@, dseq);

        // Phase 1: the key union, ascending and duplicate-free.
        let mut keys: Vec<u128> = Vec::new();
        proof {
            assert(s_all.take(0) =~= Seq::<u128>::empty());
            assert(keys@ == collect_keys(s_all.take(0), av));
        }
        let mut i: usize = 0;
        while i < fido.len()
            invariant
                0 <= i <= fido@.len(),
                dseq == enrichment.spec_devices(),
                s_all == aaguids_of(fido@, dseq),
                av == allow_view(allow),
                keys@ == collect_keys(s_all.take(i as int), av),
                sorted_unique(keys@),
            decreases fido@.len() - i,
        {
            let a = fido[i].aaguid;
            proof {
                assert(s_all.take(i + 1).drop_last() =~= s_all.take(i as int));
                assert(s_all[i as int] == fido@[i as int].aaguid);
                assert(s_all.take(i + 1).last() == a);
            }
            if allowed_exec(allow, a) {
                proof {
                    lemma_seq_insert_sorted_props(keys@, a);
                }
                insert_sorted(&mut keys, a);
            }
            i = i + 1;
        }
        let mut i2: usize = 0;
        while i2 < enrichment.devices.len()
            invariant
                0 <= i2 <= dseq.len(),
                dseq == enrichment.spec_devices(),
                s_all == aaguids_of(fido@, dseq),
                av == allow_view(allow),
                keys@ == collect_keys(s_all.take(fido@.len() + i2), av),
                sorted_unique(keys@),
            decreases dseq.len() - i2,
        {
            let a = enrichment.devices[i2].aaguid;
            proof {
                assert(s_all.take(fido@.len() + i2 + 1).drop_last() =~= s_all.take(
                    fido@.len() + i2,
                ));
                assert(s_all[fido@.len() + i2] == dseq[i2 as int].aaguid);
                assert(s_all.take(fido@.len() + i2 + 1).last() == a);
            }
            if allowed_exec(allow, a) {
                proof {
                    lemma_seq_insert_sorted_props(keys@, a);
                }
                insert_sorted(&mut keys, a);
            }
            i2 = i2 + 1;
        }
        proof {
            assert(s_all.take(s_all.len() as int) =~= s_all);
            assert(keys@ == union_keys(fido@, dseq, av));
        }
        let ghost keys_g = keys@;

        // Phase 2: walk the union in ascending order, emitting per key.
        let mut out: Vec<EnrichedDevice> = Vec::new();
        proof {
            assert(keys_g.take(0) =~= Seq::<u128>::empty());
            assert(eds_view(out@) =~= reconcile_all(fido@, dseq, keys_g.take(0)));
        }
        let mut ki: usize = 0;
        while ki < keys.len()
            invariant
                0 <= ki <= keys_g.len(),
                keys@ == keys_g,
                dseq == enrichment.spec_devices(),
                av == allow_view(allow),
                keys_g == union_keys(fido@, dseq, av),
                eds_view(out@) == reconcile_all(fido@, dseq, keys_g.take(ki as int)),
                forall|n: int| 0 <= n < ki ==> feed_for(fido@, #[trigger] keys_g[n]).len() <= 1,
            decreases keys_g.len() - ki,
        {
            let a = keys[ki];
            let ghost out0 = eds_view(out@);

            // Count the feed records under this key and find the first.
            let mut fcount: usize = 0;
            let mut fidx: usize = 0;
            let mut j: usize = 0;
            proof {
                assert(fido@.take(0) =~= Seq::<FeedDevice>::empty());
            }
            while j < fido.len()
                invariant
                    0 <= j <= fido@.len(),
                    fcount as int == feed_for(fido@.take(j as int), a).len(),
                    fcount <= j,
                    fcount > 0 ==> 0 <= fidx < j && fido@[fidx as int].aaguid == a && (forall|
                        n: int,
                    |
                        0 <= n < fidx ==> fido@[n].aaguid != a),
                    fcount == 0 ==> forall|n: int| 0 <= n < j ==> fido@[n].aaguid != a,
                decreases fido@.len() - j,
            {
                proof {
                    assert(fido@.take(j + 1).drop_last() =~= fido@.take(j as int));
                    assert(fido@.take(j + 1).last() == fido@[j as int]);
                }
                if fido[j].aaguid == a {
                    if fcount == 0 {
                        fidx = j;
                    }
                    fcount = fcount + 1;
                }
                j = j + 1;
            }
            proof {
                assert(fido@.take(fido@.len() as int) =~= fido@);
            }
            if fcount >= 2 {
                proof {
                    assert(0 <= ki < keys_g.len() && keys_g[ki as int] == a);
                    assert(!feed_unique_on(fido@, keys_g));
                }
                return Err(CatalogError::DuplicateFeedAaguid);
            }
            if fcount == 1 {
                proof {
                    lemma_feed_for_first(fido@, a, fidx as int);
                }
                let ghost f0 = fido@[fidx as int];
                let mut ecount: usize = 0;
                let mut j2: usize = 0;
                proof {
                    assert(dseq.take(0) =~= Seq::<Device>::empty());
                    assert(eds_view(out@) =~= out0 + both_entries(f0, devs_for(dseq.take(0), a)));
                }
                while j2 < enrichment.devices.len()
                    invariant
                        0 <= j2 <= dseq.len(),
                        dseq == enrichment.spec_devices(),
                        ecount as int == devs_for(dseq.take(j2 as int), a).len(),
                        ecount <= j2,
                        f0 == fido@[fidx as int],
                        0 <= fidx < fido@.len(),
                        eds_view(out@) == out0 + both_entries(
                            f0,
                            devs_for(dseq.take(j2 as int), a),
                        ),
                    decreases dseq.len() - j2,
                {
                    proof {
                        assert(dseq.take(j2 + 1).drop_last() =~= dseq.take(j2 as int));
                        assert(dseq.take(j2 + 1).last() == dseq[j2 as int]);
                    }
                    let edev = &enrichment.devices[j2];
                    if edev.aaguid == a {
                        let fdev = &fido[fidx];
                        let nd = match edev.mds_link {
                            FidoMdsLink::Extend => EnrichedDevice {
                                aaguid: fdev.aaguid,
                                display_name: fdev.description.clone(),
                                quirks: clone_strings(&edev.quirks),
                                ca: clone_cert_list(&fdev.attestation_root_certificates),
                            },
                            FidoMdsLink::Clone => EnrichedDevice {
                                aaguid: edev.aaguid,
                                display_name: edev.display_name.clone(),
                                quirks: clone_strings(&edev.quirks),
                                ca: clone_cert_list(&fdev.attestation_root_certificates),
                            },
                        };
                        proof {
                            assert(nd.model() =~= both_entry_model(f0, dseq[j2 as int]));
                            lemma_eds_view_push(out@, nd);
                            let ghost dfs = devs_for(dseq.take(j2 as int), a);
                            assert(devs_for(dseq.take(j2 + 1), a) =~= dfs.push(dseq[j2 as int]));
                            assert(both_entries(f0, dfs.push(dseq[j2 as int])) == both_entries(
                                f0,
                                dfs,
                            ).push(both_entry_model(f0, dseq[j2 as int]))) by {
                                assert(dfs.push(dseq[j2 as int]).drop_last() =~= dfs);
                                assert(dfs.push(dseq[j2 as int]).last() == dseq[j2 as int]);
                            }
                        }
                        out.push(nd);
                        proof {
                            assert(eds_view(out@) =~= out0 + both_entries(
                                f0,
                                devs_for(dseq.take(j2 + 1), a),
                            ));
                        }
                        ecount = ecount + 1;
                    } else {
                        proof {
                            assert(devs_for(dseq.take(j2 + 1), a) =~= devs_for(
                                dseq.take(j2 as int),
                                a,
                            ));
                        }
                    }
                    j2 = j2 + 1;
                }
                proof {
                    assert(dseq.take(dseq.len() as int) =~= dseq);
                }
                if ecount == 0 {
                    let fdev = &fido[fidx];
                    let nd = EnrichedDevice {
                        aaguid: fdev.aaguid,
                        display_name: fdev.description.clone(),
                        quirks: Vec::new(),
                        ca: clone_cert_list(&fdev.attestation_root_certificates),
                    };
                    proof {
                        assert(strs_view(nd.quirks@) =~= Seq::<Seq<char>>::empty());
                        assert(nd.model() =~= feed_entry_model(f0));
                        assert(both_entries(f0, devs_for(dseq, a)) == Seq::<EdModel>::empty());
                        assert(eds_view(out@) =~= out0);
                        lemma_eds_view_push(out@, nd);
                    }
                    out.push(nd);
                    proof {
                        assert(emitted_for(fido@, dseq, a) =~= seq![feed_entry_model(f0)]);
                        assert(eds_view(out@) =~= out0 + emitted_for(fido@, dseq, a));
                    }
                } else {
                    proof {
                        assert(emitted_for(fido@, dseq, a) == both_entries(f0, devs_for(dseq, a)));
                        assert(eds_view(out@) == out0 + emitted_for(fido@, dseq, a));
                    }
                }
            } else {
                // No feed record: emit every enrichment record under the
                // key on its own.
                proof {
                    assert(feed_for(fido@, a).len() == 0);
                    assert(dseq.take(0) =~= Seq::<Device>::empty());
                    assert(eds_view(out@) =~= out0 + enrich_entries(devs_for(dseq.take(0), a)));
                }
                let mut j2: usize = 0;
                while j2 < enrichment.devices.len()
                    invariant
                        0 <= j2 <= dseq.len(),
                        dseq == enrichment.spec_devices(),
                        eds_view(out@) == out0 + enrich_entries(devs_for(dseq.take(j2 as int), a)),
                    decreases dseq.len() - j2,
                {
                    proof {
                        assert(dseq.take(j2 + 1).drop_last() =~= dseq.take(j2 as int));
                        assert(dseq.take(j2 + 1).last() == dseq[j2 as int]);
                    }
                    let edev = &enrichment.devices[j2];
                    if edev.aaguid == a {
                        let nd = EnrichedDevice {
                            aaguid: edev.aaguid,
                            display_name: edev.display_name.clone(),
                            quirks: clone_strings(&edev.quirks),
                            ca: flatten_sku_cas(&edev.skus),
                        };
                        proof {
                            assert(nd.model() =~= enrich_entry_model(dseq[j2 as int]));
                            lemma_eds_view_push(out@, nd);
                            let ghost dfs = devs_for(dseq.take(j2 as int), a);
                            assert(devs_for(dseq.take(j2 + 1), a) =~= dfs.push(dseq[j2 as int]));
                            assert(enrich_entries(dfs.push(dseq[j2 as int])) == enrich_entries(
                                dfs,
                            ).push(enrich_entry_model(dseq[j2 as int]))) by {
                                assert(dfs.push(dseq[j2 as int]).drop_last() =~= dfs);
                                assert(dfs.push(dseq[j2 as int]).last() == dseq[j2 as int]);
                            }
                        }
                        out.push(nd);
                        proof {
                            assert(eds_view(out@) =~= out0 + enrich_entries(
                                devs_for(dseq.take(j2 + 1), a),
                            ));
                        }
                    } else {
                        proof {
                            assert(devs_for(dseq.take(j2 + 1), a) =~= devs_for(
                                dseq.take(j2 as int),
                                a,
                            ));
                        }
                    }
                    j2 = j2 + 1;
                }
                proof {
                    assert(dseq.take(dseq.len() as int) =~= dseq);
                    assert(emitted_for(fido@, dseq, a) == enrich_entries(devs_for(dseq, a)));
                    assert(eds_view(out@) == out0 + emitted_for(fido@, dseq, a));
                }
            }
            proof {
                assert(keys_g.take(ki + 1).drop_last() =~= keys_g.take(ki as int));
                assert(keys_g.take(ki + 1).last() == keys_g[ki as int]);
                assert(reconcile_all(fido@, dseq, keys_g.take(ki + 1)) == reconcile_all(
                    fido@,
                    dseq,
                    keys_g.take(ki as int),
                ) + emitted_for(fido@, dseq, a));
            }
            ki = ki + 1;
        }
        proof {
            assert(keys_g.take(keys_g.len() as int) =~= keys_g);
        }
        Ok(EnrichedMds { devices: out })
    }

    /// Project the merged devices into CA-keyed form: one authority per
    /// distinct CA, in first-sight order, each carrying one SKU entry per
    /// `(device, CA occurrence)` pair that references it.
    pub fn to_mds(&self) -> (r: Vec<Authority>)
        ensures
            auth_view(r@) == authority_model(self.model()),
            al_unique_keys(auth_view(r@)),
    {
        let ghost dm = self.model();
        let mut out: Vec<Authority> = Vec::new();
        let mut i: usize = 0;
        proof {
            assert(auth_view(out@) =~= Seq::<(Seq<u8>, Seq<SkuModel>)>::empty());
            assert(eds_view(self.devices@.take(0)) =~= Seq::<EdModel>::empty());
        }
        while i < self.devices.len()
            invariant
                0 <= i <= self.devices@.len(),
                dm == self.model(),
                auth_view(out@) == authority_model(eds_view(self.devices@.take(i as int))),
                al_unique_keys(auth_view(out@)),
            decreases self.devices@.len() - i,
        {
            let dev = &self.devices[i];
            let ghost m = self.devices@[i as int].model();
            let ghost acc0 = auth_view(out@);
            proof {
                lemma_bytes_view_index(dev.ca@);
                assert(dev.ca@.take(0) =~= Seq::<Vec<u8>>::empty());
                assert(m.cas.take(0) =~= Seq::<Seq<u8>>::empty());
            }
            let mut j: usize = 0;
            while j < dev.ca.len()
                invariant
                    0 <= j <= dev.ca@.len(),
                    dev == &self.devices@[i as int],
                    0 <= i < self.devices@.len(),
                    m == self.devices@[i as int].model(),
                    auth_view(out@) == add_device_cas(acc0, m.cas.take(j as int), sku_of(m)),
                    al_unique_keys(auth_view(out@)),
                decreases dev.ca@.len() - j,
            {
                let ghost a0 = auth_view(out@);
                let ca = &dev.ca[j];
                proof {
                    lemma_bytes_view_index(dev.ca@);
                    assert(m.cas[j as int] == dev.ca@[j as int]@);
                    assert(m.cas.take(j + 1).drop_last() =~= m.cas.take(j as int));
                    assert(m.cas.take(j + 1).last() == m.cas[j as int]);
                }
                let sku = MdsSku { aaguid: dev.aaguid, display_name: dev.display_name.clone() };
                proof {
                    assert(sku.model() == sku_of(m));
                }
                let mut t: usize = 0;
                while t < out.len() && !key_eq(ca, &out[t].ca)
                    invariant
                        0 <= t <= out@.len(),
                        ca == &self.devices@[i as int].ca@[j as int],
                        0 <= i < self.devices@.len(),
                        0 <= j < self.devices@[i as int].ca@.len(),
                        a0 == auth_view(out@),
                        forall|n: int| 0 <= n < t ==> auth_view(out@)[n].0 != ca@,
                    decreases out@.len() - t,
                {
                    proof {
                        lemma_auth_view_index(out@);
                    }
                    t = t + 1;
                }
                proof {
                    lemma_auth_view_index(out@);
                }
                if t < out.len() {
                    proof {
                        assert(a0[t as int].0 == ca@);
                        lemma_al_get_at(a0, t as int);
                    }
                    let mut auth = out.remove(t);
                    proof {
                        assert(skus_view(auth.skus@) == al_get(a0, ca@));
                        lemma_skus_view_push(auth.skus@, sku);
                    }
                    auth.skus.push(sku);
                    let ghost newv = skus_view(auth.skus@);
                    proof {
                        assert(newv == al_get(a0, ca@).push(sku_of(m)));
                        lemma_al_update_at(a0, t as int, newv);
                        lemma_al_update_props(a0, ca@, newv);
                    }
                    out.insert(t, auth);
                    proof {
                        lemma_auth_view_index(out@);
                        assert(auth_view(out@) =~= a0.update(t as int, (ca@, newv)));
                        assert(auth_view(out@) =~= al_update(a0, ca@, newv));
                        assert(auth_view(out@) == add_sku_ca(a0, ca@, sku_of(m)));
                    }
                } else {
                    proof {
                        lemma_al_absent(a0, ca@);
                    }
                    let mut skus: Vec<MdsSku> = Vec::new();
                    skus.push(sku);
                    proof {
                        lemma_skus_view_push(Seq::<MdsSku>::empty(), sku);
                        assert(skus@ =~= Seq::<MdsSku>::empty().push(sku));
                        assert(skus_view(Seq::<MdsSku>::empty()) =~= Seq::<SkuModel>::empty());
                        assert(skus_view(skus@) =~= seq![sku_of(m)]);
                    }
                    let auth = Authority { ca: clone_bytes(ca), skus: skus };
                    proof {
                        assert(skus_view(auth.skus@) =~= seq![sku_of(m)]);
                        lemma_auth_view_index(out@);
                    }
                    out.push(auth);
                    proof {
                        lemma_auth_view_index(out@);
                        assert(auth_view(out@) =~= a0.push((ca@, seq![sku_of(m)])));
                        assert(auth_view(out@) == add_sku_ca(a0, ca@, sku_of(m)));
                        assert(al_unique_keys(auth_view(out@))) by {
                            let m1 = auth_view(out@);
                            assert forall|p: int, q: int| 0 <= p < q < m1.len() implies m1[p].0
                                != m1[q].0 by {
                                if q == m1.len() - 1 {
                                    assert(m1[p] == a0[p]);
                                }
                            }
                        }
                    }
                }
                proof {
                    assert(add_device_cas(acc0, m.cas.take(j + 1), sku_of(m)) == add_sku_ca(
                        add_device_cas(acc0, m.cas.take(j as int), sku_of(m)),
                        m.cas[j as int],
                        sku_of(m),
                    ));
                }
                j = j + 1;
            }
            proof {
                assert(m.cas.take(m.cas.len() as int) =~= m.cas);
                assert(bytes_view(dev.ca@).len() == dev.ca@.len());
                assert(self.devices@.take(i + 1).drop_last() =~= self.devices@.take(i as int));
                assert(self.devices@.take(i + 1).last() == self.devices@[i as int]);
                assert(eds_view(self.devices@.take(i + 1)) == eds_view(
                    self.devices@.take(i as int),
                ).push(m));
                let ghost e1 = eds_view(self.devices@.take(i + 1));
                assert(authority_model(e1) == add_device_cas(
                    authority_model(e1.drop_last()),
                    e1.last().cas,
                    sku_of(e1.last()),
                ));
                assert(e1.drop_last() =~= eds_view(self.devices@.take(i as int)));
                assert(auth_view(out@) == authority_model(e1));
            }
            i = i + 1;
        }
        proof {
            assert(self.devices@.take(self.devices@.len() as int) =~= self.devices@);
        }
        out
    }
}

/// Mathematical content of a catalog SKU entry.
#[verifier::ext_equal]
pub ghost struct SkuModel {
    pub aaguid: u128,
    pub display_name: Seq<char>,
}

/// One SKU entry of the final catalog: a device vouched for by an
/// authority.
#[derive(Debug, Clone)]
pub struct MdsSku {
    /// The device's identifier.
    pub aaguid: u128,
    /// The device's display name.
    pub display_name: String,
}

impl MdsSku {
    /// The entry's mathematical content.
    pub open spec fn model(self) -> SkuModel {
        SkuModel { aaguid: self.aaguid, display_name: self.display_name@ }
    }
}

/// One unit of the final catalog: a CA and the SKUs it vouches for.
#[derive(Debug, Clone)]
pub struct Authority {
    /// The trust anchor's certificate, as DER bytes.
    pub ca: Vec<u8>,
    /// The SKU entries accumulated under this CA.
    pub skus: Vec<MdsSku>,
}

/// The content of a list of SKU entries.
pub open spec fn skus_view(s: Seq<MdsSku>) -> Seq<SkuModel>
    decreases s.len(),
{
    if s.len() == 0 {
        Seq::empty()
    } else {
        skus_view(s.drop_last()).push(s.last().model())
    }
}

/// Appending a SKU appends its content to the view.
pub proof fn lemma_skus_view_push(s: Seq<MdsSku>, x: MdsSku)
    ensures
        skus_view(s.push(x)) == skus_view(s).push(x.model()),
{
    assert((s.push(x)).drop_last() =~= s);
    assert(s.push(x).last() == x);
}

/// The map reading of an authority list: each CA's bytes beside its SKU
/// entries.
pub open spec fn auth_view(s: Seq<Authority>) -> Seq<(Seq<u8>, Seq<SkuModel>)>
    decreases s.len(),
{
    if s.len() == 0 {
        Seq::empty()
    } else {
        auth_view(s.drop_last()).push((s.last().ca@, skus_view(s.last().skus@)))
    }
}

/// The view keeps lengths and per-index content.
pub proof fn lemma_auth_view_index(s: Seq<Authority>)
    ensures
        auth_view(s).len() == s.len(),
        forall|i: int|
            0 <= i < s.len() ==> auth_view(s)[i] == (s[i].ca@, skus_view(s[i].skus@)),
    decreases s.len(),
{
    if s.len() > 0 {
        lemma_auth_view_index(s.drop_last());
        assert forall|i: int|
            0 <= i < s.len() implies auth_view(s)[i] == (s[i].ca@, skus_view(s[i].skus@)) by {
            if i < s.len() - 1 {
                assert(auth_view(s)[i] == auth_view(s.drop_last())[i]);
                assert(s.drop_last()[i] == s[i]);
            }
        }
    }
}

/// The SKU entry a device contributes.
pub open spec fn sku_of(d: EdModel) -> SkuModel {
    SkuModel { aaguid: d.aaguid, display_name: d.display_name }
}

/// Place one `(CA, SKU)` pair into the working map: a known CA gains the
/// SKU, a fresh CA opens a singleton authority.
pub open spec fn add_sku_ca(
    acc: Seq<(Seq<u8>, Seq<SkuModel>)>,
    ca: Seq<u8>,
    sku: SkuModel,
) -> Seq<(Seq<u8>, Seq<SkuModel>)> {
    if al_contains(acc, ca) {
        al_update(acc, ca, al_get(acc, ca).push(sku))
    } else {
        acc.push((ca, seq![sku]))
    }
}

/// Place one device's CA list into the working map, in order.
pub open spec fn add_device_cas(
    acc: Seq<(Seq<u8>, Seq<SkuModel>)>,
    cas: Seq<Seq<u8>>,
    sku: SkuModel,
) -> Seq<(Seq<u8>, Seq<SkuModel>)>
    decreases cas.len(),
{
    if cas.len() == 0 {
        acc
    } else {
        add_sku_ca(add_device_cas(acc, cas.drop_last(), sku), cas.last(), sku)
    }
}

/// The authority projection of a merged device list: devices in order,
/// each device's CAs in order.
pub open spec fn authority_model(devs: Seq<EdModel>) -> Seq<(Seq<u8>, Seq<SkuModel>)>
    decreases devs.len(),
{
    if devs.len() == 0 {
        Seq::empty()
    } else {
        add_device_cas(
            authority_model(devs.drop_last()),
            devs.last().cas,
            sku_of(devs.last()),
        )
    }
}

/// One entry of the quirks index: a device identifier and the quirk tags
/// its records carry.
#[derive(Debug, Clone)]
pub struct QuirkEntry {
    /// The device's identifier.
    pub aaguid: u128,
    /// The union of the device's quirk tags, in first-sight order.
    pub quirks: Vec<String>,
}

/// The map reading of a quirk entry list.
pub open spec fn qm_view(s: Seq<QuirkEntry>) -> Seq<(u128, Seq<Seq<char>>)>
    decreases s.len(),
{
    if s.len() == 0 {
        Seq::empty()
    } else {
        qm_view(s.drop_last()).push((s.last().aaguid, strs_view(s.last().quirks@)))
    }
}

/// The view keeps lengths and per-index content.
pub proof fn lemma_qm_view_index(s: Seq<QuirkEntry>)
    ensures
        qm_view(s).len() == s.len(),
        forall|i: int|
            0 <= i < s.len() ==> qm_view(s)[i] == (s[i].aaguid, strs_view(s[i].quirks@)),
    decreases s.len(),
{
    if s.len() > 0 {
        lemma_qm_view_index(s.drop_last());
        assert forall|i: int|
            0 <= i < s.len() implies qm_view(s)[i] == (
            s[i].aaguid,
            strs_view(s[i].quirks@),
        ) by {
            if i < s.len() - 1 {
                assert(qm_view(s)[i] == qm_view(s.drop_last())[i]);
                assert(s.drop_last()[i] == s[i]);
            }
        }
    }
}

/// Add one tag to a quirk set: already-present tags are not repeated.
pub open spec fn union_one_quirk(cur: Seq<Seq<char>>, q: Seq<char>) -> Seq<Seq<char>> {
    if cur.contains(q) {
        cur
    } else {
        cur.push(q)
    }
}

/// Union a record's tags into a quirk set, in record order.
pub open spec fn union_quirks(cur: Seq<Seq<char>>, q: Seq<String>) -> Seq<Seq<char>>
    decreases q.len(),
{
    if q.len() == 0 {
        cur
    } else {
        union_one_quirk(union_quirks(cur, q.drop_last()), q.last()@)
    }
}

/// The quirks projection of the raw device records: records in order,
/// each quirked record's tags unioned under its AAGUID, quirk-free
/// records omitted.
pub open spec fn quirk_map_model(devs: Seq<Device>) -> Seq<(u128, Seq<Seq<char>>)>
    decreases devs.len(),
{
    if devs.len() == 0 {
        Seq::empty()
    } else {
        let prev = quirk_map_model(devs.drop_last());
        let d = devs.last();
        if d.quirks@.len() == 0 {
            prev
        } else if al_contains(prev, d.aaguid) {
            al_update(prev, d.aaguid, union_quirks(al_get(prev, d.aaguid), d.quirks@))
        } else {
            prev.push((d.aaguid, union_quirks(Seq::empty(), d.quirks@)))
        }
    }
}

/// Whether the string list holds a string of this content.
fn contains_str(v: &Vec<String>, s: &String) -> (r: bool)
    ensures
        r <==> strs_view(v@).contains(s@),
{
    proof {
        lemma_strs_view_index(v@);
    }
    let mut i: usize = 0;
    while i < v.len()
        invariant
            0 <= i <= v@.len(),
            forall|j: int| 0 <= j < i ==> v@[j]@ != s@,
        decreases v@.len() - i,
    {
        if v[i].eq(s) {
            proof {
                lemma_strs_view_index(v@);
                assert(strs_view(v@).contains(s@)) by {
                    assert(strs_view(v@)[i as int] == s@);
                }
            }
            return true;
        }
        i = i + 1;
    }
    proof {
        lemma_strs_view_index(v@);
        if strs_view(v@).contains(s@) {
            let n = choose|n: int| 0 <= n < strs_view(v@).len() && strs_view(v@)[n] == s@;
            assert(v@[n]@ == s@);
            assert(false);
        }
    }
    false
}

/// The view keeps lengths and per-index content.
pub proof fn lemma_strs_view_index(s: Seq<String>)
    ensures
        strs_view(s).len() == s.len(),
        forall|i: int| 0 <= i < s.len() ==> strs_view(s)[i] == s[i]@,
    decreases s.len(),
{
    if s.len() > 0 {
        lemma_strs_view_index(s.drop_last());
        assert forall|i: int| 0 <= i < s.len() implies strs_view(s)[i] == s[i]@ by {
            if i < s.len() - 1 {
                assert(strs_view(s)[i] == strs_view(s.drop_last())[i]);
                assert(s.drop_last()[i] == s[i]);
            }
        }
    }
}

/// Appending a string appends its content to the view.
pub proof fn lemma_strs_view_push(s: Seq<String>, x: String)
    ensures
        strs_view(s.push(x)) == strs_view(s).push(x@),
{
    assert((s.push(x)).drop_last() =~= s);
    assert(s.push(x).last() == x);
}

/// Membership survives dropping the last element, except for that
/// element.
proof fn lemma_contains_drop_last(s: Seq<u128>, a: u128)
    requires
        s.len() > 0,
    ensures
        s.contains(a) <==> (s.drop_last().contains(a) || s.last() == a),
{
    if s.contains(a) {
        let n = choose|n: int| 0 <= n < s.len() && s[n] == a;
        if n < s.len() - 1 {
            assert(s.drop_last()[n] == a);
        }
    }
    if s.drop_last().contains(a) {
        let n = choose|n: int| 0 <= n < s.drop_last().len() && s.drop_last()[n] == a;
        assert(s[n] == a);
    }
}

/// The collected key union is ascending and holds exactly the accepted
/// AAGUIDs of its source.
pub proof fn lemma_collect_keys_props(s: Seq<u128>, allow: Option<Seq<u128>>)
    ensures
        sorted_unique(collect_keys(s, allow)),
        forall|a: u128|
            #[trigger] collect_keys(s, allow).contains(a) <==> (s.contains(a) && allowed(
                allow,
                a,
            )),
    decreases s.len(),
{
    if s.len() == 0 {
        assert forall|a: u128| #[trigger]
            collect_keys(s, allow).contains(a) <==> (s.contains(a) && allowed(allow, a)) by {
            if collect_keys(s, allow).contains(a) {
                let n = choose|n: int|
                    0 <= n < collect_keys(s, allow).len() && collect_keys(s, allow)[n] == a;
            }
            if s.contains(a) {
                let n = choose|n: int| 0 <= n < s.len() && s[n] == a;
            }
        }
    } else {
        lemma_collect_keys_props(s.drop_last(), allow);
        let prev = collect_keys(s.drop_last(), allow);
        if allowed(allow, s.last()) {
            lemma_seq_insert_sorted_props(prev, s.last());
        }
        assert forall|a: u128| #[trigger]
            collect_keys(s, allow).contains(a) <==> (s.contains(a) && allowed(allow, a)) by {
            lemma_contains_drop_last(s, a);
            assert(prev.contains(a) <==> (s.drop_last().contains(a) && allowed(allow, a)));
            if allowed(allow, s.last()) {
                assert(collect_keys(s, allow) == seq_insert_sorted(prev, s.last()));
                assert(seq_insert_sorted(prev, s.last()).contains(a) <==> (prev.contains(a)
                    || a == s.last()));
            }
        }
    }
}

/// A record filed under `a` makes the selection non-empty.
proof fn lemma_feed_for_pos(feed: Seq<FeedDevice>, a: u128, idx: int)
    requires
        0 <= idx < feed.len(),
        feed[idx].aaguid == a,
    ensures
        feed_for(feed, a).len() >= 1,
    decreases feed.len(),
{
    if idx < feed.len() - 1 {
        lemma_feed_for_pos(feed.drop_last(), a, idx);
    }
}

/// A record filed under `a` makes the selection non-empty.
proof fn lemma_devs_for_pos(devs: Seq<Device>, a: u128, idx: int)
    requires
        0 <= idx < devs.len(),
        devs[idx].aaguid == a,
    ensures
        devs_for(devs, a).len() >= 1,
    decreases devs.len(),
{
    if idx < devs.len() - 1 {
        lemma_devs_for_pos(devs.drop_last(), a, idx);
    }
}

/// Two records filed under `a` make the selection at least two long.
proof fn lemma_feed_for_two(feed: Seq<FeedDevice>, a: u128, i: int, j: int)
    requires
        0 <= i < j < feed.len(),
        feed[i].aaguid == a,
        feed[j].aaguid == a,
    ensures
        feed_for(feed, a).len() >= 2,
    decreases feed.len(),
{
    if j == feed.len() - 1 {
        lemma_feed_for_pos(feed.drop_last(), a, i);
    } else {
        lemma_feed_for_two(feed.drop_last(), a, i, j);
    }
}

/// The combined emissions keep one entry per enrichment record.
proof fn lemma_both_entries_len(f: FeedDevice, s: Seq<Device>)
    ensures
        both_entries(f, s).len() == s.len(),
    decreases s.len(),
{
    if s.len() > 0 {
        lemma_both_entries_len(f, s.drop_last());
    }
}

/// The standalone emissions keep one entry per enrichment record.
proof fn lemma_enrich_entries_len(s: Seq<Device>)
    ensures
        enrich_entries(s).len() == s.len(),
    decreases s.len(),
{
    if s.len() > 0 {
        lemma_enrich_entries_len(s.drop_last());
    }
}

/// Law: an AAGUID known to either source receives at least one emitted
/// device.
pub proof fn lemma_join_completeness(feed: Seq<FeedDevice>, devs: Seq<Device>, a: u128)
    requires
        feed_for(feed, a).len() > 0 || devs_for(devs, a).len() > 0,
    ensures
        emitted_for(feed, devs, a).len() >= 1,
{
    lemma_both_entries_len(if feed_for(feed, a).len() > 0 {
        feed_for(feed, a)[0]
    } else {
        arbitrary()
    }, devs_for(devs, a));
    lemma_enrich_entries_len(devs_for(devs, a));
}

/// Law: every key of the union belongs to at least one source and passes
/// the filter.
pub proof fn lemma_union_key_has_source(
    feed: Seq<FeedDevice>,
    devs: Seq<Device>,
    allow: Option<Seq<u128>>,
    a: u128,
)
    requires
        union_keys(feed, devs, allow).contains(a),
    ensures
        feed_for(feed, a).len() > 0 || devs_for(devs, a).len() > 0,
        allowed(allow, a),
{
    let s_all = aaguids_of(feed, devs);
    lemma_collect_keys_props(s_all, allow);
    assert(s_all.contains(a));
    let n = choose|n: int| 0 <= n < s_all.len() && s_all[n] == a;
    if n < feed.len() {
        assert(feed[n].aaguid == a);
        lemma_feed_for_pos(feed, a, n);
    } else {
        assert(devs[n - feed.len()].aaguid == a);
        lemma_devs_for_pos(devs, a, n - feed.len());
    }
}

/// Law (join completeness): where every key has a source record, the
/// reconciliation emits at least one device per key.
pub proof fn lemma_reconcile_covers_union(
    feed: Seq<FeedDevice>,
    devs: Seq<Device>,
    keys: Seq<u128>,
)
    requires
        forall|n: int|
            0 <= n < keys.len() ==> feed_for(feed, #[trigger] keys[n]).len() > 0 || devs_for(
                devs,
                keys[n],
            ).len() > 0,
    ensures
        reconcile_all(feed, devs, keys).len() >= keys.len(),
    decreases keys.len(),
{
    if keys.len() > 0 {
        assert(forall|n: int|
            0 <= n < keys.drop_last().len() ==> keys.drop_last()[n] == keys[n]);
        lemma_reconcile_covers_union(feed, devs, keys.drop_last());
        lemma_join_completeness(feed, devs, keys.last());
    }
}

/// Law (feed uniqueness enforcement): a duplicated feed AAGUID that the
/// filter accepts breaks the condition under which reconciliation
/// succeeds, whatever the enrichment holds.
pub proof fn lemma_feed_uniqueness_enforced(
    feed: Seq<FeedDevice>,
    devs: Seq<Device>,
    allow: Option<Seq<u128>>,
    i: int,
    j: int,
)
    requires
        0 <= i < j < feed.len(),
        feed[i].aaguid == feed[j].aaguid,
        allowed(allow, feed[i].aaguid),
    ensures
        !feed_unique_on(feed, union_keys(feed, devs, allow)),
{
    let a = feed[i].aaguid;
    lemma_feed_for_two(feed, a, i, j);
    let s_all = aaguids_of(feed, devs);
    lemma_collect_keys_props(s_all, allow);
    assert(s_all[i] == a);
    assert(s_all.contains(a));
    let keys = union_keys(feed, devs, allow);
    assert(keys.contains(a));
    let n = choose|n: int| 0 <= n < keys.len() && keys[n] == a;
    assert(feed_for(feed, keys[n]).len() >= 2);
}

/// The quirks projection never repeats a key.
pub proof fn lemma_quirk_model_unique(devs: Seq<Device>)
    ensures
        al_unique_keys(quirk_map_model(devs)),
    decreases devs.len(),
{
    if devs.len() > 0 {
        lemma_quirk_model_unique(devs.drop_last());
        let prev = quirk_map_model(devs.drop_last());
        let d = devs.last();
        if d.quirks@.len() == 0 {
        } else if al_contains(prev, d.aaguid) {
            lemma_al_update_props(prev, d.aaguid, union_quirks(al_get(prev, d.aaguid), d.quirks@));
        } else {
            let m1 = quirk_map_model(devs);
            assert forall|p: int, q: int| 0 <= p < q < m1.len() implies m1[p].0 != m1[q].0 by {
                if q == m1.len() - 1 {
                    assert(m1[p] == prev[p]);
                    assert(al_contains(prev, prev[p].0)) by {
                        assert(0 <= p < prev.len() && prev[p].0 == prev[p].0);
                    }
                }
            }
        }
    }
}

/// Law (quirk omission): an AAGUID whose records all carry an empty quirk
/// set never appears as a key of the quirks projection.
pub proof fn lemma_quirk_omission(devs: Seq<Device>, a: u128)
    requires
        forall|n: int|
            0 <= n < devs.len() && (#[trigger] devs[n]).aaguid == a ==> devs[n].quirks@.len()
                == 0,
    ensures
        !al_contains(quirk_map_model(devs), a),
    decreases devs.len(),
{
    if devs.len() > 0 {
        assert(forall|n: int|
            0 <= n < devs.drop_last().len() ==> devs.drop_last()[n] == devs[n]);
        lemma_quirk_omission(devs.drop_last(), a);
        lemma_quirk_model_unique(devs.drop_last());
        let prev = quirk_map_model(devs.drop_last());
        let d = devs.last();
        if d.quirks@.len() == 0 {
        } else {
            assert(d.aaguid != a);
            if al_contains(prev, d.aaguid) {
                lemma_al_update_props(
                    prev,
                    d.aaguid,
                    union_quirks(al_get(prev, d.aaguid), d.quirks@),
                );
            } else {
                let m1 = quirk_map_model(devs);
                if al_contains(m1, a) {
                    let n = choose|n: int| 0 <= n < m1.len() && m1[n].0 == a;
                    if n < m1.len() - 1 {
                        assert(prev[n].0 == a);
                        assert(al_contains(prev, a));
                    }
                    assert(false);
                }
            }
        }
    }
}

/// How often `ca` occurs in one CA list.
pub open spec fn count_in(cas: Seq<Seq<u8>>, ca: Seq<u8>) -> nat
    decreases cas.len(),
{
    if cas.len() == 0 {
        0
    } else {
        count_in(cas.drop_last(), ca) + (if cas.last() == ca {
            1nat
        } else {
            0nat
        })
    }
}

/// How many `(device, CA occurrence)` pairs of the device list reference
/// `ca`.
pub open spec fn ca_occurrences(devs: Seq<EdModel>, ca: Seq<u8>) -> nat
    decreases devs.len(),
{
    if devs.len() == 0 {
        0
    } else {
        ca_occurrences(devs.drop_last(), ca) + count_in(devs.last().cas, ca)
    }
}

/// The SKU entries the working map holds under `ca`; none where the key
/// is absent.
pub open spec fn sku_count(m: Seq<(Seq<u8>, Seq<SkuModel>)>, ca: Seq<u8>) -> nat {
    if al_contains(m, ca) {
        al_get(m, ca).len()
    } else {
        0
    }
}

/// An occurrence is a member and a member occurs.
pub proof fn lemma_count_in_contains(cas: Seq<Seq<u8>>, ca: Seq<u8>)
    ensures
        count_in(cas, ca) > 0 <==> cas.contains(ca),
    decreases cas.len(),
{
    if cas.len() > 0 {
        lemma_count_in_contains(cas.drop_last(), ca);
        if cas.contains(ca) {
            let n = choose|n: int| 0 <= n < cas.len() && cas[n] == ca;
            if n < cas.len() - 1 {
                assert(cas.drop_last()[n] == ca);
            }
        }
        if cas.drop_last().contains(ca) {
            let n = choose|n: int|
                0 <= n < cas.drop_last().len() && cas.drop_last()[n] == ca;
            assert(cas[n] == ca);
        }
    }
}

/// One placement step adds one SKU under its CA and none elsewhere.
proof fn lemma_add_sku_ca_count(
    acc: Seq<(Seq<u8>, Seq<SkuModel>)>,
    ca0: Seq<u8>,
    sku: SkuModel,
    ca: Seq<u8>,
)
    requires
        al_unique_keys(acc),
    ensures
        al_unique_keys(add_sku_ca(acc, ca0, sku)),
        al_contains(add_sku_ca(acc, ca0, sku), ca) <==> (al_contains(acc, ca) || ca == ca0),
        sku_count(add_sku_ca(acc, ca0, sku), ca) == sku_count(acc, ca) + (if ca == ca0 {
            1nat
        } else {
            0nat
        }),
{
    let r = add_sku_ca(acc, ca0, sku);
    if al_contains(acc, ca0) {
        lemma_al_update_props(acc, ca0, al_get(acc, ca0).push(sku));
    } else {
        assert(r == acc.push((ca0, seq![sku])));
        assert(al_unique_keys(r)) by {
            assert forall|p: int, q: int| 0 <= p < q < r.len() implies r[p].0 != r[q].0 by {
                if q == r.len() - 1 {
                    assert(r[p] == acc[p]);
                    assert(al_contains(acc, acc[p].0)) by {
                        assert(0 <= p < acc.len() && acc[p].0 == acc[p].0);
                    }
                }
            }
        }
        assert(al_contains(r, ca0)) by {
            assert(r[r.len() - 1].0 == ca0);
        }
        lemma_al_get_at(r, r.len() - 1);
        if ca != ca0 {
            if al_contains(acc, ca) {
                let n = choose|n: int| 0 <= n < acc.len() && acc[n].0 == ca;
                assert(r[n].0 == ca);
                lemma_al_get_at(acc, n);
                lemma_al_get_at(r, n);
            }
            if al_contains(r, ca) {
                let n = choose|n: int| 0 <= n < r.len() && r[n].0 == ca;
                assert(n < r.len() - 1);
                assert(acc[n].0 == ca);
                assert(al_contains(acc, ca));
            }
        }
    }
}

/// Placing a device's CA list adds one SKU per occurrence of each CA.
proof fn lemma_add_device_cas_count(
    acc: Seq<(Seq<u8>, Seq<SkuModel>)>,
    cas: Seq<Seq<u8>>,
    sku: SkuModel,
    ca: Seq<u8>,
)
    requires
        al_unique_keys(acc),
    ensures
        al_unique_keys(add_device_cas(acc, cas, sku)),
        al_contains(add_device_cas(acc, cas, sku), ca) <==> (al_contains(acc, ca) || count_in(
            cas,
            ca,
        ) > 0),
        sku_count(add_device_cas(acc, cas, sku), ca) == sku_count(acc, ca) + count_in(cas, ca),
    decreases cas.len(),
{
    if cas.len() > 0 {
        lemma_add_device_cas_count(acc, cas.drop_last(), sku, ca);
        lemma_add_sku_ca_count(add_device_cas(acc, cas.drop_last(), sku), cas.last(), sku, ca);
    }
}

/// Law (authority projection totality): a CA referenced anywhere in the
/// device list owns a key of the projection (projections never repeat a
/// key), and its SKU list holds exactly one entry per `(device, CA
/// occurrence)` pair referencing it; an unreferenced CA owns no key.
pub proof fn lemma_authority_totality(devs: Seq<EdModel>, ca: Seq<u8>)
    ensures
        al_unique_keys(authority_model(devs)),
        al_contains(authority_model(devs), ca) <==> ca_occurrences(devs, ca) > 0,
        sku_count(authority_model(devs), ca) == ca_occurrences(devs, ca),
    decreases devs.len(),
{
    if devs.len() > 0 {
        lemma_authority_totality(devs.drop_last(), ca);
        lemma_add_device_cas_count(
            authority_model(devs.drop_last()),
            devs.last().cas,
            sku_of(devs.last()),
            ca,
        );
    }
}

/// Union a record's tags into a working quirk vector.
fn union_quirk_vec(cur: &mut Vec<String>, q: &Vec<String>)
    ensures
        strs_view(final(cur)@) == union_quirks(strs_view(old(cur)@), q@),
{
    let mut i: usize = 0;
    proof {
        assert(q@.take(0) =~= Seq::<String>::empty());
    }
    while i < q.len()
        invariant
            0 <= i <= q@.len(),
            strs_view(cur@) == union_quirks(strs_view(old(cur)@), q@.take(i as int)),
        decreases q@.len() - i,
    {
        proof {
            assert(q@.take(i + 1).drop_last() =~= q@.take(i as int));
            assert(q@.take(i + 1).last() == q@[i as int]);
        }
        if !contains_str(cur, &q[i]) {
            proof {
                lemma_strs_view_push(cur@, q@[i as int]);
            }
            cur.push(q[i].clone());
        }
        i = i + 1;
    }
    proof {
        assert(q@.take(q@.len() as int) =~= q@);
    }
}

} // verus!
