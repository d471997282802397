//! Attestation trust anchors and the digest-keyed CA registry.
//!
//! A CA is identified by the SHA-256 digest of its certificate (the "key
//! id"); the registry maps key ids to CAs. Certificates are carried as
//! their DER bytes; digesting and PEM decoding are delegated to openssl
//! behind the trusted functions below.

use vstd::prelude::*;

use crate::keymap::al_contains;
use crate::keymap::al_get;
use crate::keymap::al_unique_keys;
use crate::keymap::al_update;
use crate::keymap::insert_sorted;
use crate::keymap::lemma_al_get_at;
use crate::keymap::lemma_al_update_absent;
use crate::keymap::lemma_al_update_at;
use crate::keymap::lemma_al_update_props;
use crate::keymap::key_eq;
use crate::keymap::lemma_al_absent;
use crate::keymap::lemma_seq_insert_sorted_props;
use crate::keymap::seq_insert_sorted;
use crate::keymap::slice_to_vec;
use crate::keymap::sorted_unique;
use crate::CatalogError;

verus! {

/// Mathematical content of an attestation CA: the certificate's DER bytes
/// and the AAGUIDs it is allowed to vouch for, as an ascending sequence.
/// An empty allow-list means the CA is trusted for every AAGUID.
#[verifier::ext_equal]
pub ghost struct CaModel {
    pub cert: Seq<u8>,
    pub aaguids: Seq<u128>,
}

/// The SHA-256 digest openssl computes for the certificate that `der`
/// encodes; meaningful only where `x509_parses(der)` holds.
pub uninterp spec fn kid_of(der: Seq<u8>) -> Seq<u8>;

/// Whether openssl accepts `der` as the DER encoding of an X509
/// certificate.
pub uninterp spec fn x509_parses(der: Seq<u8>) -> bool;

/// The DER re-encoding of the certificate that the PEM text `pem` carries,
/// or `None` where openssl rejects `pem`.
pub uninterp spec fn pem_to_der(pem: Seq<u8>) -> Option<Seq<u8>>;

/// Relies on `openssl::x509::X509::from_der` and `X509::digest`, whose
/// documentation states that it returns a digest of the DER representation
/// of the certificate: parsing succeeds, and the digest's value, as a
/// function of the DER bytes alone. A SHA-256 digest is 32 bytes long.
#[verifier::external_body]
fn x509_kid_from_der(der: &[u8]) -> (r: Option<Vec<u8>>)
    ensures
        r is Some <==> x509_parses(der@),
        r is Some ==> r->0@ == kid_of(der@),
        r is Some ==> r->0@.len() == 32,
{
    openssl::x509::X509::from_der(der)
        .and_then(|cert| cert.digest(openssl::hash::MessageDigest::sha256()))
        .map(|digest| digest.to_vec())
        .ok()
}

/// Relies on `openssl::x509::X509::from_pem` and `X509::to_der`: decoding
/// a PEM certificate and re-encoding it as DER is a function of the PEM
/// bytes alone. `from_pem` reads through a memory BIO that asserts its
/// input fits a C `int`, so longer inputs are excluded here.
#[verifier::external_body]
fn x509_pem_to_der(pem: &[u8]) -> (r: Option<Vec<u8>>)
    requires
        pem@.len() <= 0x7fff_ffff,
    ensures
        r is Some <==> pem_to_der(pem@) is Some,
        r is Some ==> Some(r->0@) == pem_to_der(pem@),
{
    openssl::x509::X509::from_pem(pem)
        .and_then(|cert| cert.to_der())
        .ok()
}

/// An attestation CA held in serialised form: the certificate's DER bytes
/// beside the allow-list, ready for an encoder.
#[derive(Debug, Clone)]
pub struct SerialisableAttestationCa {
    pub ca: Vec<u8>,
    pub aaguids: Vec<u128>,
}

/// A structure representing an Attestation CA and the options associated
/// to it: the trust anchor's certificate as DER bytes, and the set of
/// AAGUIDs it may vouch for.
#[derive(Debug, Clone)]
pub struct AttestationCa {
    /// DER encoding of the x509 root CA of the attestation chain.
    pub ca: Vec<u8>,
    /// If not empty, the ascending list of acceptable AAGUIDs (device ids)
    /// that are allowed to be attested as trusted by this CA. An empty
    /// list places no restriction.
    pub aaguids: Vec<u128>,
}

impl AttestationCa {
    /// The CA's mathematical content.
    pub open spec fn model(self) -> CaModel {
        CaModel { cert: self.ca@, aaguids: self.aaguids@ }
    }

    /// The allow-list is in canonical (strictly ascending) form.
    pub open spec fn wf(self) -> bool {
        sorted_unique(self.aaguids@)
    }

    /// Retrieve the key identifier (certificate digest) for this
    /// attestation CA; fails exactly where the certificate bytes are not a
    /// DER certificate.
    pub fn get_kid(&self) -> (r: Result<Vec<u8>, CatalogError>)
        ensures
            r is Ok <==> x509_parses(self.ca@),
            r is Ok ==> r->Ok_0@ == kid_of(self.ca@),
            r is Ok ==> r->Ok_0@.len() == 32,
            r is Err ==> r->Err_0 == CatalogError::DigestError,
    {
        match x509_kid_from_der(self.ca.as_slice()) {
            Some(kid) => Ok(kid),
            None => Err(CatalogError::DigestError),
        }
    }

    /// Replace the set of AAGUIDs this attestation CA allows. An empty
    /// list means this CA allows all AAGUIDs.
    pub fn set_aaguids(&mut self, aaguids: Vec<u128>)
        requires
            sorted_unique(aaguids@),
        ensures
            final(self).model() == (CaModel { cert: old(self).ca@, aaguids: aaguids@ }),
            final(self).wf(),
    {
        self.aaguids = aaguids;
    }

    /// Add one AAGUID to the allowed set.
    pub fn insert_aaguid(&mut self, aaguid: u128)
        requires
            old(self).wf(),
        ensures
            final(self).model() == (CaModel {
                cert: old(self).ca@,
                aaguids: seq_insert_sorted(old(self).aaguids@, aaguid),
            }),
            final(self).wf(),
    {
        insert_sorted(&mut self.aaguids, aaguid);
    }

    /// Create an attestation CA from a DER certificate, with an
    /// unrestricted allow-list; fails exactly where the bytes are not a
    /// DER certificate.
    pub fn new_from_der(data: &[u8]) -> (r: Result<Self, CatalogError>)
        ensures
            r is Ok <==> x509_parses(data@),
            r is Ok ==> r->Ok_0.model() == (CaModel { cert: data@, aaguids: Seq::empty() }),
            r is Ok ==> r->Ok_0.wf(),
            r is Err ==> r->Err_0 == CatalogError::DigestError,
    {
        match x509_kid_from_der(data) {
            Some(_) => Ok(AttestationCa { ca: slice_to_vec(data), aaguids: Vec::new() }),
            None => Err(CatalogError::DigestError),
        }
    }

    /// Create an attestation CA from a PEM certificate, with an
    /// unrestricted allow-list; the certificate is stored re-encoded as
    /// DER. Fails exactly where openssl rejects the PEM text. The input
    /// must fit a C `int`, the largest length openssl reads from memory.
    pub fn new_from_pem(data: &[u8]) -> (r: Result<Self, CatalogError>)
        requires
            data@.len() <= 0x7fff_ffff,
        ensures
            r is Ok <==> pem_to_der(data@) is Some,
            r is Ok ==> Some(r->Ok_0.ca@) == pem_to_der(data@),
            r is Ok ==> r->Ok_0.model() == (CaModel {
                cert: pem_to_der(data@)->0,
                aaguids: Seq::empty(),
            }),
            r is Ok ==> r->Ok_0.wf(),
            r is Err ==> r->Err_0 == CatalogError::DigestError,
    {
        match x509_pem_to_der(data) {
            Some(der) => Ok(AttestationCa { ca: der, aaguids: Vec::new() }),
            None => Err(CatalogError::DigestError),
        }
    }

    /// Release this CA in serialised form.
    pub fn into_serialisable(self) -> (r: SerialisableAttestationCa)
        ensures
            r.ca@ == self.ca@,
            r.aaguids@ == self.aaguids@,
    {
        SerialisableAttestationCa { ca: self.ca, aaguids: self.aaguids }
    }

    /// Rebuild a CA from its serialised form; fails exactly where the
    /// stored bytes are not a DER certificate.
    pub fn from_serialisable(data: SerialisableAttestationCa) -> (r: Result<Self, CatalogError>)
        ensures
            r is Ok <==> x509_parses(data.ca@),
            r is Ok ==> r->Ok_0.model() == (CaModel { cert: data.ca@, aaguids: data.aaguids@ }),
            r is Err ==> r->Err_0 == CatalogError::DigestError,
    {
        match x509_kid_from_der(data.ca.as_slice()) {
            Some(_) => Ok(AttestationCa { ca: data.ca, aaguids: data.aaguids }),
            None => Err(CatalogError::DigestError),
        }
    }
}

/// The map reading of the registry's backing vector: each entry's key
/// bytes beside the CA's mathematical content.
pub open spec fn cas_model(s: Seq<(Vec<u8>, AttestationCa)>) -> Seq<(Seq<u8>, CaModel)> {
    s.map_values(|p: (Vec<u8>, AttestationCa)| (p.0@, p.1.model()))
}

/// One step of the merge construction: place `(cert, aaguid)` into the
/// registry model `m`. A known key id only gains the AAGUID; a fresh key
/// id creates a singleton entry carrying the certificate.
pub open spec fn merge_one(
    m: Seq<(Seq<u8>, CaModel)>,
    cert: Seq<u8>,
    aaguid: u128,
) -> Seq<(Seq<u8>, CaModel)> {
    let k = kid_of(cert);
    if al_contains(m, k) {
        let prev = al_get(m, k);
        al_update(
            m,
            k,
            CaModel { cert: prev.cert, aaguids: seq_insert_sorted(prev.aaguids, aaguid) },
        )
    } else {
        m.push((k, CaModel { cert: cert, aaguids: seq![aaguid] }))
    }
}

/// The merge construction folded over a stream of pairs, first to last.
pub open spec fn merge_pairs(
    m: Seq<(Seq<u8>, CaModel)>,
    pairs: Seq<(Seq<u8>, u128)>,
) -> Seq<(Seq<u8>, CaModel)>
    decreases pairs.len(),
{
    if pairs.len() == 0 {
        m
    } else {
        merge_pairs(merge_one(m, pairs[0].0, pairs[0].1), pairs.drop_first())
    }
}

/// The mathematical content of a certificate/AAGUID stream.
pub open spec fn pairs_view(pairs: Seq<(Vec<u8>, u128)>) -> Seq<(Seq<u8>, u128)> {
    pairs.map_values(|p: (Vec<u8>, u128)| (p.0@, p.1))
}

/// A list of attestation CAs and associated options, deduplicated by
/// certificate digest (key id).
#[derive(Debug, Clone)]
pub struct AttestationCaList {
    /// The set of CAs that are trusted, keyed by each CA's key id.
    pub cas: Vec<(Vec<u8>, AttestationCa)>,
}

impl AttestationCaList {
    /// The registry's map reading.
    pub open spec fn model(self) -> Seq<(Seq<u8>, CaModel)> {
        cas_model(self.cas@)
    }

    /// Keys are pairwise distinct and every stored CA is well formed.
    pub open spec fn wf(self) -> bool {
        &&& al_unique_keys(self.model())
        &&& forall|i: int| 0 <= i < self.cas@.len() ==> (#[trigger] self.cas@[i]).1.wf()
    }

    /// An empty registry.
    pub fn new() -> (r: Self)
        ensures
            r.model() == Seq::<(Seq<u8>, CaModel)>::empty(),
            r.wf(),
    {
        let r = AttestationCaList { cas: Vec::new() };
        proof {
            assert(r.model() =~= Seq::<(Seq<u8>, CaModel)>::empty());
        }
        r
    }

    /// Determine if this attestation list contains any members.
    pub fn is_empty(&self) -> (r: bool)
        ensures
            r <==> self.model().len() == 0,
    {
        self.cas.len() == 0
    }

    /// Insert a new attestation CA into this list, keyed by its
    /// certificate digest. An entry already stored under that key id is
    /// replaced outright and handed back; the operation fails, leaving the
    /// registry unchanged, exactly where the certificate cannot be
    /// digested.
    pub fn insert(&mut self, att_ca: AttestationCa) -> (r: Result<
        Option<AttestationCa>,
        CatalogError,
    >)
        requires
            old(self).wf(),
            att_ca.wf(),
        ensures
            r is Ok <==> x509_parses(att_ca.ca@),
            r is Err ==> *final(self) == *old(self) && r->Err_0 == CatalogError::DigestError,
            r is Ok ==> final(self).model() == al_update(
                old(self).model(),
                kid_of(att_ca.ca@),
                att_ca.model(),
            ),
            r is Ok ==> final(self).wf(),
            r is Ok ==> match r->Ok_0 {
                Some(prev) => al_contains(old(self).model(), kid_of(att_ca.ca@))
                    && prev.model() == al_get(old(self).model(), kid_of(att_ca.ca@)),
                None => !al_contains(old(self).model(), kid_of(att_ca.ca@)),
            },
    {
        let kid = match att_ca.get_kid() {
            Ok(kid) => kid,
            Err(e) => {
                return Err(e);
            },
        };
        let ghost m0 = self.model();
        let ghost k = kid_of(att_ca.ca@);
        let mut j: usize = 0;
        while j < self.cas.len() && !key_eq(&kid, &self.cas[j].0)
            invariant
                0 <= j <= self.cas@.len(),
                kid@ == k,
                forall|i: int| 0 <= i < j ==> cas_model(self.cas@)[i].0 != k,
                *self == *old(self),
            decreases self.cas@.len() - j,
        {
            j = j + 1;
        }
        if j < self.cas.len() {
            proof {
                assert(m0[j as int].0 == k);
                lemma_al_get_at(m0, j as int);
                lemma_al_update_at(m0, j as int, att_ca.model());
                lemma_al_update_props(m0, k, att_ca.model());
            }
            let (old_key, prev) = self.cas.remove(j);
            self.cas.insert(j, (old_key, att_ca));
            proof {
                assert(self.cas@ =~= old(self).cas@.update(j as int, (old_key, att_ca)));
                assert(self.model() =~= m0.update(j as int, (k, att_ca.model())));
                assert(self.model() =~= al_update(m0, k, att_ca.model()));
                assert forall|i: int| 0 <= i < self.cas@.len() implies (
                #[trigger] self.cas@[i]).1.wf() by {
                    if i != j {
                        assert(self.cas@[i] == old(self).cas@[i]);
                    }
                }
            }
            Ok(Some(prev))
        } else {
            proof {
                lemma_al_absent(m0, k);
                lemma_al_update_absent(m0, k, att_ca.model());
            }
            self.cas.push((kid, att_ca));
            proof {
                assert(self.model() =~= m0.push((k, att_ca.model())));
                assert(self.model() =~= al_update(m0, k, att_ca.model()));
                lemma_al_update_props(m0, k, att_ca.model());
                assert forall|i: int| 0 <= i < self.cas@.len() implies (
                #[trigger] self.cas@[i]).1.wf() by {
                    if i < self.cas@.len() - 1 {
                        assert(self.cas@[i] == old(self).cas@[i]);
                    }
                }
            }
            Ok(None)
        }
    }

    /// Build a registry from a stream of `(DER certificate, AAGUID)`
    /// pairs, merging by key id: the first sight of a key id stores the
    /// certificate with a singleton allow-list, every later sight only
    /// adds the AAGUID to the existing entry's allow-list.
    pub fn from_iter(pairs: Vec<(Vec<u8>, u128)>) -> (r: Self)
        requires
            forall|i: int| 0 <= i < pairs@.len() ==> x509_parses((#[trigger] pairs@[i]).0@),
        ensures
            r.model() == merge_pairs(Seq::empty(), pairs_view(pairs@)),
            r.wf(),
    {
        let ghost pv = pairs_view(pairs@);
        let mut cas: Vec<(Vec<u8>, AttestationCa)> = Vec::new();
        let mut i: usize = 0;
        proof {
            assert(cas_model(cas@) =~= Seq::<(Seq<u8>, CaModel)>::empty());
            assert(pv.skip(0) =~= pv);
        }
        while i < pairs.len()
            invariant
                0 <= i <= pairs@.len(),
                pv == pairs_view(pairs@),
                forall|n: int| 0 <= n < pairs@.len() ==> x509_parses((#[trigger] pairs@[n]).0@),
                merge_pairs(cas_model(cas@), pv.skip(i as int)) == merge_pairs(
                    Seq::empty(),
                    pv,
                ),
                al_unique_keys(cas_model(cas@)),
                forall|n: int| 0 <= n < cas@.len() ==> (#[trigger] cas@[n]).1.wf(),
            decreases pairs@.len() - i,
        {
            let ghost m0 = cas_model(cas@);
            let aaguid = pairs[i].1;
            let kid = match x509_kid_from_der(pairs[i].0.as_slice()) {
                Some(kid) => kid,
                None => {
                    proof {
                        assert(false);
                    }
                    vstd::pervasive::unreached()
                },
            };
            let ghost k = kid_of(pairs@[i as int].0@);
            let mut j: usize = 0;
            while j < cas.len() && !key_eq(&kid, &cas[j].0)
                invariant
                    0 <= j <= cas@.len(),
                    kid@ == k,
                    m0 == cas_model(cas@),
                    forall|n: int| 0 <= n < j ==> cas_model(cas@)[n].0 != k,
                    al_unique_keys(cas_model(cas@)),
                    forall|n: int| 0 <= n < cas@.len() ==> (#[trigger] cas@[n]).1.wf(),
                decreases cas@.len() - j,
            {
                j = j + 1;
            }
            if j < cas.len() {
                proof {
                    assert(m0[j as int].0 == k);
                    lemma_al_get_at(m0, j as int);
                }
                let (old_key, old_ca) = cas.remove(j);
                let mut new_aaguids = old_ca.aaguids;
                insert_sorted(&mut new_aaguids, aaguid);
                let new_ca = AttestationCa { ca: old_ca.ca, aaguids: new_aaguids };
                proof {
                    lemma_al_update_at(m0, j as int, new_ca.model());
                    lemma_al_update_props(m0, k, new_ca.model());
                }
                cas.insert(j, (old_key, new_ca));
                proof {
                    assert(cas_model(cas@) =~= m0.update(j as int, (k, new_ca.model())));
                    assert(cas_model(cas@) =~= al_update(m0, k, new_ca.model()));
                    assert(cas_model(cas@) == merge_one(m0, pairs@[i as int].0@, aaguid));
                }
            } else {
                proof {
                    lemma_al_absent(m0, k);
                }
                let cert = slice_to_vec(pairs[i].0.as_slice());
                let mut aaguids: Vec<u128> = Vec::new();
                aaguids.push(aaguid);
                let new_ca = AttestationCa { ca: cert, aaguids: aaguids };
                cas.push((kid, new_ca));
                proof {
                    assert(new_ca.model().aaguids =~= seq![aaguid]);
                    assert(new_ca.model() =~= (CaModel {
                        cert: pairs@[i as int].0@,
                        aaguids: seq![aaguid],
                    }));
                    assert(cas_model(cas@) =~= m0.push((k, new_ca.model())));
                    assert(cas_model(cas@) == merge_one(m0, pairs@[i as int].0@, aaguid));
                    assert(al_unique_keys(cas_model(cas@))) by {
                        let m1 = cas_model(cas@);
                        assert forall|p: int, q: int| 0 <= p < q < m1.len() implies m1[p].0
                            != m1[q].0 by {
                            if q == m1.len() - 1 {
                                assert(m1[p] == m0[p]);
                            }
                        }
                    }
                    assert forall|n: int| 0 <= n < cas@.len() implies (
                    #[trigger] cas@[n]).1.wf() by {
                        if n == cas@.len() - 1 {
                            assert(sorted_unique(seq![aaguid]));
                        }
                    }
                }
            }
            proof {
                assert(pv.skip(i as int)[0] == (pairs@[i as int].0@, aaguid));
                assert(pv.skip(i as int).drop_first() =~= pv.skip(i + 1));
                assert(merge_pairs(cas_model(cas@), pv.skip(i + 1)) == merge_pairs(
                    merge_one(m0, pv.skip(i as int)[0].0, pv.skip(i as int)[0].1),
                    pv.skip(i as int).drop_first(),
                ));
            }
            i = i + 1;
        }
        proof {
            assert(pv.skip(pairs@.len() as int) =~= Seq::<(Seq<u8>, u128)>::empty());
        }
        AttestationCaList { cas }
    }

    /// Build a registry from a stream of `(DER certificate, AAGUID)`
    /// pairs, first checking that every certificate can be digested; the
    /// stream is merged exactly as `from_iter` merges it, and rejected as
    /// a whole where any certificate is not a DER certificate.
    pub fn try_from_iter(pairs: Vec<(Vec<u8>, u128)>) -> (r: Result<Self, CatalogError>)
        ensures
            r is Ok <==> (forall|i: int|
                0 <= i < pairs@.len() ==> x509_parses((#[trigger] pairs@[i]).0@)),
            r is Ok ==> r->Ok_0.model() == merge_pairs(Seq::empty(), pairs_view(pairs@)),
            r is Ok ==> r->Ok_0.wf(),
            r is Err ==> r->Err_0 == CatalogError::DigestError,
    {
        let mut i: usize = 0;
        while i < pairs.len()
            invariant
                0 <= i <= pairs@.len(),
                forall|n: int| 0 <= n < i ==> x509_parses((#[trigger] pairs@[n]).0@),
            decreases pairs@.len() - i,
        {
            if x509_kid_from_der(pairs[i].0.as_slice()).is_none() {
                return Err(CatalogError::DigestError);
            }
            i = i + 1;
        }
        Ok(Self::from_iter(pairs))
    }

    /// A registry holding one freshly inserted CA.
    pub fn from_ca(att_ca: AttestationCa) -> (r: Result<Self, CatalogError>)
        requires
            att_ca.wf(),
        ensures
            r is Ok <==> x509_parses(att_ca.ca@),
            r is Ok ==> r->Ok_0.model() =~= seq![(kid_of(att_ca.ca@), att_ca.model())],
            r is Ok ==> r->Ok_0.wf(),
            r is Err ==> r->Err_0 == CatalogError::DigestError,
    {
        let mut new = Self::new();
        match new.insert(att_ca) {
            Ok(_) => Ok(new),
            Err(e) => Err(e),
        }
    }

    /// A registry holding the one CA read from a PEM certificate. The
    /// input must fit a C `int`, the largest length openssl reads from
    /// memory.
    pub fn from_pem(data: &[u8]) -> (r: Result<Self, CatalogError>)
        requires
            data@.len() <= 0x7fff_ffff,
        ensures
            r is Ok <==> (pem_to_der(data@) is Some && x509_parses(pem_to_der(data@)->0)),
            r is Ok ==> r->Ok_0.model() =~= seq![
                (
                    kid_of(pem_to_der(data@)->0),
                    CaModel { cert: pem_to_der(data@)->0, aaguids: Seq::empty() },
                ),
            ],
            r is Ok ==> r->Ok_0.wf(),
            r is Err ==> r->Err_0 == CatalogError::DigestError,
    {
        let mut new = Self::new();
        let att_ca = match AttestationCa::new_from_pem(data) {
            Ok(att_ca) => att_ca,
            Err(e) => {
                return Err(e);
            },
        };
        match new.insert(att_ca) {
            Ok(_) => Ok(new),
            Err(e) => Err(e),
        }
    }
}

impl Default for AttestationCaList {
    /// An empty registry.
    fn default() -> (r: Self)
        ensures
            r.model() == Seq::<(Seq<u8>, CaModel)>::empty(),
            r.wf(),
    {
        Self::new()
    }
}

/// Law: the key id is a deterministic digest — two CAs carrying the same
/// certificate bytes always receive the same key id.
pub proof fn lemma_kid_deterministic(a: AttestationCa, b: AttestationCa)
    requires
        a.ca@ == b.ca@,
    ensures
        kid_of(a.ca@) == kid_of(b.ca@),
{
}

/// Law: registering a CA under a key id that is already present replaces
/// the stored entry outright — the entry under that key becomes the new
/// CA, no allow-lists are merged, the registry keeps its size, and every
/// other entry is untouched.
pub proof fn lemma_register_replaces(m: Seq<(Seq<u8>, CaModel)>, k: Seq<u8>, v: CaModel)
    requires
        al_unique_keys(m),
        al_contains(m, k),
    ensures
        al_get(al_update(m, k, v), k) == v,
        al_update(m, k, v).len() == m.len(),
        forall|k2: Seq<u8>|
            al_contains(m, k2) && k2 != k ==> al_get(al_update(m, k, v), k2) == al_get(m, k2),
{
    lemma_al_update_props(m, k, v);
    let j = choose|j: int| 0 <= j < m.len() && m[j].0 == k;
    assert(m[j].0 == k);
    lemma_al_update_at(m, j, v);
}

/// Law: merging a `(certificate, AAGUID)` pair whose key id is already
/// present preserves the stored certificate and only unions the AAGUID
/// into the allow-list; it never replaces the certificate.
pub proof fn lemma_merge_preserves_certificate(
    m: Seq<(Seq<u8>, CaModel)>,
    cert: Seq<u8>,
    aaguid: u128,
)
    requires
        al_unique_keys(m),
        al_contains(m, kid_of(cert)),
        sorted_unique(al_get(m, kid_of(cert)).aaguids),
    ensures
        al_get(merge_one(m, cert, aaguid), kid_of(cert)).cert == al_get(m, kid_of(cert)).cert,
        forall|y: u128|
            al_get(merge_one(m, cert, aaguid), kid_of(cert)).aaguids.contains(y) <==> (al_get(
                m,
                kid_of(cert),
            ).aaguids.contains(y) || y == aaguid),
{
    let k = kid_of(cert);
    let prev = al_get(m, k);
    let v = CaModel { cert: prev.cert, aaguids: seq_insert_sorted(prev.aaguids, aaguid) };
    lemma_al_update_props(m, k, v);
    lemma_seq_insert_sorted_props(prev.aaguids, aaguid);
}

/// Law: merging a `(certificate, AAGUID)` pair under a fresh key id
/// appends a singleton entry carrying that certificate.
pub proof fn lemma_merge_fresh(m: Seq<(Seq<u8>, CaModel)>, cert: Seq<u8>, aaguid: u128)
    requires
        !al_contains(m, kid_of(cert)),
    ensures
        merge_one(m, cert, aaguid) == m.push(
            (kid_of(cert), CaModel { cert: cert, aaguids: seq![aaguid] }),
        ),
{
}

} // verus!
