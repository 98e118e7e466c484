//! The header of an envelope: who can open it, and how the payload is sealed.

pub mod json;
pub mod ser;
pub mod size;
pub mod utf8;

use crate::artifacts::{PublicKey, UserSecretKey};
use crate::constants::{CT_BYTES, SYMMETRIC_CRYPTO_DEFAULT_CHUNK};
use crate::error::Error;
use crate::identity::{
    spec_hide,
    spec_is_hidden,
    spec_policy_encodable,
    HiddenPolicy,
    Policy,
    PolicyView,
};
use crate::kem::{
    ct_bytes_valid,
    kem_multi_decaps,
    kem_multi_encaps,
    spec_ct_valid,
    spec_multi_decaps,
    spec_pk_valid,
    spec_usk_valid,
};
use crate::util::{generate_iv, spec_text_lt, str_eq, str_lt, SharedSecret};
use rand::rngs::StdRng;
use vstd::prelude::*;

verus! {

/// How the payload is processed.
#[derive(Debug, Eq, PartialEq, Clone, Copy)]
pub enum Mode {
    /// The payload is a stream, sealed in segments.
    Streaming {
        /// The number of payload bytes in a full segment.
        segment_size: u32,
        /// A hint of the payload's size, as a lower and an optional upper bound.
        size_hint: (u64, Option<u64>),
    },
    /// The payload is processed in memory; its size is known beforehand.
    InMemory { size: u64 },
}

/// The default mode: streaming in segments of 65536 bytes, with no size hint.
pub open spec fn spec_default_mode() -> Mode {
    Mode::Streaming { segment_size: 65536, size_hint: (0, None) }
}

impl Default for Mode {
    fn default() -> (mode: Mode)
        ensures
            mode == spec_default_mode(),
    {
        Mode::Streaming { segment_size: SYMMETRIC_CRYPTO_DEFAULT_CHUNK, size_hint: (0, None) }
    }
}

/// The symmetric cipher that seals the payload, with its initialization vector.
/// Only AES-128-GCM is in use; the others are reserved.
#[derive(Debug, Eq, PartialEq, Clone, Copy)]
#[allow(inconsistent_fields)]
pub enum Algorithm {
    Aes128Gcm { iv: [u8; 16] },
    XSalsa20Poly1305 { iv: [u8; 24] },
    Aes128Ocb { iv: [u8; 12] },
    Aegis128 { iv: [u8; 16] },
}

/// The default cipher: AES-128-GCM under a fresh random initialization vector.
/// The vector is drawn from `rng`, so nothing is known of it; the cipher is
/// what [`aes128gcm_with`] makes of it.
pub fn default_algo(rng: &mut StdRng) -> (algo: Algorithm)
    ensures
        algo is Aes128Gcm,
{
    aes128gcm_with(generate_iv(rng))
}

/// The cipher AES-128-GCM under the initialization vector `iv`.
pub fn aes128gcm_with(iv: [u8; 16]) -> (algo: Algorithm)
    ensures
        algo == (Algorithm::Aes128Gcm { iv }),
{
    Algorithm::Aes128Gcm { iv }
}

/// What the header holds for one recipient.
#[derive(Debug)]
pub struct RecipientHeader {
    /// The policy the recipient must satisfy, without its values.
    pub policy: HiddenPolicy,
    /// The ciphertext from which the recipient recovers the shared secret.
    pub ct: [u8; 284],
}

/// The header of an envelope, with the data of all its recipients.
#[derive(Debug)]
pub struct Header {
    /// The recipients, each under its identifier, in ascending order of the
    /// identifiers.
    pub policies: Vec<(String, RecipientHeader)>,
    /// The cipher that seals the payload.
    pub algo: Algorithm,
    /// How the payload is processed.
    pub mode: Mode,
}

/// One recipient of a header, as mathematical data.
pub struct RecipientView {
    pub id: Seq<char>,
    pub policy: PolicyView,
    pub ct: Seq<u8>,
}

/// A header as mathematical data.
pub struct HeaderView {
    pub recipients: Seq<RecipientView>,
    pub algo: Algorithm,
    pub mode: Mode,
}

/// The view of one entry of a header.
pub open spec fn recipient_view(entry: (String, RecipientHeader)) -> RecipientView {
    RecipientView { id: entry.0@, policy: entry.1.policy@, ct: entry.1.ct@ }
}

/// The views of the entries of a header, in order.
pub open spec fn recipients_view(entries: Seq<(String, RecipientHeader)>) -> Seq<RecipientView> {
    entries.map_values(|e: (String, RecipientHeader)| recipient_view(e))
}

impl View for Header {
    type V = HeaderView;

    open spec fn view(&self) -> HeaderView {
        HeaderView { recipients: recipients_view(self.policies@), algo: self.algo, mode: self.mode }
    }
}

/// Whether no identifier occurs twice.
pub open spec fn spec_ids_unique(ids: Seq<Seq<char>>) -> bool {
    forall|i: int, j: int| 0 <= i < j < ids.len() ==> ids[i] != ids[j]
}

/// Whether the identifiers stand in ascending order, each before the next.
pub open spec fn spec_ids_ascending(ids: Seq<Seq<char>>) -> bool {
    forall|i: int| 0 <= i && i + 1 < ids.len() ==> spec_text_lt(#[trigger] ids[i], ids[i + 1])
}

/// The identifiers of a header's recipients, in order.
pub open spec fn spec_recipient_ids(recipients: Seq<RecipientView>) -> Seq<Seq<char>> {
    recipients.map_values(|r: RecipientView| r.id)
}

/// A header is well formed when it has a recipient, the recipients stand in
/// ascending order of their identifiers, as an ordered map keeps them, no
/// identifier occurs twice, every ciphertext has the length the scheme dictates,
/// and no policy carries a value.
pub open spec fn spec_header_wf(h: HeaderView) -> bool {
    &&& h.recipients.len() > 0
    &&& spec_ids_unique(spec_recipient_ids(h.recipients))
    &&& spec_ids_ascending(spec_recipient_ids(h.recipients))
    &&& forall|i: int|
        0 <= i < h.recipients.len() ==> (#[trigger] h.recipients[i]).ct.len() == CT_BYTES
            && spec_is_hidden(h.recipients[i].policy)
}

/// The policies handed to a sender, as mathematical data.
pub open spec fn policies_view(policies: Seq<(String, Policy)>) -> Seq<(Seq<char>, PolicyView)> {
    policies.map_values(|e: (String, Policy)| (e.0@, e.1@))
}

/// The identifiers of the policies, in order.
pub open spec fn spec_policy_ids(policies: Seq<(Seq<char>, PolicyView)>) -> Seq<Seq<char>> {
    policies.map_values(|e: (Seq<char>, PolicyView)| e.0)
}

/// Whether a header can be built for the policies: there is at least one, they
/// stand in ascending order of their identifiers, no identifier occurs twice,
/// and every policy has a canonical encoding.
pub open spec fn spec_policies_sealable(policies: Seq<(Seq<char>, PolicyView)>) -> bool {
    &&& policies.len() > 0
    &&& spec_ids_unique(spec_policy_ids(policies))
    &&& spec_ids_ascending(spec_policy_ids(policies))
    &&& forall|i: int| 0 <= i < policies.len() ==> spec_policy_encodable((#[trigger] policies[i]).1)
}

/// Whether a header was built for the policies: it names the same identifiers in
/// the same order, each with its policy hidden.
pub open spec fn spec_header_matches(h: HeaderView, policies: Seq<(Seq<char>, PolicyView)>) -> bool {
    &&& h.recipients.len() == policies.len()
    &&& forall|i: int|
        0 <= i < policies.len() ==> {
            &&& (#[trigger] h.recipients[i]).id == policies[i].0
            &&& h.recipients[i].policy == spec_hide(policies[i].1)
            &&& h.recipients[i].ct.len() == CT_BYTES
        }
}

/// Reports whether the identifiers of the entries are pairwise distinct.
pub fn ids_unique<T>(entries: &Vec<(String, T)>) -> (unique: bool)
    ensures
        unique == spec_ids_unique(entries@.map_values(|e: (String, T)| e.0@)),
{
    let ghost ids = entries@.map_values(|e: (String, T)| e.0@);
    let n = entries.len();
    let mut j: usize = 0;
    while j < n
        invariant
            j <= n,
            n == entries@.len(),
            ids == entries@.map_values(|e: (String, T)| e.0@),
            forall|a: int, b: int| 0 <= a < b < j ==> ids[a] != ids[b],
        decreases n - j,
    {
        let mut i: usize = 0;
        while i < j
            invariant
                i <= j < n,
                n == entries@.len(),
                ids == entries@.map_values(|e: (String, T)| e.0@),
                forall|a: int| 0 <= a < i ==> ids[a] != ids[j as int],
            decreases j - i,
        {
            if entries[i].0 == entries[j].0 {
                assert(ids[i as int] == ids[j as int]);
                return false;
            }
            i += 1;
        }
        j += 1;
    }
    true
}

/// Reports whether the identifiers of the entries stand in ascending order.
pub fn ids_ascending<T>(entries: &Vec<(String, T)>) -> (ascending: bool)
    ensures
        ascending == spec_ids_ascending(entries@.map_values(|e: (String, T)| e.0@)),
{
    let ghost ids = entries@.map_values(|e: (String, T)| e.0@);
    let n = entries.len();
    let mut i: usize = 1;
    while i < n
        invariant
            1 <= i,
            n == entries@.len(),
            ids == entries@.map_values(|e: (String, T)| e.0@),
            forall|j: int| 0 <= j && j + 1 < i ==> spec_text_lt(#[trigger] ids[j], ids[j + 1]),
        decreases n - i,
    {
        if !str_lt(entries[i - 1].0.as_str(), entries[i].0.as_str()) {
            assert(!spec_text_lt(ids[i - 1], ids[i - 1 + 1]));
            return false;
        }
        i += 1;
    }
    true
}

impl Clone for RecipientHeader {
    fn clone(&self) -> (copy: RecipientHeader)
        ensures
            copy.policy@ == self.policy@,
            copy.ct == self.ct,
    {
        RecipientHeader { policy: self.policy.clone(), ct: self.ct }
    }
}

impl Clone for Header {
    fn clone(&self) -> (copy: Header)
        ensures
            copy@ == self@,
    {
        let mut policies: Vec<(String, RecipientHeader)> = Vec::new();
        let mut i: usize = 0;
        while i < self.policies.len()
            invariant
                i <= self.policies@.len(),
                policies@.len() == i,
                forall|j: int|
                    0 <= j < i ==> recipient_view(#[trigger] policies@[j]) == recipient_view(
                        self.policies@[j],
                    ),
            decreases self.policies@.len() - i,
        {
            let entry = &self.policies[i];
            policies.push((entry.0.clone(), entry.1.clone()));
            i += 1;
        }
        let copy = Header { policies, algo: self.algo, mode: self.mode };
        assert(copy@.recipients =~= self@.recipients);
        copy
    }
}

impl RecipientHeader {
    /// Recovers the shared secret with the recipient's user secret key. It fails
    /// with `FormatViolation` when the ciphertext is not one the scheme accepts,
    /// and with `Kem` when the scheme refuses to decapsulate it with this key.
    pub fn derive_keys(&self, usk: &UserSecretKey) -> (res: Result<SharedSecret, Error>)
        ensures
            match res {
                Ok(ss) => spec_ct_valid(self.ct@) && spec_multi_decaps(usk@, self.ct@) == Some(
                    ss.0@,
                ),
                Err(e) => if !spec_ct_valid(self.ct@) {
                    e == Error::FormatViolation
                } else {
                    e == Error::Kem && spec_multi_decaps(usk@, self.ct@) is None
                },
            },
    {
        if !ct_bytes_valid(&self.ct) {
            return Err(Error::FormatViolation);
        }
        let usk_bytes = usk.to_bytes();
        match kem_multi_decaps(&usk_bytes, &self.ct) {
            Some(ss) => Ok(SharedSecret(ss)),
            None => Err(Error::Kem),
        }
    }
}

impl Header {
    /// Whether the header is well formed.
    pub open spec fn wf(&self) -> bool {
        spec_header_wf(self@)
    }

    /// Builds the header of an envelope for the given recipients, and the secret
    /// that they will share. It fails with `ConstraintViolation` exactly when
    /// there is no recipient, the recipients do not stand in ascending order of
    /// their identifiers, an identifier occurs twice, or a policy has no
    /// canonical encoding; the generator is then left as it was. Secret,
    /// ciphertexts and initialization vector are random.
    pub fn new(pk: &PublicKey, policies: &Vec<(String, Policy)>, rng: &mut StdRng) -> (res: Result<
        (Header, SharedSecret),
        Error,
    >)
        ensures
            match res {
                Ok((header, ss)) => {
                    &&& spec_policies_sealable(policies_view(policies@))
                    &&& header.wf()
                    &&& spec_header_matches(header@, policies_view(policies@))
                    &&& header.algo is Aes128Gcm
                    &&& header.mode == spec_default_mode()
                },
                Err(e) => {
                    &&& e == Error::ConstraintViolation
                    &&& !spec_policies_sealable(policies_view(policies@))
                    &&& *final(rng) == *old(rng)
                },
            },
    {
        let ghost pv = policies_view(policies@);
        let n = policies.len();
        if n == 0 {
            return Err(Error::ConstraintViolation);
        }
        let unique = ids_unique(policies);
        let ascending = ids_ascending(policies);
        proof {
            assert(spec_policy_ids(pv) =~= policies@.map_values(|e: (String, Policy)| e.0@));
        }
        if !unique || !ascending {
            return Err(Error::ConstraintViolation);
        }
        let mut ids: Vec<[u8; 64]> = Vec::new();
        let mut i: usize = 0;
        while i < n
            invariant
                i <= n,
                n == policies@.len(),
                pv == policies_view(policies@),
                ids@.len() == i,
                forall|j: int| 0 <= j < i ==> spec_policy_encodable((#[trigger] pv[j]).1),
            decreases n - i,
        {
            match policies[i].1.derive() {
                Ok(id) => {
                    ids.push(id);
                },
                Err(_) => {
                    assert(!spec_policy_encodable(pv[i as int].1));
                    return Err(Error::ConstraintViolation);
                },
            }
            i += 1;
        }
        let pk_bytes = pk.to_bytes();
        let (cts, ss) = kem_multi_encaps(&pk_bytes, &ids, rng);
        let mut recipients: Vec<(String, RecipientHeader)> = Vec::new();
        let mut k: usize = 0;
        while k < n
            invariant
                k <= n,
                n == policies@.len(),
                cts@.len() == n,
                pv == policies_view(policies@),
                recipients@.len() == k,
                forall|j: int|
                    0 <= j < k ==> {
                        &&& recipient_view(#[trigger] recipients@[j]).id == pv[j].0
                        &&& recipient_view(recipients@[j]).policy == spec_hide(pv[j].1)
                        &&& recipient_view(recipients@[j]).ct == cts@[j]@
                    },
            decreases n - k,
        {
            let entry = &policies[k];
            recipients.push(
                (entry.0.clone(), RecipientHeader { policy: entry.1.to_hidden(), ct: cts[k] }),
            );
            k += 1;
        }
        let algo = default_algo(rng);
        let header = Header { policies: recipients, algo, mode: Mode::default() };
        proof {
            let hv = header@;
            assert(hv.recipients.len() == n);
            assert forall|j: int| 0 <= j < n implies {
                &&& (#[trigger] hv.recipients[j]).id == pv[j].0
                &&& hv.recipients[j].policy == spec_hide(pv[j].1)
                &&& hv.recipients[j].ct.len() == 284
                &&& spec_is_hidden(hv.recipients[j].policy)
            } by {
                assert(hv.recipients[j] == recipient_view(recipients@[j]));
                crate::identity::lemma_hide_preserves_shape(pv[j].1);
            }
            assert(spec_recipient_ids(hv.recipients) =~= spec_policy_ids(pv));
        }
        Ok((header, SharedSecret(ss)))
    }

    /// The same header with another mode.
    pub fn with_mode(self, mode: Mode) -> (header: Header)
        ensures
            header@ == (HeaderView { mode, ..self@ }),
    {
        let mut header = self;
        header.mode = mode;
        header
    }

    /// The same header with another cipher.
    pub fn with_algo(self, algo: Algorithm) -> (header: Header)
        ensures
            header@ == (HeaderView { algo, ..self@ }),
    {
        let mut header = self;
        header.algo = algo;
        header
    }

    /// The entry of the recipient `id`: the first one under that identifier, if
    /// the header has one.
    pub fn get(&self, id: &str) -> (entry: Option<&RecipientHeader>)
        ensures
            match entry {
                Some(r) => exists|i: int|
                    {
                        &&& 0 <= i < self.policies@.len()
                        &&& (#[trigger] self.policies@[i]).0@ == id@
                        &&& *r == self.policies@[i].1
                        &&& forall|j: int| 0 <= j < i ==> (#[trigger] self.policies@[j]).0@ != id@
                    },
                None => forall|i: int|
                    0 <= i < self.policies@.len() ==> (#[trigger] self.policies@[i]).0@ != id@,
            },
    {
        let n = self.policies.len();
        let mut i: usize = 0;
        while i < n
            invariant
                i <= n,
                n == self.policies@.len(),
                forall|j: int| 0 <= j < i ==> (#[trigger] self.policies@[j]).0@ != id@,
            decreases n - i,
        {
            if str_eq(self.policies[i].0.as_str(), id) {
                let r = &self.policies[i].1;
                assert(self.policies@[i as int].0@ == id@ && *r == self.policies@[i as int].1);
                return Some(r);
            }
            i += 1;
        }
        None
    }

    /// The identifiers of the recipients, in order.
    pub fn recipient_ids(&self) -> (ids: Vec<String>)
        ensures
            ids@.map_values(|s: String| s@) == spec_recipient_ids(self@.recipients),
    {
        let n = self.policies.len();
        let mut ids: Vec<String> = Vec::new();
        let mut i: usize = 0;
        while i < n
            invariant
                i <= n,
                n == self.policies@.len(),
                ids@.len() == i,
                forall|j: int| 0 <= j < i ==> (#[trigger] ids@[j])@ == self.policies@[j].0@,
            decreases n - i,
        {
            ids.push(self.policies[i].0.clone());
            i += 1;
        }
        assert(ids@.map_values(|s: String| s@) =~= spec_recipient_ids(self@.recipients));
        ids
    }
}

} // verus!
