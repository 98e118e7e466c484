//! A fixed set of recipients with keys, for trying the library out.

use crate::artifacts::{PublicKey, SecretKey, UserSecretKey};
use crate::identity::{Attribute, Policy};
use crate::kem::{kem_extract_usk, kem_setup, rng_from_seed};
use rand::rngs::StdRng;
use vstd::prelude::*;
use vstd::utf8::{encode_utf8, is_ascii_chars, is_ascii_chars_encode_utf8};

verus! {

/// A master key pair, two recipients with their policies, and the user secret
/// key of each.
#[derive(Debug)]
pub struct TestSetup {
    /// The master public key.
    pub mpk: PublicKey,
    /// The master secret key.
    pub msk: SecretKey,
    /// The policies, each under its recipient's identifier.
    pub policies: Vec<(String, Policy)>,
    /// The user secret keys, each under its recipient's identifier.
    pub usks: Vec<(String, UserSecretKey)>,
}

/// The timestamp of both policies.
pub const SETUP_TIMESTAMP: u64 = 1566722350;

/// Whether the policies are the two of the setup: one recipient who holds a
/// citizen number, one who holds a name and an e-mail address.
pub open spec fn spec_setup_policies(policies: Seq<(String, Policy)>) -> bool {
    &&& policies.len() == 2
    &&& policies[0].0@ == "j.doe@example.com"@
    &&& policies[0].1.timestamp == SETUP_TIMESTAMP
    &&& policies[0].1.con@.len() == 1
    &&& policies[0].1.con@[0]@.atype == "pbdf.gemeente.personalData.bsn"@
    &&& policies[0].1.con@[0]@.value == Some("123456789"@)
    &&& policies[1].0@ == "john.doe@example.com"@
    &&& policies[1].1.timestamp == SETUP_TIMESTAMP
    &&& policies[1].1.con@.len() == 2
    &&& policies[1].1.con@[0]@.atype == "pbdf.gemeente.personalData.name"@
    &&& policies[1].1.con@[0]@.value == Some("john"@)
    &&& policies[1].1.con@[1]@.atype == "pbdf.sidn-pbdf.email.email"@
    &&& policies[1].1.con@[1]@.value == Some("john.doe@example.com"@)
}

/// The two policies of the setup.
pub fn setup_policies() -> (policies: Vec<(String, Policy)>)
    ensures
        spec_setup_policies(policies@),
{
    let mut con1: Vec<Attribute> = Vec::new();
    con1.push(Attribute::new("pbdf.gemeente.personalData.bsn", Some("123456789")));
    let mut con2: Vec<Attribute> = Vec::new();
    con2.push(Attribute::new("pbdf.gemeente.personalData.name", Some("john")));
    con2.push(Attribute::new("pbdf.sidn-pbdf.email.email", Some("john.doe@example.com")));
    let mut policies: Vec<(String, Policy)> = Vec::new();
    policies.push(
        ("j.doe@example.com".to_owned(), Policy { timestamp: SETUP_TIMESTAMP, con: con1 }),
    );
    policies.push(
        ("john.doe@example.com".to_owned(), Policy { timestamp: SETUP_TIMESTAMP, con: con2 }),
    );
    policies
}

/// The policies of the setup have a canonical encoding.
proof fn lemma_setup_encodable(policies: Seq<(String, Policy)>, i: int)
    requires
        spec_setup_policies(policies),
        0 <= i < 2,
    ensures
        crate::identity::spec_policy_encodable(policies[i].1@),
{
    reveal_strlit("pbdf.gemeente.personalData.bsn");
    reveal_strlit("123456789");
    reveal_strlit("pbdf.gemeente.personalData.name");
    reveal_strlit("john");
    reveal_strlit("pbdf.sidn-pbdf.email.email");
    reveal_strlit("john.doe@example.com");
    assert(is_ascii_chars("pbdf.gemeente.personalData.bsn"@));
    assert(is_ascii_chars("123456789"@));
    assert(is_ascii_chars("pbdf.gemeente.personalData.name"@));
    assert(is_ascii_chars("john"@));
    assert(is_ascii_chars("pbdf.sidn-pbdf.email.email"@));
    assert(is_ascii_chars("john.doe@example.com"@));
    is_ascii_chars_encode_utf8("pbdf.gemeente.personalData.bsn"@);
    is_ascii_chars_encode_utf8("123456789"@);
    is_ascii_chars_encode_utf8("pbdf.gemeente.personalData.name"@);
    is_ascii_chars_encode_utf8("john"@);
    is_ascii_chars_encode_utf8("pbdf.sidn-pbdf.email.email"@);
    is_ascii_chars_encode_utf8("john.doe@example.com"@);
    let p = policies[i].1@;
    assert forall|j: int| 0 <= j < p.con.len() implies crate::identity::spec_attr_encodable(
        #[trigger] p.con[j],
    ) by {
        assert(p.con[j] == policies[i].1.con@[j]@);
    }
}

impl TestSetup {
    /// Builds the setup with the randomness of `rng`: generates a master key pair
    /// and extracts a user secret key for each of the two policies. The keys are
    /// random; the policies are fixed.
    pub fn new(rng: &mut StdRng) -> (setup: TestSetup)
        ensures
            spec_setup_policies(setup.policies@),
            setup.usks@.len() == 2,
            setup.usks@[0].0@ == setup.policies@[0].0@,
            setup.usks@[1].0@ == setup.policies@[1].0@,
    {
        let policies = setup_policies();
        let (pk_bytes, sk_bytes) = kem_setup(rng);
        let mut usks: Vec<(String, UserSecretKey)> = Vec::new();
        let mut i: usize = 0;
        while i < 2
            invariant
                i <= 2,
                spec_setup_policies(policies@),
                crate::kem::spec_sk_valid(sk_bytes@),
                usks@.len() == i,
                forall|j: int| 0 <= j < i ==> (#[trigger] usks@[j]).0@ == policies@[j].0@,
            decreases 2 - i,
        {
            let entry = &policies[i];
            let id = match entry.1.derive() {
                Ok(id) => id,
                Err(_) => {
                    proof {
                        lemma_setup_encodable(policies@, i as int);
                    }
                    vstd::pervasive::unreached()
                },
            };
            let usk = UserSecretKey::from_valid(kem_extract_usk(&sk_bytes, &id, rng));
            usks.push((entry.0.clone(), usk));
            i += 1;
        }
        let mpk = PublicKey::from_valid(pk_bytes);
        let msk = SecretKey::from_valid(sk_bytes);
        TestSetup { mpk, msk, policies, usks }
    }

    /// The user secret key of the recipient `id`: the first one under that
    /// identifier, if the setup has one.
    pub fn usk(&self, id: &str) -> (key: Option<&UserSecretKey>)
        ensures
            match key {
                Some(k) => exists|i: int|
                    {
                        &&& 0 <= i < self.usks@.len()
                        &&& (#[trigger] self.usks@[i]).0@ == id@
                        &&& *k == self.usks@[i].1
                        &&& forall|j: int| 0 <= j < i ==> (#[trigger] self.usks@[j]).0@ != id@
                    },
                None => forall|i: int|
                    0 <= i < self.usks@.len() ==> (#[trigger] self.usks@[i]).0@ != id@,
            },
    {
        let mut i: usize = 0;
        while i < self.usks.len()
            invariant
                i <= self.usks@.len(),
                forall|j: int| 0 <= j < i ==> (#[trigger] self.usks@[j]).0@ != id@,
            decreases self.usks@.len() - i,
        {
            if crate::util::str_eq(self.usks[i].0.as_str(), id) {
                let k = &self.usks[i].1;
                assert(self.usks@[i as int].0@ == id@ && *k == self.usks@[i as int].1);
                return Some(k);
            }
            i += 1;
        }
        None
    }
}

impl Default for TestSetup {
    /// The setup under a generator seeded with 1: the same on every run.
    fn default() -> (setup: TestSetup)
        ensures
            spec_setup_policies(setup.policies@),
            setup.usks@.len() == 2,
            setup.usks@[0].0@ == setup.policies@[0].0@,
            setup.usks@[1].0@ == setup.policies@[1].0@,
    {
        let mut rng = rng_from_seed(1);
        TestSetup::new(&mut rng)
    }
}

} // verus!
