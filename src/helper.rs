//! A simple scheme: identifiers as plain names, signatures as base64 text,
//! checked against one Ed25519 public key.
use base64::Engine;
use crate::error::Error;
use crate::signing::{ed25519_verdict, ed25519_verify};
use vstd::prelude::*;

verus! {

/// The standard base64 text (with padding) of some bytes.
pub uninterp spec fn base64_standard(b: Seq<u8>) -> Seq<char>;

/// Relies on base64's `general_purpose::STANDARD.encode`: the standard alphabet
/// with padding, a function of the bytes alone; no bytes give no text.
#[verifier::external_body]
fn encode_base64(b: &[u8]) -> (r: String)
    ensures
        r@ == base64_standard(b@),
        b@.len() == 0 ==> r@.len() == 0,
{
    base64::engine::general_purpose::STANDARD.encode(b)
}

/// The name that every signature of this scheme attributes itself to.
pub open spec fn default_identifier_name() -> Seq<char> {
    seq!['I', 'd', 'e', 'n', 't', 'i', 'f', 'i', 'e', 'r', '1']
}

/// An identifier given by its name.
#[derive(Clone, Debug)]
pub struct EasyIdentifier(pub String);

impl Default for EasyIdentifier {
    /// The identifier named `Identifier1`.
    fn default() -> (r: EasyIdentifier)
        ensures
            r.0@ == default_identifier_name(),
    {
        proof {
            reveal_strlit("Identifier1");
        }
        let r = EasyIdentifier("Identifier1".to_string());
        assert(r.0@ =~= default_identifier_name());
        r
    }
}

/// A signature held as its standard base64 text.
#[derive(Clone, Debug)]
pub struct EdSignature(pub String);

impl EdSignature {
    /// The signature whose raw bytes are `sig_bytes`.
    pub fn new(sig_bytes: &[u8]) -> (r: EdSignature)
        ensures
            r.0@ == base64_standard(sig_bytes@),
    {
        EdSignature(encode_base64(sig_bytes))
    }

    /// The identifier that signed: this scheme always names `Identifier1`.
    pub fn get_signer(&self) -> (r: Option<EasyIdentifier>)
        ensures
            r matches Some(id) && id.0@ == default_identifier_name(),
    {
        Some(EasyIdentifier::default())
    }
}

/// The bytes that a standard base64 text (with padding) stands for, if it is one.
pub uninterp spec fn base64_standard_decoded(text: Seq<char>) -> Option<Seq<u8>>;

/// Relies on base64's `general_purpose::STANDARD.decode`: the bytes of a
/// standard, padded base64 text, or an error when the text is not one; a
/// function of the text alone.
#[verifier::external_body]
fn decode_base64(text: &str) -> (r: Option<Vec<u8>>)
    ensures
        r matches Some(b) ==> base64_standard_decoded(text@) == Some(b@),
        r is None ==> base64_standard_decoded(text@) is None,
{
    base64::engine::general_purpose::STANDARD.decode(text).ok()
}

/// The signature text is base64, and its bytes can be checked under the key.
pub open spec fn ed_readable(key: Seq<u8>, data: Seq<u8>, sig: Seq<char>) -> bool {
    base64_standard_decoded(sig) matches Some(b) && ed25519_verdict(key, data, b) is Some
}

/// What an `EdVerifier` with this key reports of signatures (as base64 text)
/// over `data`: an error when one is not base64 or not readable by Ed25519,
/// else whether all verify.
pub open spec fn ed_verdict(key: Seq<u8>, data: Seq<u8>, sigs: Seq<Seq<char>>) -> Result<bool, Error> {
    if exists|i: int| 0 <= i < sigs.len() && !#[trigger] ed_readable(key, data, sigs[i]) {
        Err(Error::DecodeError)
    } else {
        Ok(forall|i: int| 0 <= i < sigs.len() ==> #[trigger] ed25519_verdict(
            key,
            data,
            base64_standard_decoded(sigs[i])->0,
        ) == Some(true))
    }
}

/// Checks `EdSignature`s against one Ed25519 public key.
pub struct EdVerifier {
    pub public_key: Vec<u8>,
}

impl EdVerifier {
    /// The verifier for the key written as standard base64 text; `None` when
    /// the text is not base64 of 32 bytes.
    pub fn new(pk: &str) -> (r: Option<EdVerifier>)
        ensures
            r matches Some(v) ==> base64_standard_decoded(pk@) == Some(v.public_key@) && v.public_key@.len() == 32,
            r is None ==> !(base64_standard_decoded(pk@) matches Some(b) && b.len() == 32),
    {
        match decode_base64(pk) {
            Some(b) => {
                if b.len() == 32 {
                    Some(EdVerifier { public_key: b })
                } else {
                    None
                }
            },
            None => None,
        }
    }

    /// Whether the signatures verify over `data`.
    pub fn verify(&self, data: &[u8], s: &Vec<EdSignature>) -> (r: Result<bool, Error>)
        ensures
            r == ed_verdict(self.public_key@, data@, s@.map_values(|x: EdSignature| x.0@)),
    {
        let ghost sigs = s@.map_values(|x: EdSignature| x.0@);
        let mut ok = true;
        let mut i: usize = 0;
        while i < s.len()
            invariant
                i <= s@.len(),
                sigs == s@.map_values(|x: EdSignature| x.0@),
                forall|j: int| 0 <= j < i ==> #[trigger] ed_readable(self.public_key@, data@, sigs[j]),
                ok == forall|j: int| 0 <= j < i ==> #[trigger] ed25519_verdict(
                    self.public_key@,
                    data@,
                    base64_standard_decoded(sigs[j])->0,
                ) == Some(true),
            decreases s@.len() - i,
        {
            let raw = match decode_base64(s[i].0.as_str()) {
                Some(b) => b,
                None => {
                    assert(base64_standard_decoded(sigs[i as int]) is None);
                    assert(!ed_readable(self.public_key@, data@, sigs[i as int]));
                    return Err(Error::DecodeError);
                },
            };
            match ed25519_verify(self.public_key.as_slice(), data, raw.as_slice()) {
                None => {
                    assert(base64_standard_decoded(sigs[i as int]) == Some(raw@));
                    assert(!ed_readable(self.public_key@, data@, sigs[i as int]));
                    return Err(Error::DecodeError);
                },
                Some(v) => {
                    if !v {
                        ok = false;
                    }
                },
            }
            assert(base64_standard_decoded(sigs[i as int]) == Some(raw@));
            assert(ed_readable(self.public_key@, data@, sigs[i as int]));
            i = i + 1;
        }
        Ok(ok)
    }
}

} // verus!
