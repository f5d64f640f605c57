//! Checking the couplets of a signed block with Ed25519.
use crate::block::{CoupletView, NontransferableSignature};
use crate::error::Error;
use vstd::prelude::*;

verus! {

/// What Ed25519 verification says of a signature over `data` under `key`:
/// `None` when the key or the signature bytes are not well formed.
pub uninterp spec fn ed25519_verdict(key: Seq<u8>, data: Seq<u8>, sig: Seq<u8>) -> Option<bool>;

/// Relies on ed25519-dalek 1.0: `PublicKey::from_bytes` and
/// `Signature::from_bytes` to read the key and the signature (either may
/// refuse its bytes), and `Verifier::verify` for the check itself. The
/// outcome depends on the three byte strings alone.
#[verifier::external_body]
pub(crate) fn ed25519_verify(key: &[u8], data: &[u8], sig: &[u8]) -> (r: Option<bool>)
    ensures
        r == ed25519_verdict(key@, data@, sig@),
{
    let pk = ed25519_dalek::PublicKey::from_bytes(key).ok()?;
    let s = ed25519_dalek::Signature::from_bytes(sig).ok()?;
    Some(ed25519_dalek::Verifier::verify(&pk, data, &s).is_ok())
}

/// Every couplet of every signature can be read.
pub open spec fn all_well_formed(data: Seq<u8>, sigs: Seq<Seq<CoupletView>>) -> bool {
    forall|i: int, j: int|
        0 <= i < sigs.len() && 0 <= j < sigs[i].len() ==> (#[trigger] ed25519_verdict(
            sigs[i][j].0,
            data,
            sigs[i][j].1,
        )) is Some
}

/// Every couplet of every signature verifies.
pub open spec fn all_valid(data: Seq<u8>, sigs: Seq<Seq<CoupletView>>) -> bool {
    forall|i: int, j: int|
        0 <= i < sigs.len() && 0 <= j < sigs[i].len() ==> #[trigger] ed25519_verdict(
            sigs[i][j].0,
            data,
            sigs[i][j].1,
        ) == Some(true)
}

/// What the verifier reports of signatures over `data`.
pub open spec fn verdict(data: Seq<u8>, sigs: Seq<Seq<CoupletView>>) -> Result<bool, Error> {
    if !all_well_formed(data, sigs) {
        Err(Error::DecodeError)
    } else {
        Ok(all_valid(data, sigs))
    }
}

/// Checks non-transferable couplets: each names an Ed25519 key and carries a
/// signature made with it.
#[derive(Clone, Copy, Debug)]
pub struct NontransferableVerifier;

impl NontransferableVerifier {
    /// Whether the signatures verify over `data`. Unreadable key or signature
    /// bytes are an error; a well-formed signature that does not verify is
    /// `Ok(false)`. An empty set of signatures holds no invalid one.
    pub fn verify(&self, data: &[u8], s: &Vec<NontransferableSignature>) -> (r: Result<bool, Error>)
        ensures
            r == verdict(data@, s@.map_values(|x: NontransferableSignature| x@)),
    {
        let ghost sigs = s@.map_values(|x: NontransferableSignature| x@);
        let mut ok = true;
        let mut i: usize = 0;
        while i < s.len()
            invariant
                i <= s@.len(),
                sigs == s@.map_values(|x: NontransferableSignature| x@),
                forall|a: int, b: int|
                    0 <= a < i && 0 <= b < sigs[a].len() ==> (#[trigger] ed25519_verdict(
                        sigs[a][b].0,
                        data@,
                        sigs[a][b].1,
                    )) is Some,
                ok == forall|a: int, b: int|
                    0 <= a < i && 0 <= b < sigs[a].len() ==> #[trigger] ed25519_verdict(
                        sigs[a][b].0,
                        data@,
                        sigs[a][b].1,
                    ) == Some(true),
            decreases s@.len() - i,
        {
            let cs = &s[i].0;
            let mut j: usize = 0;
            let ghost ok_before = ok;
            while j < cs.len()
                invariant
                    i < s@.len(),
                    cs == &s@[i as int].0,
                    j <= cs@.len(),
                    sigs == s@.map_values(|x: NontransferableSignature| x@),
                    sigs[i as int] == cs@.map_values(|c: crate::block::Couplet| c@),
                    forall|a: int, b: int|
                        0 <= a < i && 0 <= b < sigs[a].len() ==> (#[trigger] ed25519_verdict(
                            sigs[a][b].0,
                            data@,
                            sigs[a][b].1,
                        )) is Some,
                    forall|b: int|
                        0 <= b < j ==> (#[trigger] ed25519_verdict(
                            sigs[i as int][b].0,
                            data@,
                            sigs[i as int][b].1,
                        )) is Some,
                    ok == (ok_before && forall|b: int|
                        0 <= b < j ==> #[trigger] ed25519_verdict(
                            sigs[i as int][b].0,
                            data@,
                            sigs[i as int][b].1,
                        ) == Some(true)),
                    ok_before == forall|a: int, b: int|
                        0 <= a < i && 0 <= b < sigs[a].len() ==> #[trigger] ed25519_verdict(
                            sigs[a][b].0,
                            data@,
                            sigs[a][b].1,
                        ) == Some(true),
                decreases cs@.len() - j,
            {
                let c = &cs[j];
                match ed25519_verify(c.signer.0.as_slice(), data, c.signature.as_slice()) {
                    None => {
                        assert(ed25519_verdict(sigs[i as int][j as int].0, data@, sigs[i as int][j as int].1) is None);
                        return Err(Error::DecodeError);
                    },
                    Some(v) => {
                        if !v {
                            ok = false;
                        }
                    },
                }
                j = j + 1;
            }
            i = i + 1;
        }
        Ok(ok)
    }
}

} // verus!
