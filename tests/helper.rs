use base64::Engine;
use ed25519_dalek::{Keypair, PublicKey, SecretKey, Signer};
use microledger::error::Error;
use microledger::helper::{EasyIdentifier, EdSignature, EdVerifier};

fn keypair(seed: u8) -> Keypair {
    let secret = SecretKey::from_bytes(&[seed; 32]).unwrap();
    let public = PublicKey::from(&secret);
    Keypair { secret, public }
}

#[test]
fn ed_signature_is_standard_base64() {
    assert_eq!(EdSignature::new(b"hello").0, "aGVsbG8=");
    assert_eq!(EdSignature::new(&[0xfb, 0xff]).0, "+/8=");
}

#[test]
fn easy_identifier_default_name() {
    assert_eq!(EasyIdentifier::default().0, "Identifier1");
    assert_eq!(EdSignature::new(b"x").get_signer().unwrap().0, "Identifier1");
}

#[test]
fn ed_verifier_checks_signatures() {
    let k = keypair(20);
    let pk = base64::engine::general_purpose::STANDARD.encode(k.public.to_bytes());
    let verifier = EdVerifier::new(&pk).unwrap();
    let data = b"payload";
    let good = EdSignature::new(&k.sign(data).to_bytes());
    assert_eq!(verifier.verify(data, &vec![good.clone()]).unwrap(), true);
    assert_eq!(verifier.verify(b"other", &vec![good]).unwrap(), false);
    assert!(matches!(verifier.verify(data, &vec![EdSignature("%%%".to_string())]), Err(Error::DecodeError)));
    assert_eq!(verifier.verify(data, &vec![]).unwrap(), true);
}

#[test]
fn ed_verifier_rejects_bad_key_text() {
    assert!(EdVerifier::new("not base64!").is_none());
    assert!(EdVerifier::new("aGVsbG8=").is_none());
}
