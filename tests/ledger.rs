use ed25519_dalek::{Keypair, PublicKey, SecretKey, Signer};
use microledger::block::{Block, Couplet, NontransferableIdentifier, NontransferableSignature, SignedBlock};
use microledger::codec::encode_block;
use microledger::decode::decode_block;
use microledger::error::Error;
use microledger::ledger::MicroLedger;
use microledger::seal::{SealBundle, SealData};
use microledger::signing::NontransferableVerifier;

fn keypair(seed: u8) -> Keypair {
    let secret = SecretKey::from_bytes(&[seed; 32]).unwrap();
    let public = PublicKey::from(&secret);
    Keypair { secret, public }
}

fn id_of(k: &Keypair) -> NontransferableIdentifier {
    NontransferableIdentifier(k.public.to_bytes().to_vec())
}

fn sign(block: &Block, k: &Keypair) -> NontransferableSignature {
    let sig = k.sign(&encode_block(block));
    NontransferableSignature(vec![Couplet { signer: id_of(k), signature: sig.to_bytes().to_vec() }])
}

fn hello_bundle() -> SealBundle {
    SealBundle::new().attach(SealData::AttachedData("hello".to_string()))
}

fn anchored(ledger: &mut MicroLedger, k: &Keypair, text: &str) -> SignedBlock {
    let bundle = SealBundle::new().attach(SealData::AttachedData(text.to_string()));
    let block = ledger.pre_anchor_block(vec![id_of(k)], &bundle).unwrap();
    let sig = sign(&block, k);
    let sb = block.to_signed_block(vec![sig]);
    ledger.anchor(sb.clone()).unwrap();
    sb
}

#[test]
fn seal_bundle_keeps_order() {
    let b = SealBundle::new()
        .attach(SealData::AttachedData("a".to_string()))
        .attach(SealData::Digest("E123".to_string()));
    assert_eq!(b.seals.len(), 2);
    assert!(matches!(&b.seals[0], SealData::AttachedData(s) if s == "a"));
    assert!(matches!(&b.seals[1], SealData::Digest(s) if s == "E123"));
}

#[test]
fn encode_block_exact_bytes() {
    let block = Block {
        prior_digest: vec![0u8; 32],
        controlling_identifiers: vec![NontransferableIdentifier(vec![1, 2, 0xab])],
        seal_bundle: hello_bundle().attach(SealData::Digest("Ex".to_string())),
    };
    let expected = format!(
        "{{\"prior\":\"{}\",\"controllers\":[\"0102ab\"],\"seals\":[{{\"data\":\"hello\"}},{{\"digest\":\"Ex\"}}]}}",
        "00".repeat(32)
    );
    assert_eq!(String::from_utf8(encode_block(&block)).unwrap(), expected);
}

#[test]
fn encode_block_escapes_text() {
    let block = Block {
        prior_digest: vec![],
        controlling_identifiers: vec![],
        seal_bundle: SealBundle::new().attach(SealData::AttachedData("a\"b\\c\nd\u{e9}".to_string())),
    };
    let expected = "{\"prior\":\"\",\"controllers\":[],\"seals\":[{\"data\":\"a\\\"b\\\\c\\u000ad\u{e9}\"}]}";
    assert_eq!(String::from_utf8(encode_block(&block)).unwrap(), expected);
    let parsed: serde_json::Value = serde_json::from_slice(&encode_block(&block)).unwrap();
    assert_eq!(parsed["seals"][0]["data"], "a\"b\\c\nd\u{e9}");
}

#[test]
fn decode_round_trip_is_stable() {
    let k = keypair(1);
    let block = Block {
        prior_digest: vec![9u8; 32],
        controlling_identifiers: vec![id_of(&k), NontransferableIdentifier(vec![0xff])],
        seal_bundle: SealBundle::new()
            .attach(SealData::AttachedData("x\u{1}\"y".to_string()))
            .attach(SealData::Digest("Eabc".to_string())),
    };
    let bytes = encode_block(&block);
    let back = decode_block(&bytes).unwrap();
    assert_eq!(encode_block(&back), bytes);
    assert_eq!(back.prior_digest, vec![9u8; 32]);
    assert_eq!(back.controlling_identifiers.len(), 2);
}

#[test]
fn decode_rejects_non_canonical_bytes() {
    let bytes = b"{ \"prior\":\"\",\"controllers\":[],\"seals\":[]}";
    assert!(matches!(decode_block(bytes), Err(Error::DecodeError)));
    let upper = b"{\"prior\":\"AB\",\"controllers\":[],\"seals\":[]}";
    assert!(matches!(decode_block(upper), Err(Error::DecodeError)));
    let ok = b"{\"prior\":\"ab\",\"controllers\":[],\"seals\":[]}";
    assert_eq!(decode_block(ok).unwrap().prior_digest, vec![0xab]);
    let trailing = b"{\"prior\":\"ab\",\"controllers\":[],\"seals\":[]}x";
    assert!(matches!(decode_block(trailing), Err(Error::DecodeError)));
}

#[test]
fn genesis_proposal_and_anchor() {
    let k = keypair(1);
    let mut ledger = MicroLedger::new(NontransferableVerifier);
    let block = ledger.pre_anchor_block(vec![id_of(&k)], &hello_bundle()).unwrap();
    assert_eq!(block.prior_digest, vec![0u8; 32]);
    let sig = sign(&block, &k);
    assert!(ledger.anchor(block.to_signed_block(vec![sig])).is_ok());
    assert_eq!(ledger.len(), 1);
    assert_eq!(ledger.get_blocks().len(), 1);
}

#[test]
fn empty_controller_set_is_rejected() {
    let ledger = MicroLedger::new(NontransferableVerifier);
    assert!(matches!(ledger.pre_anchor_block(vec![], &hello_bundle()), Err(Error::EmptyControllerSet)));
}

#[test]
fn proposing_twice_gives_same_bytes() {
    let k = keypair(2);
    let mut ledger = MicroLedger::new(NontransferableVerifier);
    anchored(&mut ledger, &k, "first");
    let a = ledger.pre_anchor_block(vec![id_of(&k)], &hello_bundle()).unwrap();
    let b = ledger.pre_anchor_block(vec![id_of(&k)], &hello_bundle()).unwrap();
    assert_eq!(encode_block(&a), encode_block(&b));
}

#[test]
fn blocks_link_to_digest_of_previous() {
    let k = keypair(3);
    let mut ledger = MicroLedger::new(NontransferableVerifier);
    anchored(&mut ledger, &k, "one");
    anchored(&mut ledger, &k, "two");
    anchored(&mut ledger, &k, "three");
    let blocks = ledger.get_blocks();
    assert_eq!(blocks[0].block.prior_digest, vec![0u8; 32]);
    for i in 1..blocks.len() {
        let expected = blake3::hash(&encode_block(&blocks[i - 1].block));
        assert_eq!(blocks[i].block.prior_digest, expected.as_bytes().to_vec());
    }
    assert_eq!(ledger.current_tip(), blake3::hash(&encode_block(&blocks[2].block)).as_bytes().to_vec());
}

#[test]
fn stale_tip_is_linkage_mismatch() {
    let k = keypair(4);
    let mut ledger = MicroLedger::new(NontransferableVerifier);
    let stale = ledger.pre_anchor_block(vec![id_of(&k)], &hello_bundle()).unwrap();
    let stale_sig = sign(&stale, &k);
    anchored(&mut ledger, &k, "winner");
    let before = encode_block(&ledger.get_blocks()[0].block);
    let r = ledger.anchor(stale.to_signed_block(vec![stale_sig]));
    assert!(matches!(r, Err(Error::LinkageMismatch)));
    assert_eq!(ledger.len(), 1);
    assert_eq!(encode_block(&ledger.get_blocks()[0].block), before);
}

#[test]
fn signer_outside_controllers_is_unauthorized() {
    let owner = keypair(5);
    let outsider = keypair(6);
    let mut ledger = MicroLedger::new(NontransferableVerifier);
    let block = ledger.pre_anchor_block(vec![id_of(&owner)], &hello_bundle()).unwrap();
    let sig = sign(&block, &outsider);
    let r = ledger.anchor(block.to_signed_block(vec![sig]));
    assert!(matches!(r, Err(Error::UnauthorizedSigner)));
    assert_eq!(ledger.len(), 0);
}

#[test]
fn tampered_signature_fails_verification() {
    let k = keypair(7);
    let mut ledger = MicroLedger::new(NontransferableVerifier);
    let block = ledger.pre_anchor_block(vec![id_of(&k)], &hello_bundle()).unwrap();
    let mut sig = sign(&block, &k);
    sig.0[0].signature[0] ^= 1;
    let r = ledger.anchor(block.to_signed_block(vec![sig]));
    assert!(matches!(r, Err(Error::VerificationFailed)));
    assert_eq!(ledger.len(), 0);
}

#[test]
fn no_signature_fails_verification() {
    let k = keypair(8);
    let mut ledger = MicroLedger::new(NontransferableVerifier);
    let block = ledger.pre_anchor_block(vec![id_of(&k)], &hello_bundle()).unwrap();
    assert!(matches!(ledger.anchor(block.to_signed_block(vec![])), Err(Error::VerificationFailed)));
}

#[test]
fn malformed_key_is_decode_error() {
    let k = keypair(9);
    let mut ledger = MicroLedger::new(NontransferableVerifier);
    let block = ledger.pre_anchor_block(vec![id_of(&k)], &hello_bundle()).unwrap();
    let mut sig = sign(&block, &k);
    sig.0[0].signer = NontransferableIdentifier(vec![1, 2, 3]);
    assert!(matches!(ledger.anchor(block.to_signed_block(vec![sig])), Err(Error::DecodeError)));
    assert_eq!(ledger.len(), 0);
}

#[test]
fn get_signer_names_first_couplet() {
    let k = keypair(10);
    let block = Block { prior_digest: vec![], controlling_identifiers: vec![], seal_bundle: SealBundle::new() };
    let sig = sign(&block, &k);
    assert_eq!(sig.get_signer().unwrap().0, k.public.to_bytes().to_vec());
    assert!(NontransferableSignature(vec![]).get_signer().is_none());
}

#[test]
fn error_descriptions_differ() {
    assert_ne!(Error::LinkageMismatch.describe(), Error::UnauthorizedSigner.describe());
    assert_eq!(Error::EmptyControllerSet.describe(), "empty controller set");
}

#[test]
fn signature_without_couplets_is_rejected() {
    let k = keypair(15);
    let mut ledger = MicroLedger::new(NontransferableVerifier);
    let block = ledger.pre_anchor_block(vec![id_of(&k)], &hello_bundle()).unwrap();
    let r = ledger.anchor(block.to_signed_block(vec![NontransferableSignature(vec![])]));
    assert!(matches!(r, Err(Error::VerificationFailed)));
    assert_eq!(ledger.len(), 0);
}

#[test]
fn block_without_controllers_is_rejected() {
    let k = keypair(16);
    let mut ledger = MicroLedger::new(NontransferableVerifier);
    let block = Block { prior_digest: vec![0u8; 32], controlling_identifiers: vec![], seal_bundle: hello_bundle() };
    let sig = sign(&block, &k);
    assert!(matches!(ledger.anchor(block.to_signed_block(vec![sig])), Err(Error::EmptyControllerSet)));
    assert_eq!(ledger.len(), 0);
}

#[test]
fn empty_signature_set_verifies_vacuously() {
    assert_eq!(NontransferableVerifier.verify(b"data", &vec![]).unwrap(), true);
}
