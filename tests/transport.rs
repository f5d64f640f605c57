use ed25519_dalek::{Keypair, PublicKey, SecretKey, Signer};
use microledger::block::{Block, Couplet, NontransferableIdentifier, NontransferableSignature, SignedBlock};
use microledger::codec::encode_block;
use microledger::error::Error;
use microledger::ledger::MicroLedger;
use microledger::seal::{SealBundle, SealData};
use microledger::signing::NontransferableVerifier;
use microledger::transport::{
    identifier_from_text, into_identifier, parse_microledger, replay_frames, to_cesr_str, Frame,
    NontransferableBlock, RawCouplet,
};

fn keypair(seed: u8) -> Keypair {
    let secret = SecretKey::from_bytes(&[seed; 32]).unwrap();
    let public = PublicKey::from(&secret);
    Keypair { secret, public }
}

fn next_signed(ledger: &mut MicroLedger, k: &Keypair, text: &str) -> SignedBlock {
    let id = NontransferableIdentifier(k.public.to_bytes().to_vec());
    let bundle = SealBundle::new().attach(SealData::AttachedData(text.to_string()));
    let block = ledger.pre_anchor_block(vec![id.clone()], &bundle).unwrap();
    let sig = k.sign(&encode_block(&block)).to_bytes().to_vec();
    let sb = block.to_signed_block(vec![NontransferableSignature(vec![Couplet { signer: id, signature: sig }])]);
    ledger.anchor(sb.clone()).unwrap();
    sb
}

fn three_frames(tamper_last: bool) -> Vec<u8> {
    let k = keypair(11);
    let mut ledger = MicroLedger::new(NontransferableVerifier);
    let mut stream = Vec::new();
    for text in ["a", "b", "c"] {
        let mut sb = next_signed(&mut ledger, &k, text);
        if tamper_last && text == "c" {
            sb.signatures[0].0[0].signature[5] ^= 1;
        }
        stream.extend(NontransferableBlock(sb).to_cesr().unwrap());
    }
    stream
}

#[test]
fn frame_starts_with_canonical_bytes() {
    let k = keypair(12);
    let mut ledger = MicroLedger::new(NontransferableVerifier);
    let sb = next_signed(&mut ledger, &k, "hello");
    let payload = encode_block(&sb.block);
    let frame = NontransferableBlock(sb.clone()).to_cesr().unwrap();
    assert!(frame.len() > payload.len());
    assert_eq!(&frame[..payload.len()], &payload[..]);
    assert_eq!(&frame[payload.len()..payload.len() + 2], b"-C");
    assert_eq!(to_cesr_str(&sb).unwrap().into_bytes(), frame);
    assert_eq!(NontransferableBlock(sb).to_cesr().unwrap(), frame);
}

#[test]
fn stream_of_valid_frames_rebuilds_ledger() {
    let ledger = parse_microledger(&three_frames(false)).unwrap();
    assert_eq!(ledger.len(), 3);
    assert_eq!(ledger.get_blocks()[0].block.prior_digest, vec![0u8; 32]);
}

#[test]
fn tampered_third_frame_stops_at_two() {
    let stream = three_frames(true);
    assert!(matches!(parse_microledger(&stream), Err(Error::VerificationFailed)));
    let frames = vec![
        frame_of(&stream, 0),
        frame_of(&stream, 1),
        frame_of(&stream, 2),
    ];
    let (ledger, outcome) = replay_frames(&frames);
    assert_eq!(ledger.len(), 2);
    assert!(matches!(outcome, Err(Error::VerificationFailed)));
}

fn frame_of(stream: &[u8], index: usize) -> Frame {
    let (_rest, parsed) = cesrox::parse_many(stream).unwrap();
    let pd = &parsed[index];
    let payload = match &pd.payload {
        cesrox::payload::Payload::JSON(b) => Some(b.clone()),
        _ => None,
    };
    let groups = pd
        .attachments
        .iter()
        .map(|g| match g {
            cesrox::group::Group::NontransReceiptCouples(cs) => Some(
                cs.iter()
                    .map(|((_, key), (_, sig))| RawCouplet {
                        ed25519_key: true,
                        key: key.clone(),
                        ed25519_signature: true,
                        signature: sig.clone(),
                    })
                    .collect(),
            ),
            _ => None,
        })
        .collect();
    Frame { payload, groups }
}

#[test]
fn trailing_bytes_are_a_framing_error() {
    let mut stream = three_frames(false);
    stream.extend(b"#garbage");
    assert!(matches!(parse_microledger(&stream), Err(Error::TransportFraming)));
}

#[test]
fn unreadable_group_is_decode_error() {
    let frames = vec![Frame { payload: Some(b"{}".to_vec()), groups: vec![] }];
    let (ledger, outcome) = replay_frames(&frames);
    assert_eq!(ledger.len(), 0);
    assert!(matches!(outcome, Err(Error::DecodeError)));
}

#[test]
fn identifier_text_round_trip() {
    let k = keypair(13);
    let key = k.public.to_bytes().to_vec();
    let text = into_identifier(&key);
    assert_eq!(text.len(), 44);
    assert!(text.starts_with('B'));
    assert_eq!(identifier_from_text(&text).unwrap().0, key);
    assert!(identifier_from_text("not a prefix").is_none());
    assert!(identifier_from_text("1").is_none());
    assert!(identifier_from_text("1AA").is_none());
}

#[test]
fn signature_from_identifier_text() {
    let k = keypair(14);
    let key = k.public.to_bytes().to_vec();
    let sig = NontransferableSignature::new(&into_identifier(&key), vec![7u8; 64]).unwrap();
    assert_eq!(sig.0.len(), 1);
    assert_eq!(sig.0[0].signer.0, key);
    assert_eq!(sig.0[0].signature, vec![7u8; 64]);
    assert!(NontransferableSignature::new("zzz", vec![1]).is_none());
}

#[test]
fn block_clone_keeps_bytes() {
    let block = Block {
        prior_digest: vec![1, 2],
        controlling_identifiers: vec![NontransferableIdentifier(vec![3])],
        seal_bundle: SealBundle::new().attach(SealData::Digest("E".to_string())),
    };
    assert_eq!(encode_block(&block.clone_block()), encode_block(&block));
}

#[test]
fn oversized_group_is_encode_error() {
    let block = Block { prior_digest: vec![], controlling_identifiers: vec![], seal_bundle: SealBundle::new() };
    let couplet = Couplet { signer: NontransferableIdentifier(vec![1; 32]), signature: vec![2; 64] };
    let big = NontransferableSignature(vec![couplet; 4096]);
    let sb = block.to_signed_block(vec![big]);
    assert!(matches!(NontransferableBlock(sb.clone()).to_cesr(), Err(Error::EncodeError)));
    assert!(matches!(to_cesr_str(&sb), Err(Error::EncodeError)));
}

#[test]
fn stray_bytes_after_frames_are_a_framing_error() {
    let mut stream = three_frames(false);
    stream.extend("\u{e9}".as_bytes());
    assert!(matches!(parse_microledger(&stream), Err(Error::TransportFraming)));
    let mut broken = three_frames(false);
    broken.push(0xff);
    assert!(matches!(parse_microledger(&broken), Err(Error::TransportFraming)));
}

#[test]
fn non_ascii_seals_survive_the_transport_form() {
    let k = keypair(17);
    let mut ledger = MicroLedger::new(NontransferableVerifier);
    let mut stream = Vec::new();
    for text in ["h\u{e9}llo", "\u{65e5}\u{672c}", "plain"] {
        let sb = next_signed(&mut ledger, &k, text);
        stream.extend(NontransferableBlock(sb).to_cesr().unwrap());
    }
    let rebuilt = parse_microledger(&stream).unwrap();
    assert_eq!(rebuilt.len(), 3);
    for i in 0..3 {
        assert_eq!(encode_block(&rebuilt.get_blocks()[i].block), encode_block(&ledger.get_blocks()[i].block));
    }
}

#[test]
fn unknown_group_codes_are_framing_errors() {
    assert!(matches!(parse_microledger(b"{}-DAA"), Err(Error::TransportFraming)));
    let mut stream = three_frames(false);
    stream.extend(b"-DAA");
    assert!(matches!(parse_microledger(&stream), Err(Error::TransportFraming)));
    let mut short = three_frames(false);
    short.extend(b"-CAB1");
    assert!(matches!(parse_microledger(&short), Err(Error::TransportFraming)));
}

#[test]
fn frames_of_unsigned_blocks_are_refused() {
    let block = Block { prior_digest: vec![0u8; 32], controlling_identifiers: vec![], seal_bundle: SealBundle::new() };
    let mut stream = encode_block(&block);
    stream.extend(b"-CAA");
    assert!(matches!(parse_microledger(&stream), Err(Error::EmptyControllerSet)));
}
