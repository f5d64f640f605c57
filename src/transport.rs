//! The transport form of signed blocks: each frame is the block's canonical
//! bytes followed by one group of non-transferable receipt couplets per
//! signature, in the CESR encoding.
use crate::block::{Couplet, CoupletView, NontransferableIdentifier, NontransferableSignature, SignedBlock, SignedBlockView};
use crate::codec::{block_json, encode_block};
use crate::decode::{decode_block, prefix_at, read_block_at, string_from_utf8};
use crate::error::Error;
use crate::ledger::{anchor_outcome, valid_chain, MicroLedger};
use crate::signing::NontransferableVerifier;
use cesrox::group::Group;
use cesrox::payload::Payload;
use cesrox::primitives::codes::basic::Basic;
use cesrox::primitives::codes::self_signing::SelfSigning;
use cesrox::primitives::CesrPrimitive;
use vstd::prelude::*;
use vstd::string::StringSliceAdditionalSpecFns;

verus! {

/// The CESR frame of a JSON payload followed by one group of non-transferable
/// receipt couplets (Ed25519 key, Ed25519 signature) per entry of `groups`.
pub uninterp spec fn cesr_frame(payload: Seq<u8>, groups: Seq<Seq<CoupletView>>) -> Seq<u8>;

/// Every group is small enough for the two-character count of a CESR group code.
pub open spec fn frameable(groups: Seq<Seq<CoupletView>>) -> bool {
    forall|i: int| 0 <= i < groups.len() ==> (#[trigger] groups[i]).len() < 4096
}

/// Relies on cesrox's `ParsedData::to_cesr`, which writes the payload bytes
/// unchanged and then each attachment group as text (a group code and
/// URL-safe base64 primitives, all ASCII) and always returns `Ok`; its bytes depend on the
/// payload and the groups alone. A group code cannot count 4096 items or more
/// (cesrox's `num_to_b64` stops there), hence the `requires`.
#[verifier::external_body]
fn frame_bytes(payload: &Vec<u8>, groups: &Vec<NontransferableSignature>) -> (r: Option<Vec<u8>>)
    requires
        frameable(groups@.map_values(|s: NontransferableSignature| s@)),
    ensures
        r is Some,
        r matches Some(v) ==> v@ == cesr_frame(payload@, groups@.map_values(|s: NontransferableSignature| s@)),
        r matches Some(v) ==> payload@.len() <= v@.len() && v@.subrange(0, payload@.len() as int) == payload@,
        r matches Some(v) ==> crate::utf8_form::ascii_seq(v@.subrange(payload@.len() as int, v@.len() as int)),
{
    let attachments = groups.iter().map(|g| Group::NontransReceiptCouples(g.0.iter().map(|c|
        ((Basic::Ed25519Nontrans, c.signer.0.clone()), (SelfSigning::Ed25519Sha512, c.signature.clone()))).collect())).collect();
    cesrox::ParsedData { payload: Payload::JSON(payload.clone()), attachments }.to_cesr().ok()
}

/// A signed block wrapped for the transport form.
pub struct NontransferableBlock(pub SignedBlock);

impl NontransferableBlock {
    /// The CESR frame of the signed block: its canonical bytes, then its
    /// signatures as couplet groups.
    pub fn to_cesr(&self) -> (r: Result<Vec<u8>, Error>)
        ensures
            frameable(self.0@.signatures) ==> (r matches Ok(v) && v@ == cesr_frame(
                block_json(self.0.block@),
                self.0@.signatures,
            )),
            !frameable(self.0@.signatures) ==> r == Err::<Vec<u8>, Error>(Error::EncodeError),
            r matches Ok(v) ==> vstd::utf8::valid_utf8(v@),
    {
        let ghost sigs = self.0@.signatures;
        let mut i: usize = 0;
        while i < self.0.signatures.len()
            invariant
                sigs == self.0@.signatures,
                i <= sigs.len(),
                forall|j: int| 0 <= j < i ==> (#[trigger] sigs[j]).len() < 4096,
            decreases sigs.len() - i,
        {
            if self.0.signatures[i].0.len() >= 4096 {
                assert(sigs[i as int].len() >= 4096);
                return Err(Error::EncodeError);
            }
            i = i + 1;
        }
        let payload = encode_block(&self.0.block);
        match frame_bytes(&payload, &self.0.signatures) {
            Some(v) => {
                proof {
                    let n = payload@.len() as int;
                    crate::utf8_form::lemma_block_json_valid(self.0.block@);
                    crate::utf8_form::lemma_ascii_valid(v@.subrange(n, v@.len() as int));
                    vstd::utf8::valid_utf8_concat(v@.subrange(0, n), v@.subrange(n, v@.len() as int));
                    assert(v@ =~= v@.subrange(0, n) + v@.subrange(n, v@.len() as int));
                }
                Ok(v)
            },
            None => Err(Error::EncodeError),
        }
    }
}

/// The transport form of a signed block as text.
pub fn to_cesr_str(signed_block: &SignedBlock) -> (r: Result<String, Error>)
    ensures
        r matches Ok(s) ==> vstd::utf8::encode_utf8(s@) == cesr_frame(block_json(signed_block.block@), signed_block@.signatures),
        r is Err ==> r == Err::<String, Error>(Error::EncodeError),
        !frameable(signed_block@.signatures) ==> r == Err::<String, Error>(Error::EncodeError),
        frameable(signed_block@.signatures) ==> r is Ok,
{
    let b = NontransferableBlock(SignedBlock { block: signed_block.block.clone_block(), signatures: clone_signatures(&signed_block.signatures) });
    let bytes = NontransferableBlock::to_cesr(&b)?;
    let ghost bv = bytes@;
    match string_from_utf8(bytes) {
        Some(s) => {
            proof {
                vstd::utf8::decode_utf8_encode_utf8(bv);
            }
            Ok(s)
        },
        None => Err(Error::EncodeError),
    }
}

fn clone_signatures(s: &Vec<NontransferableSignature>) -> (r: Vec<NontransferableSignature>)
    ensures
        r@.map_values(|x: NontransferableSignature| x@) == s@.map_values(|x: NontransferableSignature| x@),
{
    let mut r: Vec<NontransferableSignature> = Vec::new();
    let mut i: usize = 0;
    while i < s.len()
        invariant
            i <= s@.len(),
            r@.len() == i,
            forall|j: int| 0 <= j < i ==> #[trigger] r@[j]@ == s@[j]@,
        decreases s@.len() - i,
    {
        r.push(s[i].clone_signature());
        i = i + 1;
    }
    assert(r@.map_values(|x: NontransferableSignature| x@) =~= s@.map_values(|x: NontransferableSignature| x@));
    r
}

/// A couplet as a transport frame carries it: whether the key is a
/// non-transferable Ed25519 key, the key's bytes, whether the signature is an
/// Ed25519 signature, and the signature's bytes.
pub struct RawCouplet {
    pub ed25519_key: bool,
    pub key: Vec<u8>,
    pub ed25519_signature: bool,
    pub signature: Vec<u8>,
}

pub type RawCoupletView = (bool, Seq<u8>, bool, Seq<u8>);

impl View for RawCouplet {
    type V = RawCoupletView;

    open spec fn view(&self) -> RawCoupletView {
        (self.ed25519_key, self.key@, self.ed25519_signature, self.signature@)
    }
}

/// One frame of a transport stream: its payload when that is JSON, and each
/// attachment group, when that is a group of non-transferable receipt couplets.
pub struct Frame {
    pub payload: Option<Vec<u8>>,
    pub groups: Vec<Option<Vec<RawCouplet>>>,
}

pub struct FrameView {
    pub payload: Option<Seq<u8>>,
    pub groups: Seq<Option<Seq<RawCoupletView>>>,
}

pub open spec fn group_view(g: Option<Vec<RawCouplet>>) -> Option<Seq<RawCoupletView>> {
    match g {
        Some(cs) => Some(cs@.map_values(|c: RawCouplet| c@)),
        None => None,
    }
}

impl View for Frame {
    type V = FrameView;

    open spec fn view(&self) -> FrameView {
        FrameView {
            payload: match self.payload {
                Some(p) => Some(p@),
                None => None,
            },
            groups: self.groups@.map_values(|g: Option<Vec<RawCouplet>>| group_view(g)),
        }
    }
}

/// The frames that a stream splits into, and how many bytes are left after them.
pub uninterp spec fn cesr_frames(stream: Seq<u8>) -> Option<(Seq<FrameView>, nat)>;

/// Whether the bytes are valid UTF-8.
fn is_utf8(b: &[u8]) -> (r: bool)
    ensures
        r == vstd::utf8::valid_utf8(b@),
{
    string_from_utf8(vstd::slice::slice_to_vec(b)).is_some()
}

/// A character of the URL-safe base64 alphabet.
pub open spec fn b64url_char(c: u8) -> bool {
    (65 <= c <= 90) || (97 <= c <= 122) || (48 <= c <= 57) || c == 45 || c == 95
}

/// The value of a URL-safe base64 digit.
pub open spec fn b64_digit(c: u8) -> int {
    if 65 <= c <= 90 {
        c - 65
    } else if 97 <= c <= 122 {
        c - 71
    } else if 48 <= c <= 57 {
        c + 4
    } else if c == 45 {
        62
    } else {
        63
    }
}

/// `n` base64 characters stand from `from` on.
pub open spec fn b64url_run(s: Seq<u8>, from: int, n: int) -> bool {
    forall|i: int| from <= i < from + n ==> b64url_char(#[trigger] s[i])
}

/// A couplet at `q`: `B` and 43 characters (an Ed25519 key), then `0B` and 86
/// characters (an Ed25519 signature).
pub open spec fn couplet_at(s: Seq<u8>, q: int) -> bool {
    &&& 0 <= q && q + 132 <= s.len()
    &&& s[q] == 66 && b64url_run(s, q + 1, 43)
    &&& s[q + 44] == 48 && s[q + 45] == 66 && b64url_run(s, q + 46, 86)
}

/// The couplet count written in the group code at `p`.
pub open spec fn group_count(s: Seq<u8>, p: int) -> int {
    b64_digit(s[p + 2]) * 64 + b64_digit(s[p + 3])
}

/// A group of non-transferable receipt couplets at `p`: `-C`, a two-digit
/// count, and that many couplets.
pub open spec fn group_at(s: Seq<u8>, p: int) -> bool {
    &&& 0 <= p && p + 4 <= s.len()
    &&& s[p] == 45 && s[p + 1] == 67 && b64url_char(s[p + 2]) && b64url_char(s[p + 3])
    &&& p + 4 + 132 * group_count(s, p) <= s.len()
    &&& forall|k: int| 0 <= k < group_count(s, p) ==> #[trigger] couplet_at(s, p + 4 + 132 * k)
}

/// From `p` on, the stream is a run of canonical blocks and couplet groups.
pub open spec fn screened_from(s: Seq<u8>, p: int) -> bool
    decreases s.len() - p,
{
    if p < 0 || p >= s.len() {
        p == s.len()
    } else if s[p] == 123 {
        if exists|v: crate::block::BlockView| prefix_at(s, p, block_json(v)) {
            let v = choose|v: crate::block::BlockView| prefix_at(s, p, block_json(v));
            if block_json(v).len() > 0 {
                screened_from(s, p + block_json(v).len())
            } else {
                false
            }
        } else {
            false
        }
    } else if group_at(s, p) && group_count(s, p) >= 0 {
        screened_from(s, p + 4 + 132 * group_count(s, p))
    } else {
        false
    }
}

/// The stream is a run of canonical blocks and couplet groups: what this
/// library writes, and all that it hands to the CESR parser.
pub open spec fn screened(s: Seq<u8>) -> bool {
    screened_from(s, 0)
}

fn b64_value(c: u8) -> (r: Option<u16>)
    ensures
        r is Some <==> b64url_char(c),
        r matches Some(d) ==> d == b64_digit(c) && d < 64,
{
    if 65 <= c && c <= 90 {
        Some((c - 65) as u16)
    } else if 97 <= c && c <= 122 {
        Some((c - 71) as u16)
    } else if 48 <= c && c <= 57 {
        Some((c + 4) as u16)
    } else if c == 45 {
        Some(62)
    } else if c == 95 {
        Some(63)
    } else {
        None
    }
}

fn b64_run_at(s: &[u8], from: usize, n: usize) -> (r: bool)
    requires
        from + n <= s@.len(),
    ensures
        r == b64url_run(s@, from as int, n as int),
{
    let len = s.len();
    assert(from + n <= len);
    let end = from + n;
    let mut i: usize = from;
    while i < end
        invariant
            end == from + n,
            from <= i <= end,
            end <= s@.len(),
            forall|j: int| from <= j < i ==> b64url_char(#[trigger] s@[j]),
        decreases end - i,
    {
        if b64_value(s[i]).is_none() {
            return false;
        }
        i = i + 1;
    }
    true
}

fn couplet_check(s: &[u8], q: usize) -> (r: bool)
    ensures
        r == couplet_at(s@, q as int),
{
    if q > s.len() || s.len() - q < 132 {
        return false;
    }
    s[q] == 66 && b64_run_at(s, q + 1, 43) && s[q + 44] == 48 && s[q + 45] == 66 && b64_run_at(s, q + 46, 86)
}

/// The end of the couplet group at `p`, if one stands there.
fn group_check(s: &[u8], p: usize) -> (r: Option<usize>)
    ensures
        r matches Some(e) ==> group_at(s@, p as int) && group_count(s@, p as int) >= 0 && e == p + 4 + 132 * group_count(s@, p as int),
        r is None ==> !(group_at(s@, p as int) && group_count(s@, p as int) >= 0),
{
    let n = s.len();
    if p > n || n - p < 4 || s[p] != 45 || s[p + 1] != 67 {
        return None;
    }
    let hi = match b64_value(s[p + 2]) {
        Some(d) => d,
        None => return None,
    };
    let lo = match b64_value(s[p + 3]) {
        Some(d) => d,
        None => return None,
    };
    let count: usize = (hi * 64 + lo) as usize;
    assert(count == group_count(s@, p as int));
    if count > (n - p - 4) / 132 {
        return None;
    }
    let mut k: usize = 0;
    let mut q: usize = p + 4;
    while k < count
        invariant
            count == group_count(s@, p as int),
            p + 4 + 132 * count <= n,
            n == s@.len(),
            k <= count,
            q == p + 4 + 132 * k,
            forall|j: int| 0 <= j < k ==> #[trigger] couplet_at(s@, p + 4 + 132 * j),
        decreases count - k,
    {
        if !couplet_check(s, q) {
            return None;
        }
        k = k + 1;
        q = q + 132;
    }
    Some(q)
}

/// Whether the stream is a run of canonical blocks and couplet groups.
fn screen(s: &[u8]) -> (r: bool)
    ensures
        r == screened(s@),
{
    let n = s.len();
    let mut p: usize = 0;
    while p < n
        invariant
            n == s@.len(),
            p <= n,
            screened(s@) == screened_from(s@, p as int),
        decreases n - p,
    {
        if s[p] == 123 {
            let ghost target: Option<crate::block::BlockView> = if exists|v: crate::block::BlockView| prefix_at(s@, p as int, block_json(v)) {
                Some(choose|v: crate::block::BlockView| prefix_at(s@, p as int, block_json(v)))
            } else {
                None
            };
            match read_block_at(s, p, Ghost(target)) {
                Some((b, e)) => {
                    proof {
                        assert(prefix_at(s@, p as int, block_json(b@)));
                        crate::codec::lemma_heads();
                        assert(block_json(b@).len() > 0);
                    }
                    p = e;
                },
                None => return false,
            }
        } else {
            match group_check(s, p) {
                Some(e) => {
                    p = e;
                },
                None => return false,
            }
        }
    }
    true
}

/// Relies on `cesrox::parse_many`, which splits a stream into as many frames
/// as it can read (a payload, then attachment groups) and hands back the
/// bytes it could not read; the outcome depends on the stream alone. Its
/// primitive parser unwraps `str::from_utf8` of the rest of the stream, which
/// a valid UTF-8 stream passes wherever that rest starts on a character
/// boundary, as it does between the pieces of a screened stream. Group codes `-D`, `-U` and `-W` to `-Z`
/// reach a `todo!()`, and short primitives starting with `0` or `1` are
/// sliced past their end; a screened stream holds only JSON payloads, which
/// `serde_json` reads, and `-C` groups of `B` keys and `0B` signatures of
/// full length, hence the `requires`.
#[verifier::external_body]
fn parse_frames(stream: &[u8]) -> (r: Option<(Vec<Frame>, usize)>)
    requires
        vstd::utf8::valid_utf8(stream@),
        screened(stream@),
    ensures
        r matches Some((fs, rest)) ==> cesr_frames(stream@) == Some((fs@.map_values(|f: Frame| f@), rest as nat)),
        r is None ==> cesr_frames(stream@) is None,
{
    let (rest, parsed) = cesrox::parse_many(stream).ok()?;
    let frames = parsed.into_iter().map(|pd| Frame {
        payload: match pd.payload { Payload::JSON(b) => Some(b), Payload::CBOR(_) => None, Payload::MGPK(_) => None },
        groups: pd.attachments.into_iter().map(|g| match g {
            Group::NontransReceiptCouples(cs) => Some(cs.into_iter().map(|((kc, k), (sc, s))| RawCouplet {
                ed25519_key: matches!(kc, Basic::Ed25519Nontrans), key: k,
                ed25519_signature: matches!(sc, SelfSigning::Ed25519Sha512), signature: s }).collect()),
            _ => None,
        }).collect(),
    }).collect();
    Some((frames, rest.len()))
}

/// The signature that a couplet group stands for, when every couplet is an
/// Ed25519 key with an Ed25519 signature.
pub open spec fn group_signature(g: Option<Seq<RawCoupletView>>) -> Option<Seq<CoupletView>> {
    match g {
        Some(cs) => if forall|i: int| 0 <= i < cs.len() ==> (#[trigger] cs[i]).0 && cs[i].2 {
            Some(cs.map_values(|c: RawCoupletView| (c.1, c.3)))
        } else {
            None
        },
        None => None,
    }
}

/// The signatures of a frame, when every group stands for one.
pub open spec fn frame_signatures(f: FrameView) -> Option<Seq<Seq<CoupletView>>> {
    if forall|i: int| 0 <= i < f.groups.len() ==> (#[trigger] group_signature(f.groups[i])) is Some {
        Some(f.groups.map_values(|g: Option<Seq<RawCoupletView>>| group_signature(g)->0))
    } else {
        None
    }
}

/// The frame carries the signed block: its canonical bytes as payload, and
/// its signatures as groups.
pub open spec fn frame_holds(f: FrameView, b: SignedBlockView) -> bool {
    f.payload == Some(block_json(b.block)) && frame_signatures(f) == Some(b.signatures)
}

/// A frame carries at most one signed block.
pub proof fn lemma_frame_holds_one(f: FrameView, a: SignedBlockView, b: SignedBlockView)
    requires
        frame_holds(f, a),
        frame_holds(f, b),
    ensures
        a == b,
{
    crate::unique::lemma_block_json_injective(a.block, b.block);
}

/// A signed block can be read from the frame.
pub open spec fn readable(f: FrameView) -> bool {
    &&& f.payload matches Some(p) && exists|v: crate::block::BlockView| block_json(v) == p
    &&& frame_signatures(f) is Some
}

fn read_group(g: &Option<Vec<RawCouplet>>) -> (r: Option<NontransferableSignature>)
    ensures
        r matches Some(s) ==> group_signature(group_view(*g)) == Some(s@),
        r is None ==> group_signature(group_view(*g)) is None,
{
    match g {
        None => None,
        Some(cs) => {
            let ghost gv = cs@.map_values(|c: RawCouplet| c@);
            assert(group_view(*g)->0 =~= gv);
            let mut out: Vec<Couplet> = Vec::new();
            let mut i: usize = 0;
            while i < cs.len()
                invariant
                    group_view(*g) is Some && group_view(*g)->0 == gv,
                    i <= cs@.len(),
                    gv == cs@.map_values(|c: RawCouplet| c@),
                    out@.len() == i,
                    forall|j: int| 0 <= j < i ==> (#[trigger] gv[j]).0 && gv[j].2,
                    forall|j: int| 0 <= j < i ==> #[trigger] out@[j]@ == (gv[j].1, gv[j].3),
                decreases cs@.len() - i,
            {
                let c = &cs[i];
                if !c.ed25519_key || !c.ed25519_signature {
                    assert(gv[i as int] == cs@[i as int]@);
                    assert(!(gv[i as int].0 && gv[i as int].2));
                    return None;
                }
                out.push(Couplet { signer: NontransferableIdentifier(crate::block::copy_bytes(&c.key)), signature: crate::block::copy_bytes(&c.signature) });
                i = i + 1;
            }
            let s = NontransferableSignature(out);
            assert(group_view(*g)->0 =~= gv);
            assert(s@ =~= gv.map_values(|c: RawCoupletView| (c.1, c.3)));
            Some(s)
        },
    }
}

/// Reads the signed block that a frame carries.
pub fn frame_to_signed_block(f: &Frame) -> (r: Result<SignedBlock, Error>)
    ensures
        r matches Ok(sb) ==> frame_holds(f@, sb@),
        r is Err ==> r == Err::<SignedBlock, Error>(Error::DecodeError),
        readable(f@) ==> r is Ok,
{
    let payload = match &f.payload {
        Some(p) => p,
        None => return Err(Error::DecodeError),
    };
    let block = match decode_block(payload.as_slice()) {
        Ok(b) => b,
        Err(e) => return Err(e),
    };
    let ghost gs = f@.groups;
    let mut sigs: Vec<NontransferableSignature> = Vec::new();
    let mut i: usize = 0;
    while i < f.groups.len()
        invariant
            i <= f.groups@.len(),
            gs == f@.groups,
            sigs@.len() == i,
            forall|j: int| 0 <= j < i ==> (#[trigger] group_signature(gs[j])) == Some(sigs@[j]@),
        decreases f.groups@.len() - i,
    {
        match read_group(&f.groups[i]) {
            Some(s) => sigs.push(s),
            None => {
                assert(group_signature(gs[i as int]) is None);
                return Err(Error::DecodeError);
            },
        }
        i = i + 1;
    }
    let sb = block.to_signed_block(sigs);
    assert(sb@.signatures =~= gs.map_values(|g: Option<Seq<RawCoupletView>>| group_signature(g)->0));
    Ok(sb)
}

/// Why a frame cannot join `chain`: it cannot be read, or the block it
/// carries is refused with `e`.
pub open spec fn fails_on(f: FrameView, chain: Seq<SignedBlockView>, e: Error) -> bool {
    (!readable(f) && e == Error::DecodeError) || exists|sb: SignedBlockView|
        frame_holds(f, sb) && anchor_outcome(chain, sb) == Err::<(), Error>(e)
}

/// Replaying the frames stops with `e`: the frames before some frame give a
/// valid chain, and that frame fails on it with `e`.
pub open spec fn replay_stops(fs: Seq<FrameView>, e: Error) -> bool {
    exists|chain: Seq<SignedBlockView>|
        valid_chain(chain) && chain.len() < fs.len() && (forall|i: int| 0 <= i < chain.len() ==> frame_holds(#[trigger] fs[i], chain[i]))
            && fails_on(fs[chain.len() as int], chain, e)
}

proof fn lemma_same_prefix(fs: Seq<FrameView>, blocks: Seq<SignedBlockView>, c: Seq<SignedBlockView>)
    requires
        blocks.len() <= fs.len(),
        c.len() <= blocks.len(),
        forall|i: int| 0 <= i < blocks.len() ==> frame_holds(#[trigger] fs[i], blocks[i]),
        forall|i: int| 0 <= i < c.len() ==> frame_holds(#[trigger] fs[i], c[i]),
    ensures
        c == blocks.take(c.len() as int),
{
    assert forall|i: int| 0 <= i < c.len() implies c[i] == blocks.take(c.len() as int)[i] by {
        assert(frame_holds(fs[i], c[i]));
        assert(frame_holds(fs[i], blocks[i]));
        lemma_frame_holds_one(fs[i], c[i], blocks[i]);
    }
    assert(c =~= blocks.take(c.len() as int));
}

proof fn lemma_holds_readable(f: FrameView, b: SignedBlockView)
    requires
        frame_holds(f, b),
    ensures
        readable(f),
{
    assert(block_json(b.block) == f.payload->0);
}

/// Frames that carry a valid chain, block by block, replay without stopping.
pub proof fn lemma_replay_succeeds(fs: Seq<FrameView>, blocks: Seq<SignedBlockView>, e: Error)
    requires
        blocks.len() == fs.len(),
        valid_chain(blocks),
        forall|i: int| 0 <= i < fs.len() ==> frame_holds(#[trigger] fs[i], blocks[i]),
    ensures
        !replay_stops(fs, e),
{
    if replay_stops(fs, e) {
        let c = choose|c: Seq<SignedBlockView>|
            valid_chain(c) && c.len() < fs.len() && (forall|i: int| 0 <= i < c.len() ==> frame_holds(#[trigger] fs[i], c[i]))
                && fails_on(fs[c.len() as int], c, e);
        let k = c.len() as int;
        lemma_same_prefix(fs, blocks, c);
        assert(anchor_outcome(blocks.take(k), blocks[k]) is Ok);
        assert(frame_holds(fs[k], blocks[k]));
        lemma_holds_readable(fs[k], blocks[k]);
        if exists|sb: SignedBlockView| frame_holds(fs[k], sb) && anchor_outcome(c, sb) == Err::<(), Error>(e) {
            let sb = choose|sb: SignedBlockView| frame_holds(fs[k], sb) && anchor_outcome(c, sb) == Err::<(), Error>(e);
            lemma_frame_holds_one(fs[k], sb, blocks[k]);
        }
    }
}

/// When the frames carry blocks that anchor in turn up to one frame, and that
/// frame carries a block refused with `e`, a replay of the frames stops with
/// `e` and no other error.
pub proof fn lemma_replay_stops_with(fs: Seq<FrameView>, blocks: Seq<SignedBlockView>, sb: SignedBlockView, e: Error, e2: Error)
    requires
        blocks.len() < fs.len(),
        valid_chain(blocks),
        forall|i: int| 0 <= i < blocks.len() ==> frame_holds(#[trigger] fs[i], blocks[i]),
        frame_holds(fs[blocks.len() as int], sb),
        anchor_outcome(blocks, sb) == Err::<(), Error>(e),
        replay_stops(fs, e2),
    ensures
        e2 == e,
{
    let c = choose|c: Seq<SignedBlockView>|
        valid_chain(c) && c.len() < fs.len() && (forall|i: int| 0 <= i < c.len() ==> frame_holds(#[trigger] fs[i], c[i]))
            && fails_on(fs[c.len() as int], c, e2);
    let k = c.len() as int;
    let n = blocks.len() as int;
    let ext = blocks.push(sb);
    assert forall|i: int| 0 <= i < ext.len() implies frame_holds(#[trigger] fs[i], ext[i]) by {
        if i < n {
            assert(frame_holds(fs[i], blocks[i]));
        }
    }
    if k > n {
        assert forall|i: int| 0 <= i < n + 1 implies frame_holds(#[trigger] fs[i], c.take(n + 1)[i]) by {
            assert(frame_holds(fs[i], c[i]));
        }
        lemma_same_prefix(fs, c.take(n + 1), blocks);
        lemma_same_prefix(fs, ext, c.take(n + 1));
        assert(c.take(n + 1) =~= ext.take(n + 1));
        assert(c[n] == sb);
        assert(c.take(n) =~= blocks);
        assert(anchor_outcome(c.take(n), c[n]) is Ok);
    } else {
        lemma_same_prefix(fs, ext, c);
        assert(frame_holds(fs[k], ext[k]));
        lemma_holds_readable(fs[k], ext[k]);
        let sb2 = choose|x: SignedBlockView| frame_holds(fs[k], x) && anchor_outcome(c, x) == Err::<(), Error>(e2);
        lemma_frame_holds_one(fs[k], sb2, ext[k]);
        if k < n {
            assert(c =~= blocks.take(k));
            assert(anchor_outcome(blocks.take(k), blocks[k]) is Ok);
        } else {
            assert(c =~= blocks);
        }
    }
}

/// Anchors the signed blocks of the frames, in order, on a new ledger, and
/// stops at the first frame that cannot be read or anchored. The ledger holds
/// the blocks anchored before that; the result says why it stopped.
pub fn replay_frames(frames: &Vec<Frame>) -> (r: (MicroLedger, Result<(), Error>))
    ensures
        r.0.wf(),
        r.0@.len() <= frames@.len(),
        forall|i: int| 0 <= i < r.0@.len() ==> frame_holds(#[trigger] frames@[i]@, r.0@[i]),
        r.1 is Ok ==> r.0@.len() == frames@.len(),
        r.1 matches Err(e) ==> r.0@.len() < frames@.len() && fails_on(frames@[r.0@.len() as int]@, r.0@, e),
{
    let mut ledger = MicroLedger::new(NontransferableVerifier);
    let mut i: usize = 0;
    while i < frames.len()
        invariant
            i <= frames@.len(),
            ledger.wf(),
            ledger@.len() == i,
            forall|j: int| 0 <= j < i ==> frame_holds(#[trigger] frames@[j]@, ledger@[j]),
        decreases frames@.len() - i,
    {
        let sb = match frame_to_signed_block(&frames[i]) {
            Ok(sb) => sb,
            Err(e) => return (ledger, Err(e)),
        };
        let ghost sv = sb@;
        let ghost before = ledger@;
        match ledger.anchor(sb) {
            Ok(()) => {},
            Err(e) => {
                assert(frame_holds(frames@[i as int]@, sv) && anchor_outcome(ledger@, sv) == Err::<(), Error>(e));
                return (ledger, Err(e));
            },
        }
        proof {
            assert forall|j: int| 0 <= j < i + 1 implies frame_holds(#[trigger] frames@[j]@, ledger@[j]) by {
                if j < i {
                    assert(ledger@[j] == before[j]);
                }
            }
        }
        i = i + 1;
    }
    (ledger, Ok(()))
}

/// Rebuilds a ledger from a transport stream: every frame must be read and
/// anchored in order, and the first frame that fails decides the error. A
/// stream that is not valid UTF-8, is not a run of canonical blocks and couplet
/// groups, or does not split into frames to its last byte, is a framing error.
pub fn parse_microledger(stream: &[u8]) -> (r: Result<MicroLedger, Error>)
    ensures
        !(vstd::utf8::valid_utf8(stream@) && screened(stream@) && (cesr_frames(stream@) matches Some((fs, rest)) && rest == 0))
            ==> r == Err::<MicroLedger, Error>(Error::TransportFraming),
        vstd::utf8::valid_utf8(stream@) && screened(stream@) && (cesr_frames(stream@) matches Some((fs, rest)) && rest == 0) ==> ({
            let fs = (cesr_frames(stream@)->0).0;
            &&& r matches Ok(l) ==> (l.wf() && l@.len() == fs.len() && forall|i: int| 0 <= i < fs.len() ==> frame_holds(#[trigger] fs[i], l@[i]))
            &&& r matches Err(e) ==> replay_stops(fs, e)
        }),
{
    if !is_utf8(stream) || !screen(stream) {
        return Err(Error::TransportFraming);
    }
    let (frames, rest) = match parse_frames(stream) {
        Some(x) => x,
        None => return Err(Error::TransportFraming),
    };
    if rest != 0 {
        return Err(Error::TransportFraming);
    }
    let ghost fs = frames@.map_values(|f: Frame| f@);
    let (ledger, outcome) = replay_frames(&frames);
    proof {
        assert forall|i: int| 0 <= i < ledger@.len() implies frame_holds(#[trigger] fs[i], ledger@[i]) by {
            assert(frame_holds(frames@[i]@, ledger@[i]));
        }
    }
    match outcome {
        Ok(()) => Ok(ledger),
        Err(e) => {
            proof {
                assert(fs[ledger@.len() as int] == frames@[ledger@.len() as int]@);
                assert(valid_chain(ledger@));
            }
            Err(e)
        },
    }
}

/// The text form of a non-transferable Ed25519 basic prefix with this key.
pub uninterp spec fn nontrans_prefix_text(key: Seq<u8>) -> Seq<char>;

/// Relies on cesrox's `CesrPrimitive::to_str` for a key coded as
/// `Basic::Ed25519Nontrans`: the derivation code, then the key in URL-safe
/// base64; no key bytes give the empty text.
#[verifier::external_body]
fn prefix_text(key: &[u8]) -> (r: String)
    ensures
        r@ == nontrans_prefix_text(key@),
        key@.len() == 0 ==> r@.len() == 0,
{
    (Basic::Ed25519Nontrans, key.to_vec()).to_str()
}

/// The identifier text of a non-transferable Ed25519 public key.
pub fn into_identifier(pk: &[u8]) -> (r: String)
    ensures
        r@ == nontrans_prefix_text(pk@),
{
    prefix_text(pk)
}

/// What reading a basic prefix at the start of a text gives: whether its code
/// is the non-transferable Ed25519 one, the key bytes, and how many bytes of
/// the text are left after it.
pub uninterp spec fn basic_prefix_parse(text: Seq<char>) -> Option<(bool, Seq<u8>, nat)>;

/// Relies on cesrox's `parse_primitive::<Basic>`, which reads a derivation
/// code and the key that follows it; the outcome depends on the text alone.
/// `Basic::from_str` slices four bytes after a leading `1`; a text of 44
/// bytes that starts with `B` never reaches that slice.
#[verifier::external_body]
fn parse_basic_prefix(text: &str) -> (r: Option<(bool, Vec<u8>, usize)>)
    requires
        prefix_shaped(text),
    ensures
        r matches Some((ed, k, n)) ==> basic_prefix_parse(text@) == Some((ed, k@, n as nat)),
        r is None ==> basic_prefix_parse(text@) is None,
{
    let (rest, (code, key)) = cesrox::primitives::parsers::parse_primitive::<Basic>(text.as_bytes()).ok()?;
    Some((matches!(code, Basic::Ed25519Nontrans), key, rest.len()))
}

/// A non-transferable Ed25519 prefix is `B` and 43 more characters.
pub open spec fn prefix_shaped(text: &str) -> bool {
    text.spec_bytes().len() == 44 && text.spec_bytes()[0] == 66
}

/// The key that a whole text names as a non-transferable Ed25519 prefix.
pub open spec fn text_key(text: &str) -> Option<Seq<u8>> {
    if !prefix_shaped(text) {
        None
    } else {
        match basic_prefix_parse(text@) {
            Some((ed, k, n)) => if ed && n == 0 {
                Some(k)
            } else {
                None
            },
            None => None,
        }
    }
}

/// Reads an identifier from its text: the whole text must be one
/// non-transferable Ed25519 prefix.
pub fn identifier_from_text(text: &str) -> (r: Option<NontransferableIdentifier>)
    ensures
        r matches Some(id) ==> text_key(text) == Some(id@),
        r is None ==> text_key(text) is None,
{
    let bytes = text.as_bytes();
    if bytes.len() != 44 || bytes[0] != 66 {
        return None;
    }
    match parse_basic_prefix(text) {
        Some((ed, k, n)) => {
            if ed && n == 0 {
                Some(NontransferableIdentifier(k))
            } else {
                None
            }
        },
        None => None,
    }
}

impl NontransferableSignature {
    /// A signature of one couplet: the signer named by its identifier text,
    /// and the Ed25519 signature bytes. `None` when the text names no
    /// non-transferable Ed25519 key.
    pub fn new(signer_id: &str, signature: Vec<u8>) -> (r: Option<NontransferableSignature>)
        ensures
            r matches Some(s) ==> (text_key(signer_id) matches Some(k) && s@ == seq![(k, signature@)]),
            r is None ==> text_key(signer_id) is None,
    {
        match identifier_from_text(signer_id) {
            Some(id) => {
                let ghost sv = signature@;
                let mut cs: Vec<Couplet> = Vec::new();
                cs.push(Couplet { signer: id, signature });
                let s = NontransferableSignature(cs);
                assert(s@ =~= seq![(s.0@[0].signer@, sv)]);
                Some(s)
            },
            None => None,
        }
    }
}

} // verus!
