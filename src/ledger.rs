//! The ledger: an append-only chain of signed blocks, each linked to the
//! digest of the one before it.
use crate::block::{
    Block, BlockView, NontransferableIdentifier, SignedBlock, SignedBlockView, signer_of,
};
use crate::codec::{block_json, encode_block};
use crate::error::Error;
use crate::seal::{SealBundle, SealView};
use crate::signing::{NontransferableVerifier, verdict};
use vstd::prelude::*;

verus! {

/// The BLAKE3 digest (32 bytes) of some bytes.
pub uninterp spec fn blake3_digest(data: Seq<u8>) -> Seq<u8>;

/// Relies on `blake3::hash`: the 32-byte BLAKE3 hash of the input, a function
/// of the input alone.
#[verifier::external_body]
fn digest(data: &[u8]) -> (r: Vec<u8>)
    ensures
        r@ == blake3_digest(data@),
        r@.len() == 32,
{
    blake3::hash(data).as_bytes().to_vec()
}

/// The digest that the first block names as its predecessor: 32 zero bytes.
pub open spec fn genesis() -> Seq<u8> {
    Seq::new(32, |i: int| 0u8)
}

/// The digest that the next block of a chain must name.
pub open spec fn tip_digest(chain: Seq<SignedBlockView>) -> Seq<u8> {
    if chain.len() == 0 {
        genesis()
    } else {
        blake3_digest(block_json(chain.last().block))
    }
}

/// Every signer that a signature names is a controller of the block.
pub open spec fn authorized(b: SignedBlockView) -> bool {
    forall|i: int|
        0 <= i < b.signatures.len() ==> match #[trigger] signer_of(b.signatures[i]) {
            Some(k) => b.block.controllers.contains(k),
            None => true,
        }
}

/// There is at least one signature, and each holds at least one couplet.
pub open spec fn signed(b: SignedBlockView) -> bool {
    b.signatures.len() > 0 && forall|i: int| 0 <= i < b.signatures.len() ==> (#[trigger] b.signatures[i]).len() > 0
}

/// What anchoring `b` on top of `chain` gives: a block needs controllers and
/// signatures; then the signatures are checked, then the link to the chain's
/// tip, then the signers.
pub open spec fn anchor_outcome(chain: Seq<SignedBlockView>, b: SignedBlockView) -> Result<(), Error> {
    if b.block.controllers.len() == 0 {
        Err(Error::EmptyControllerSet)
    } else if !signed(b) {
        Err(Error::VerificationFailed)
    } else {
        checked_outcome(chain, b)
    }
}

/// The outcome for a block with controllers and signatures.
pub open spec fn checked_outcome(chain: Seq<SignedBlockView>, b: SignedBlockView) -> Result<(), Error> {
    match verdict(block_json(b.block), b.signatures) {
        Err(e) => Err(e),
        Ok(false) => Err(Error::VerificationFailed),
        Ok(true) => if b.block.prior != tip_digest(chain) {
            Err(Error::LinkageMismatch)
        } else if !authorized(b) {
            Err(Error::UnauthorizedSigner)
        } else {
            Ok(())
        },
    }
}

/// Each block of the chain is one that anchoring admits on top of the blocks before it.
pub open spec fn valid_chain(chain: Seq<SignedBlockView>) -> bool {
    forall|i: int| 0 <= i < chain.len() ==> #[trigger] anchor_outcome(chain.take(i), chain[i]) is Ok
}

/// The block that proposing gives on top of `chain`.
pub open spec fn proposal(chain: Seq<SignedBlockView>, controllers: Seq<Seq<u8>>, seals: Seq<SealView>) -> BlockView {
    BlockView { prior: tip_digest(chain), controllers, seals }
}

/// The chain of signed blocks, and the verifier that admits them.
pub struct MicroLedger {
    blocks: Vec<SignedBlock>,
    verifier: NontransferableVerifier,
}

impl View for MicroLedger {
    type V = Seq<SignedBlockView>;

    closed spec fn view(&self) -> Seq<SignedBlockView> {
        self.blocks@.map_values(|b: SignedBlock| b@)
    }
}

impl MicroLedger {
    pub open spec fn wf(&self) -> bool {
        valid_chain(self@)
    }

    /// An empty ledger that admits blocks through `verifier`.
    pub fn new(verifier: NontransferableVerifier) -> (r: MicroLedger)
        ensures
            r@ == Seq::<SignedBlockView>::empty(),
            r.wf(),
    {
        let r = MicroLedger { blocks: Vec::new(), verifier };
        assert(r@ =~= Seq::<SignedBlockView>::empty());
        r
    }

    /// The blocks, oldest first.
    pub fn get_blocks(&self) -> (r: &Vec<SignedBlock>)
        ensures
            r@.map_values(|b: SignedBlock| b@) == self@,
    {
        &self.blocks
    }

    /// The number of blocks.
    pub fn len(&self) -> (r: usize)
        ensures
            r == self@.len(),
    {
        self.blocks.len()
    }

    /// The digest that the next block must name.
    pub fn current_tip(&self) -> (r: Vec<u8>)
        ensures
            r@ == tip_digest(self@),
    {
        let n = self.blocks.len();
        if n == 0 {
            let r: Vec<u8> = vec![0u8; 32];
            assert(r@ =~= genesis());
            r
        } else {
            let bytes = encode_block(&self.blocks[n - 1].block);
            digest(bytes.as_slice())
        }
    }

    /// A block on top of the ledger's last block, controlled by `controllers`
    /// and carrying `bundle`. The ledger is not changed.
    pub fn pre_anchor_block(&self, controllers: Vec<NontransferableIdentifier>, bundle: &SealBundle) -> (r: Result<Block, Error>)
        ensures
            controllers@.len() == 0 ==> r == Err::<Block, Error>(Error::EmptyControllerSet),
            controllers@.len() > 0 ==> (r matches Ok(b) && b@ == proposal(
                self@,
                controllers@.map_values(|i: NontransferableIdentifier| i@),
                bundle@,
            )),
    {
        if controllers.len() == 0 {
            return Err(Error::EmptyControllerSet);
        }
        let prior = self.current_tip();
        Ok(Block { prior_digest: prior, controlling_identifiers: controllers, seal_bundle: bundle.clone_bundle() })
    }

    /// Whether every signer named by a signature is a controller of the block.
    fn signers_authorized(b: &SignedBlock) -> (r: bool)
        ensures
            r == authorized(b@),
    {
        let ghost v = b@;
        let mut i: usize = 0;
        while i < b.signatures.len()
            invariant
                v == b@,
                i <= b.signatures@.len(),
                forall|a: int|
                    0 <= a < i ==> match #[trigger] signer_of(v.signatures[a]) {
                        Some(k) => v.block.controllers.contains(k),
                        None => true,
                    },
            decreases b.signatures@.len() - i,
        {
            match b.signatures[i].get_signer() {
                None => {
                    assert(v.signatures[i as int] == b.signatures@[i as int]@);
                },
                Some(id) => {
                    let ids = &b.block.controlling_identifiers;
                    let mut found = false;
                    let mut j: usize = 0;
                    while j < ids.len()
                        invariant
                            v == b@,
                            ids == &b.block.controlling_identifiers,
                            j <= ids@.len(),
                            found == exists|c: int| 0 <= c < j && ids@[c]@ == id@,
                        decreases ids@.len() - j,
                    {
                        if ids[j].same_as(&id) {
                            found = true;
                        }
                        j = j + 1;
                    }
                    if !found {
                        assert(!v.block.controllers.contains(id@)) by {
                            if v.block.controllers.contains(id@) {
                                let c = choose|c: int| 0 <= c < v.block.controllers.len() && v.block.controllers[c] == id@;
                                assert(ids@[c]@ == id@);
                            }
                        }
                        assert(v.signatures[i as int] == b.signatures@[i as int]@);
                        assert(signer_of(v.signatures[i as int]) == Some(id@));
                        return false;
                    }
                    assert(v.block.controllers.contains(id@)) by {
                        let c = choose|c: int| 0 <= c < j && ids@[c]@ == id@;
                        assert(v.block.controllers[c] == id@);
                    }
                    assert(v.signatures[i as int] == b.signatures@[i as int]@);
                },
            }
            i = i + 1;
        }
        true
    }

    /// Whether the block has a signature, and each signature a couplet.
    fn has_signatures(b: &SignedBlock) -> (r: bool)
        ensures
            r == signed(b@),
    {
        let ghost v = b@;
        if b.signatures.len() == 0 {
            return false;
        }
        let mut i: usize = 0;
        while i < b.signatures.len()
            invariant
                v == b@,
                i <= b.signatures@.len(),
                forall|j: int| 0 <= j < i ==> (#[trigger] v.signatures[j]).len() > 0,
            decreases b.signatures@.len() - i,
        {
            assert(v.signatures[i as int] == b.signatures@[i as int]@);
            if b.signatures[i].0.len() == 0 {
                return false;
            }
            i = i + 1;
        }
        true
    }

    /// Verifies `signed_block` and appends it. On any failure the ledger is
    /// left as it was.
    pub fn anchor(&mut self, signed_block: SignedBlock) -> (r: Result<(), Error>)
        ensures
            r == anchor_outcome(old(self)@, signed_block@),
            r is Ok ==> final(self)@ == old(self)@.push(signed_block@),
            r is Err ==> final(self)@ == old(self)@,
            old(self).wf() ==> final(self).wf(),
    {
        if signed_block.block.controlling_identifiers.len() == 0 {
            return Err(Error::EmptyControllerSet);
        }
        if !Self::has_signatures(&signed_block) {
            return Err(Error::VerificationFailed);
        }
        let bytes = encode_block(&signed_block.block);
        match self.verifier.verify(bytes.as_slice(), &signed_block.signatures) {
            Err(e) => return Err(e),
            Ok(false) => return Err(Error::VerificationFailed),
            Ok(true) => {},
        }
        let tip = self.current_tip();
        if !crate::block::bytes_equal(&signed_block.block.prior_digest, &tip) {
            return Err(Error::LinkageMismatch);
        }
        if !Self::signers_authorized(&signed_block) {
            return Err(Error::UnauthorizedSigner);
        }
        let ghost before = self@;
        let ghost sb = signed_block@;
        self.blocks.push(signed_block);
        proof {
            assert(self@ =~= before.push(sb));
            if valid_chain(before) {
                assert forall|i: int| 0 <= i < self@.len() implies #[trigger] anchor_outcome(self@.take(i), self@[i]) is Ok by {
                    if i < before.len() {
                        assert(self@.take(i) =~= before.take(i));
                        assert(anchor_outcome(before.take(i), before[i]) is Ok);
                    } else {
                        assert(self@.take(i) =~= before);
                    }
                }
            }
        }
        Ok(())
    }
}

/// In a ledger, the first block names the genesis digest, and every later
/// block names the digest of the canonical bytes of the block before it.
pub proof fn lemma_linkage(l: &MicroLedger, i: int)
    requires
        l.wf(),
        0 <= i < l@.len(),
    ensures
        i == 0 ==> l@[i].block.prior == genesis(),
        i > 0 ==> l@[i].block.prior == blake3_digest(block_json(l@[i - 1].block)),
{
    assert(anchor_outcome(l@.take(i), l@[i]) is Ok);
    if i > 0 {
        assert(l@.take(i).last() == l@[i - 1]);
    }
}

/// Anchoring a block whose signatures all verify and which links to the tip
/// still fails with `UnauthorizedSigner` when one signature names a signer
/// that is not among the block's controllers.
pub proof fn lemma_unauthorized_signer_rejected(chain: Seq<SignedBlockView>, b: SignedBlockView, i: int)
    requires
        b.block.controllers.len() > 0,
        signed(b),
        verdict(block_json(b.block), b.signatures) == Ok::<bool, Error>(true),
        b.block.prior == tip_digest(chain),
        0 <= i < b.signatures.len(),
        signer_of(b.signatures[i]) matches Some(k) && !b.block.controllers.contains(k),
    ensures
        anchor_outcome(chain, b) == Err::<(), Error>(Error::UnauthorizedSigner),
{
    assert(!authorized(b));
}

/// Proposing twice with the same controllers and seals on an unchanged ledger
/// gives two blocks with the same canonical bytes.
pub proof fn lemma_propose_idempotent(
    chain: Seq<SignedBlockView>,
    controllers: Seq<Seq<u8>>,
    seals: Seq<SealView>,
    first: BlockView,
    second: BlockView,
)
    requires
        first == proposal(chain, controllers, seals),
        second == proposal(chain, controllers, seals),
    ensures
        block_json(first) == block_json(second),
{
}

} // verus!
