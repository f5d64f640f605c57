//! Blocks, the signatures over them, and the scheme of non-transferable
//! Ed25519 identifiers that signs them.
use crate::seal::{SealBundle, SealView};
use vstd::prelude::*;

verus! {

/// A controlling party, named by its Ed25519 public key.
#[derive(Clone, Debug)]
pub struct NontransferableIdentifier(pub Vec<u8>);

impl View for NontransferableIdentifier {
    type V = Seq<u8>;

    open spec fn view(&self) -> Seq<u8> {
        self.0@
    }
}

impl NontransferableIdentifier {
    pub fn same_as(&self, other: &NontransferableIdentifier) -> (r: bool)
        ensures
            r == (self@ == other@),
    {
        bytes_equal(&self.0, &other.0)
    }

    pub fn clone_id(&self) -> (r: NontransferableIdentifier)
        ensures
            r@ == self@,
    {
        NontransferableIdentifier(copy_bytes(&self.0))
    }
}

/// Whether two byte strings are equal.
pub fn bytes_equal(a: &Vec<u8>, b: &Vec<u8>) -> (r: bool)
    ensures
        r == (a@ == b@),
{
    if a.len() != b.len() {
        return false;
    }
    let mut i: usize = 0;
    while i < a.len()
        invariant
            a@.len() == b@.len(),
            i <= a@.len(),
            a@.subrange(0, i as int) == b@.subrange(0, i as int),
        decreases a@.len() - i,
    {
        if a[i] != b[i] {
            assert(a@.subrange(0, i as int + 1)[i as int] != b@.subrange(0, i as int + 1)[i as int]);
            return false;
        }
        assert(a@.subrange(0, i as int + 1) =~= a@.subrange(0, i as int).push(a@[i as int]));
        assert(b@.subrange(0, i as int + 1) =~= b@.subrange(0, i as int).push(b@[i as int]));
        i = i + 1;
    }
    assert(a@ =~= a@.subrange(0, i as int));
    assert(b@ =~= b@.subrange(0, i as int));
    true
}

/// A copy of some bytes.
pub fn copy_bytes(a: &Vec<u8>) -> (r: Vec<u8>)
    ensures
        r@ == a@,
{
    let mut r: Vec<u8> = Vec::new();
    let mut i: usize = 0;
    while i < a.len()
        invariant
            i <= a@.len(),
            r@ == a@.subrange(0, i as int),
        decreases a@.len() - i,
    {
        r.push(a[i]);
        assert(r@ =~= a@.subrange(0, i as int + 1));
        i = i + 1;
    }
    assert(r@ =~= a@);
    r
}

/// One signer's public key with its Ed25519 signature.
#[derive(Clone, Debug)]
pub struct Couplet {
    pub signer: NontransferableIdentifier,
    pub signature: Vec<u8>,
}

/// A couplet as plain values: the key, then the signature.
pub type CoupletView = (Seq<u8>, Seq<u8>);

impl View for Couplet {
    type V = CoupletView;

    open spec fn view(&self) -> CoupletView {
        (self.signer@, self.signature@)
    }
}

/// A signature over a block: a group of couplets, the first of which names
/// the signer.
#[derive(Clone, Debug)]
pub struct NontransferableSignature(pub Vec<Couplet>);

impl View for NontransferableSignature {
    type V = Seq<CoupletView>;

    open spec fn view(&self) -> Seq<CoupletView> {
        self.0@.map_values(|c: Couplet| c@)
    }
}

/// The signer that a signature names: the key of its first couplet.
pub open spec fn signer_of(sig: Seq<CoupletView>) -> Option<Seq<u8>> {
    if sig.len() == 0 {
        None
    } else {
        Some(sig[0].0)
    }
}

impl Couplet {
    pub fn clone_couplet(&self) -> (r: Couplet)
        ensures
            r@ == self@,
    {
        Couplet { signer: self.signer.clone_id(), signature: copy_bytes(&self.signature) }
    }
}

impl NontransferableSignature {
    /// A copy of the signature, couplet by couplet.
    pub fn clone_signature(&self) -> (r: NontransferableSignature)
        ensures
            r@ == self@,
    {
        let mut cs: Vec<Couplet> = Vec::new();
        let mut i: usize = 0;
        while i < self.0.len()
            invariant
                i <= self.0@.len(),
                cs@.len() == i,
                forall|j: int| 0 <= j < i ==> #[trigger] cs@[j]@ == self.0@[j]@,
            decreases self.0@.len() - i,
        {
            cs.push(self.0[i].clone_couplet());
            i = i + 1;
        }
        let r = NontransferableSignature(cs);
        assert(r@ =~= self@);
        r
    }

    /// The identifier that produced this signature, if it names one.
    pub fn get_signer(&self) -> (r: Option<NontransferableIdentifier>)
        ensures
            r matches Some(id) ==> signer_of(self@) == Some(id@),
            r is None ==> signer_of(self@) is None,
    {
        if self.0.len() == 0 {
            None
        } else {
            Some(self.0[0].signer.clone_id())
        }
    }
}

/// A block as plain values.
pub struct BlockView {
    pub prior: Seq<u8>,
    pub controllers: Seq<Seq<u8>>,
    pub seals: Seq<SealView>,
}

/// A block: the digest of the block before it, the identifiers that may sign
/// it, and the seals it carries.
#[derive(Clone, Debug)]
pub struct Block {
    pub prior_digest: Vec<u8>,
    pub controlling_identifiers: Vec<NontransferableIdentifier>,
    pub seal_bundle: SealBundle,
}

impl View for Block {
    type V = BlockView;

    open spec fn view(&self) -> BlockView {
        BlockView {
            prior: self.prior_digest@,
            controllers: self.controlling_identifiers@.map_values(|i: NontransferableIdentifier| i@),
            seals: self.seal_bundle@,
        }
    }
}

/// A block with the signatures gathered over it.
#[derive(Clone, Debug)]
pub struct SignedBlock {
    pub block: Block,
    pub signatures: Vec<NontransferableSignature>,
}

/// A signed block as plain values.
pub struct SignedBlockView {
    pub block: BlockView,
    pub signatures: Seq<Seq<CoupletView>>,
}

impl View for SignedBlock {
    type V = SignedBlockView;

    open spec fn view(&self) -> SignedBlockView {
        SignedBlockView {
            block: self.block@,
            signatures: self.signatures@.map_values(|s: NontransferableSignature| s@),
        }
    }
}

impl Block {
    /// A copy of the block.
    pub fn clone_block(&self) -> (r: Block)
        ensures
            r@ == self@,
    {
        let mut ids: Vec<NontransferableIdentifier> = Vec::new();
        let mut i: usize = 0;
        while i < self.controlling_identifiers.len()
            invariant
                i <= self.controlling_identifiers@.len(),
                ids@.len() == i,
                forall|j: int| 0 <= j < i ==> #[trigger] ids@[j]@ == self.controlling_identifiers@[j]@,
            decreases self.controlling_identifiers@.len() - i,
        {
            ids.push(self.controlling_identifiers[i].clone_id());
            i = i + 1;
        }
        let r = Block { prior_digest: copy_bytes(&self.prior_digest), controlling_identifiers: ids, seal_bundle: self.seal_bundle.clone_bundle() };
        assert(r@.controllers =~= self@.controllers);
        r
    }

    /// Pairs the block with signatures, without checking them.
    pub fn to_signed_block(self, signatures: Vec<NontransferableSignature>) -> (r: SignedBlock)
        ensures
            r.block@ == self@,
            r.signatures@ == signatures@,
            r@.signatures == signatures@.map_values(|s: NontransferableSignature| s@),
    {
        SignedBlock { block: self, signatures }
    }
}

} // verus!
