//! Seals: the data that a block carries.
use vstd::prelude::*;

verus! {

/// One seal: data embedded verbatim, or a digest that points to data held elsewhere.
#[derive(Clone, Debug)]
pub enum SealData {
    AttachedData(String),
    Digest(String),
}

/// What a seal is, as text.
pub enum SealView {
    AttachedData(Seq<char>),
    Digest(Seq<char>),
}

impl View for SealData {
    type V = SealView;

    open spec fn view(&self) -> SealView {
        match self {
            SealData::AttachedData(s) => SealView::AttachedData(s@),
            SealData::Digest(s) => SealView::Digest(s@),
        }
    }
}

impl SealData {
    pub fn clone_seal(&self) -> (r: SealData)
        ensures
            r@ == self@,
    {
        match self {
            SealData::AttachedData(s) => SealData::AttachedData(s.clone()),
            SealData::Digest(s) => SealData::Digest(s.clone()),
        }
    }
}

/// An ordered sequence of seals, built by appending.
#[derive(Clone, Debug)]
pub struct SealBundle {
    pub seals: Vec<SealData>,
}

impl View for SealBundle {
    type V = Seq<SealView>;

    open spec fn view(&self) -> Seq<SealView> {
        self.seals@.map_values(|s: SealData| s@)
    }
}

impl SealBundle {
    /// An empty bundle.
    pub fn new() -> (r: SealBundle)
        ensures
            r@ == Seq::<SealView>::empty(),
    {
        SealBundle { seals: Vec::new() }
    }

    /// The bundle with `seal` appended after the seals it already holds.
    pub fn attach(self, seal: SealData) -> (r: SealBundle)
        ensures
            r@ == self@.push(seal@),
    {
        let mut seals = self.seals;
        let ghost before = seals@;
        seals.push(seal);
        proof {
            assert(seals@.map_values(|s: SealData| s@) =~= before.map_values(|s: SealData| s@).push(
                seal@,
            ));
        }
        SealBundle { seals }
    }

    /// A copy of the bundle, seal by seal.
    pub fn clone_bundle(&self) -> (r: SealBundle)
        ensures
            r@ == self@,
    {
        let mut seals: Vec<SealData> = Vec::new();
        let mut i: usize = 0;
        while i < self.seals.len()
            invariant
                i <= self.seals@.len(),
                seals@.len() == i,
                forall|j: int| 0 <= j < i ==> #[trigger] seals@[j]@ == self.seals@[j]@,
            decreases self.seals@.len() - i,
        {
            seals.push(self.seals[i].clone_seal());
            i = i + 1;
        }
        let r = SealBundle { seals };
        assert(r@ =~= self@);
        r
    }
}

} // verus!
