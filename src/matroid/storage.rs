//! The stored form of a matroid: ground-set size, rank and basis list.
use crate::matroid::bases_matroid::bases_fit;
use crate::matroid::{bases_of, BasesMatroid, Matroid};
use crate::set::{patterns, BitSet};
use vstd::prelude::*;

verus! {

/// A matroid as the triple `(n, k, bases)`.
#[derive(PartialEq, Eq, Debug)]
pub struct StoredMatroid {
    /// The number of elements in the matroid.
    pub n: usize,
    /// The rank of the matroid.
    pub k: usize,
    /// The bases.
    pub bases: Vec<BitSet>,
}

impl StoredMatroid {
    /// The stored form of `matroid`, with its bases in ascending order.
    pub fn from_matroid<M: Matroid>(matroid: &M) -> (r: Self)
        requires
            matroid.inv(),
        ensures
            r.n == matroid.model().n,
            r.k == matroid.model().k,
            patterns(r.bases@) == bases_of(matroid.model()),
    {
        let bases = matroid.bases();
        StoredMatroid { n: matroid.n(), k: matroid.k(), bases }
    }
}

impl StoredMatroid {
    /// The basis-table matroid the triple describes.
    pub fn into_bases_matroid(self) -> (r: BasesMatroid)
        ensures
            r.spec_n() == self.n,
            r.spec_k() == self.k,
            r.spec_bases() == patterns(self.bases@),
            r.wf() == (self.k <= self.n <= 64 && bases_fit(
                patterns(self.bases@),
                self.n as nat,
                self.k as nat,
            )),
    {
        BasesMatroid::new(self.bases, self.n, self.k)
    }
}

} // verus!
