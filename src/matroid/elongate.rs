//! The elongation of a matroid: its rank raised by `l`, dependent sets of
//! nullity at most `l` becoming independent.
use crate::bits::{popcount, within};
use crate::matroid::{Matroid, RankModel};
use crate::set::BitSet;
use vstd::prelude::*;

verus! {

/// `rank(X) + l` where the nullity of `X` exceeds `l`, `|X|` elsewhere; the
/// rank grows by `l`.
pub open spec fn elongated_model(m: RankModel, l: nat) -> RankModel {
    RankModel {
        n: m.n,
        k: m.k + l,
        rank: |x: u64|
            if popcount(x) - (m.rank)(x) > l {
                (m.rank)(x) + l
            } else {
                popcount(x)
            },
    }
}

/// The `l`-th elongation of a matroid.
pub struct Elongate<'a, M: Matroid> {
    pub matroid: &'a M,
    pub elongation: usize,
}

impl<'a, M: Matroid> Elongate<'a, M> {
    /// The elongation of `matroid` by `elongation`; a matroid of rank `k`
    /// on `n` elements admits `elongation <= n - k`.
    pub fn new(matroid: &'a M, elongation: usize) -> (r: Self)
        ensures
            r.matroid == matroid,
            r.elongation == elongation,
    {
        Elongate { matroid, elongation }
    }
}

impl<'a, M: Matroid> Matroid for Elongate<'a, M> {
    open spec fn model(&self) -> RankModel {
        elongated_model(self.matroid.model(), self.elongation as nat)
    }

    open spec fn inv(&self) -> bool {
        self.matroid.inv() && self.matroid.model().k + self.elongation <= self.matroid.model().n
    }

    proof fn lemma_axioms(&self) {
        self.matroid.lemma_axioms();
    }

    fn rank(&self, subset: &BitSet) -> (r: usize) {
        proof {
            self.matroid.lemma_axioms();
        }
        let r = self.matroid.rank(subset);
        let nullity = subset.size() - r;
        if nullity > self.elongation {
            r + self.elongation
        } else {
            subset.size()
        }
    }

    fn k(&self) -> (r: usize) {
        proof {
            self.matroid.lemma_axioms();
        }
        self.matroid.k() + self.elongation
    }

    fn n(&self) -> (r: usize) {
        self.matroid.n()
    }
}

} // verus!
