//! The dual of a matroid.
use crate::bits::{
    full, is_subset, lemma_complement_within, lemma_popcount_complement, lemma_popcount_le_64,
    lemma_within_and_full, popcount, within,
};
use crate::matroid::{
    complement_bound, independent, monotone_submodular, rank_at_most_k, Matroid, RankModel,
};
use crate::set::lemma_or_within;
use crate::set::BitSet;
use vstd::prelude::*;

verus! {

/// The dual's view of a model: rank `n - k`, and
/// `rank*(X) = rank(E \ X) + |X| - k`.
pub open spec fn dual_model(m: RankModel) -> RankModel {
    RankModel {
        n: m.n,
        k: (m.n - m.k) as nat,
        rank: |x: u64| ((m.rank)(full(m.n) & !x) + popcount(x) - m.k) as nat,
    }
}

/// What a model must satisfy to have a dual: the rank axioms used here.
pub open spec fn dualizable(m: RankModel) -> bool {
    &&& m.k <= m.n <= 64
    &&& forall|x: u64| within(x, m.n) ==> #[trigger] (m.rank)(x) <= popcount(x)
    &&& complement_bound(m)
    &&& rank_at_most_k(m)
}

/// The complement of the complement is the set itself.
proof fn lemma_complement_twice(x: u64, n: nat)
    requires
        n <= 64,
        within(x, n),
    ensures
        full(n) & !(full(n) & !x) == x,
{
    lemma_within_and_full(x, n);
    let f = full(n);
    assert(f & !(f & !x) == x) by (bit_vector)
        requires
            x & f == x,
    ;
}

/// The dual of a dualizable model is dualizable.
pub proof fn lemma_dual_dualizable(m: RankModel)
    requires
        dualizable(m),
    ensures
        dualizable(dual_model(m)),
{
    let d = dual_model(m);
    let f = full(m.n);
    assert forall|x: u64| within(x, d.n) implies #[trigger] (d.rank)(x) <= popcount(x) by {
        lemma_complement_within(x, m.n);
        assert((m.rank)(f & !x) <= m.k);
        assert((m.rank)(x) + (m.rank)(f & !x) >= m.k);
        assert((m.rank)(x) <= popcount(x));
    }
    assert forall|x: u64| within(x, d.n) implies (d.rank)(x) + #[trigger] (d.rank)(f & !x)
        >= d.k by {
        lemma_complement_within(x, m.n);
        lemma_complement_twice(x, m.n);
        lemma_popcount_complement(x, m.n);
        assert((m.rank)(x) + (m.rank)(f & !x) >= m.k);
        assert((m.rank)(x) <= popcount(x));
        assert((m.rank)(f & !x) <= popcount(f & !x));
        assert((m.rank)(f & !(f & !x)) == (m.rank)(x));
    }
    assert forall|x: u64| within(x, d.n) implies #[trigger] (d.rank)(x) <= d.k by {
        lemma_complement_within(x, m.n);
        lemma_popcount_complement(x, m.n);
        assert((m.rank)(f & !x) <= popcount(f & !x));
        assert((m.rank)(x) + (m.rank)(f & !x) >= m.k);
        assert((m.rank)(x) <= popcount(x));
    }
}

/// The dual of the dual is the matroid itself: same ground set, same rank,
/// and the same rank (so the same independent sets) on every subset.
pub proof fn lemma_double_dual(m: RankModel)
    requires
        dualizable(m),
    ensures
        dual_model(dual_model(m)).n == m.n,
        dual_model(dual_model(m)).k == m.k,
        forall|x: u64|
            within(x, m.n) ==> (#[trigger] (dual_model(dual_model(m)).rank)(x) == (m.rank)(x)
                && independent(dual_model(dual_model(m)), x) == independent(m, x)),
{
    let f = full(m.n);
    assert forall|x: u64| within(x, m.n) implies #[trigger] (dual_model(dual_model(m)).rank)(x)
        == (m.rank)(x) by {
        lemma_complement_within(x, m.n);
        lemma_complement_twice(x, m.n);
        lemma_popcount_complement(x, m.n);
        assert((m.rank)(x) + (m.rank)(f & !x) >= m.k);
        assert((m.rank)(x) <= popcount(x));
        assert((m.rank)(f & !x) <= m.k);
    }
}

/// The dual matroid of a matroid.
pub struct Dual<'a, M: Matroid> {
    pub matroid: &'a M,
}

impl<'a, M: Matroid> Dual<'a, M> {
    /// The underlying matroid.
    pub closed spec fn inner(&self) -> &'a M {
        self.matroid
    }
}

impl<'a, M: Matroid> Matroid for Dual<'a, M> {
    closed spec fn model(&self) -> RankModel {
        dual_model(self.matroid.model())
    }

    closed spec fn inv(&self) -> bool {
        self.matroid.inv() && dualizable(self.matroid.model())
    }

    proof fn lemma_axioms(&self) {
        lemma_dual_dualizable(self.matroid.model());
    }

    fn rank(&self, subset: &BitSet) -> (r: usize) {
        let ghost m = self.matroid.model();
        proof {
            lemma_complement_within(subset@, m.n);
            lemma_popcount_le_64(subset@);
        }
        let rest = BitSet::of_size(self.matroid.n()).difference(subset);
        let rest_rank = self.matroid.rank(&rest);
        let size = subset.size();
        proof {
            assert((m.rank)(subset@) + (m.rank)(full(m.n) & !subset@) >= m.k);
            assert((m.rank)(subset@) <= popcount(subset@));
            assert((m.rank)(rest@) <= m.k);
        }
        rest_rank + size - self.matroid.k()
    }

    fn n(&self) -> (r: usize) {
        self.matroid.n()
    }

    fn k(&self) -> (r: usize) {
        self.matroid.n() - self.matroid.k()
    }
}

impl<'a, M: Matroid> From<&'a M> for Dual<'a, M> {
    fn from(matroid: &'a M) -> (r: Self) {
        Self { matroid }
    }
}

impl<'a, M: Matroid> vstd::std_specs::convert::FromSpecImpl<&'a M> for Dual<'a, M> {
    open spec fn obeys_from_spec() -> bool {
        true
    }

    open spec fn from_spec(v: &'a M) -> Self {
        Dual { matroid: v }
    }
}

impl<'a, M: Matroid> Dual<'a, M> {
    /// What a `Dual` stands for.
    pub proof fn lemma_model(&self)
        ensures
            self.model() == dual_model(self.inner().model()),
            self.inv() == (self.inner().inv() && dualizable(self.inner().model())),
    {
    }
}

/// The dual of a matroid whose rank is monotone and submodular has a rank
/// that is monotone and submodular too.
pub proof fn lemma_dual_axioms(m: RankModel)
    requires
        dualizable(m),
        monotone_submodular(m),
    ensures
        monotone_submodular(dual_model(m)),
{
    let d = dual_model(m);
    let f = full(m.n);
    assert forall|x: u64, y: u64|
        within(x, d.n) && within(y, d.n) && is_subset(x, y) implies #[trigger] (d.rank)(x)
        <= #[trigger] (d.rank)(y) by {
        let a = f & !y;
        let b = y & !x;
        lemma_within_and_full(y, m.n);
        assert(f & !x == a | b && a & b == 0) by (bit_vector)
            requires
                x & y == x,
                y & f == y,
                a == f & !y,
                b == y & !x,
        ;
        lemma_complement_within(x, m.n);
        lemma_complement_within(y, m.n);
        crate::matroid::lemma_within_and(y, !x, m.n);
        assert((m.rank)(a | b) + (m.rank)(a & b) <= (m.rank)(a) + (m.rank)(b));
        assert((m.rank)(b) <= popcount(b));
        crate::bits::lemma_popcount_split(y, x);
        assert(y & x == x) by (bit_vector)
            requires
                x & y == x,
        ;
        assert((m.rank)(x) + (m.rank)(f & !x) >= m.k);
        assert((m.rank)(y) + (m.rank)(f & !y) >= m.k);
        assert((m.rank)(x) <= popcount(x));
        assert((m.rank)(y) <= popcount(y));
    }
    assert forall|x: u64, y: u64|
        within(x, d.n) && within(y, d.n) implies #[trigger] (d.rank)(x | y) + #[trigger] (d.rank)(
        x & y) <= (d.rank)(x) + (d.rank)(y) by {
        let xc = f & !x;
        let yc = f & !y;
        assert(f & !(x | y) == xc & yc && f & !(x & y) == xc | yc) by (bit_vector)
            requires
                xc == f & !x,
                yc == f & !y,
        ;
        lemma_complement_within(x, m.n);
        lemma_complement_within(y, m.n);
        lemma_or_within(x, y, m.n);
        crate::matroid::lemma_within_and(x, y, m.n);
        crate::matroid::lemma_popcount_union_meet(x, y);
        assert((m.rank)(xc | yc) + (m.rank)(xc & yc) <= (m.rank)(xc) + (m.rank)(yc));
        assert((m.rank)(x | y) + (m.rank)(f & !(x | y)) >= m.k);
        assert((m.rank)(x & y) + (m.rank)(f & !(x & y)) >= m.k);
        assert((m.rank)(x | y) <= popcount(x | y));
        assert((m.rank)(x & y) <= popcount(x & y));
        assert((m.rank)(x) + (m.rank)(xc) >= m.k);
        assert((m.rank)(y) + (m.rank)(yc) >= m.k);
        assert((m.rank)(x) <= popcount(x));
        assert((m.rank)(y) <= popcount(y));
    }
}

} // verus!
