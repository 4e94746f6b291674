//! A matroid given by the explicit list of its bases.
use crate::bits::{
    full, is_subset, lemma_popcount_and_le, lemma_popcount_split, lemma_within_and_full, popcount, within,
};
use crate::matroid::{complement_bound, Matroid, RankModel, StoredMatroid};
use crate::set::{patterns, BitSet};
use vstd::prelude::*;

verus! {

/// The largest `|b ∩ x|` over the bases `b`; 0 without bases.
pub open spec fn max_meet(bases: Seq<u64>, x: u64) -> nat
    decreases bases.len(),
{
    if bases.len() == 0 {
        0
    } else {
        let rest = max_meet(bases.drop_last(), x);
        let here = popcount(bases.last() & x);
        if here > rest {
            here
        } else {
            rest
        }
    }
}

/// Every base lies in the ground set and has `k` elements.
pub open spec fn bases_fit(bases: Seq<u64>, n: nat, k: nat) -> bool {
    forall|i: int| 0 <= i < bases.len() ==> within(#[trigger] bases[i], n) && popcount(bases[i]) == k
}

/// `max_meet` is at least the meet with any one base and at most `|x|`.
pub proof fn lemma_max_meet(bases: Seq<u64>, x: u64)
    ensures
        forall|i: int| 0 <= i < bases.len() ==> popcount(#[trigger] bases[i] & x) <= max_meet(bases, x),
        max_meet(bases, x) <= popcount(x),
        bases.len() > 0 ==> exists|i: int| 0 <= i < bases.len() && max_meet(bases, x) == popcount(#[trigger] bases[i] & x),
    decreases bases.len(),
{
    if bases.len() > 0 {
        let rest = bases.drop_last();
        lemma_max_meet(rest, x);
        lemma_popcount_and_le(bases.last(), x);
        assert forall|i: int| 0 <= i < bases.len() implies popcount(#[trigger] bases[i] & x) <= max_meet(bases, x) by {
            if i < bases.len() - 1 {
                assert(bases[i] == rest[i]);
            }
        }
        if max_meet(bases, x) != popcount(bases.last() & x) {
            let i = choose|i: int| 0 <= i < rest.len() && max_meet(rest, x) == popcount(#[trigger] rest[i] & x);
            assert(bases[i] == rest[i]);
        }
    }
}

/// The rank from a basis list: the largest intersection with a base.
pub open spec fn bases_rank(bases: Seq<u64>) -> spec_fn(u64) -> nat {
    |x: u64| max_meet(bases, x)
}

#[derive(Debug)]
pub struct BasesMatroid {
    n: usize,
    k: usize,
    bases: Vec<BitSet>,
}

impl BasesMatroid {
    /// The stored bases.
    pub closed spec fn spec_bases(&self) -> Seq<u64> {
        patterns(self.bases@)
    }

    /// Size of the ground set.
    pub closed spec fn spec_n(&self) -> nat {
        self.n as nat
    }

    /// Nominal rank.
    pub closed spec fn spec_k(&self) -> nat {
        self.k as nat
    }

    /// `k <= n <= 64`, and every base lies in the ground set and has `k`
    /// elements.
    pub closed spec fn wf(&self) -> bool {
        &&& self.k <= self.n <= 64
        &&& bases_fit(patterns(self.bases@), self.n as nat, self.k as nat)
    }

    /// The matroid this table stands for.
    pub proof fn lemma_model(&self)
        ensures
            self.model() == (RankModel {
                n: self.spec_n(),
                k: self.spec_k(),
                rank: bases_rank(self.spec_bases()),
            }),
            self.inv() == self.wf(),
    {
    }

    /// A matroid on `n` elements whose bases, each of `k` elements, are
    /// listed. The table is well formed exactly when `k <= n <= 64` and every
    /// base is a `k`-subset of the ground set.
    pub fn new(bases: Vec<BitSet>, n: usize, k: usize) -> (r: Self)
        ensures
            r.wf() == (k <= n <= 64 && bases_fit(patterns(bases@), n as nat, k as nat)),
            r.spec_bases() == patterns(bases@),
            r.spec_n() == n,
            r.spec_k() == k,
    {
        Self { bases, n, k }
    }

    /// The rank of `subset` given a list of bases of one common size: the
    /// largest intersection with a base.
    pub fn rank_of_subset_given_bases(subset: &BitSet, bases: &[BitSet]) -> (r: usize)
        requires
            forall|i: int, j: int|
                0 <= i < bases@.len() && 0 <= j < bases@.len() ==> popcount(#[trigger] bases@[i]@)
                    == popcount(#[trigger] bases@[j]@),
        ensures
            r == max_meet(patterns(bases@), subset@),
    {
        let ghost all = patterns(bases@);
        let mut max: usize = 0;
        let mut i: usize = 0;
        proof {
            crate::bits::lemma_popcount_le_64(subset@);
            lemma_max_meet(all, subset@);
        }
        while i < bases.len()
            invariant
                all == patterns(bases@),
                i <= bases@.len(),
                max == max_meet(all.take(i as int), subset@),
                max <= 64,
                forall|a: int, b: int|
                    0 <= a < bases@.len() && 0 <= b < bases@.len() ==> popcount(#[trigger] bases@[a]@)
                        == popcount(#[trigger] bases@[b]@),
            decreases bases.len() - i,
        {
            let intersect_size = bases[i].intersect(subset).size();
            proof {
                assert(all.take(i as int + 1).drop_last() =~= all.take(i as int));
                assert(all.take(i as int + 1).last() == bases@[i as int]@);
            }
            if intersect_size > max {
                max = intersect_size;
            }
            if max == bases[i].size() {
                proof {
                    lemma_meet_saturated(all, i as int + 1, subset@);
                }
                return max;
            }
            i = i + 1;
        }
        proof {
            assert(all.take(i as int) =~= all);
        }
        max
    }

    /// The ranks of a set and of its complement add up to at least `k` as
    /// soon as there is a base.
    pub proof fn lemma_complement_bound(&self)
        requires
            self.inv(),
            self.spec_bases().len() > 0,
        ensures
            complement_bound(self.model()),
    {
        let bs = self.spec_bases();
        let n = self.n as nat;
        assert forall|x: u64| within(x, n) implies (self.model().rank)(x) + #[trigger] (
        self.model().rank)(full(n) & !x) >= self.k by {
            let b = bs[0];
            let f = full(n);
            lemma_max_meet(bs, x);
            lemma_max_meet(bs, f & !x);
            lemma_popcount_split(b, x);
            lemma_within_and_full(b, n);
            assert(b & (f & !x) == b & !x) by (bit_vector)
                requires
                    b & f == b,
            ;
        }
    }
}

/// Once a prefix reaches the common base size, the maximum stays there.
proof fn lemma_meet_saturated(all: Seq<u64>, i: int, x: u64)
    requires
        0 < i <= all.len(),
        max_meet(all.take(i), x) == popcount(all[i - 1]),
        forall|a: int, b: int|
            0 <= a < all.len() && 0 <= b < all.len() ==> popcount(#[trigger] all[a]) == popcount(
                #[trigger] all[b],
            ),
    ensures
        max_meet(all, x) == popcount(all[i - 1]),
    decreases all.len() - i,
{
    if i < all.len() {
        let next = all.take(i + 1);
        assert(next.drop_last() =~= all.take(i));
        lemma_popcount_and_le(all[i], x);
        assert(popcount(all[i]) == popcount(all[i - 1]));
        lemma_meet_saturated(all, i + 1, x);
    } else {
        assert(all.take(i) =~= all);
    }
}

impl Matroid for BasesMatroid {
    closed spec fn model(&self) -> RankModel {
        RankModel { n: self.n as nat, k: self.k as nat, rank: bases_rank(patterns(self.bases@)) }
    }

    closed spec fn inv(&self) -> bool {
        self.wf()
    }

    proof fn lemma_axioms(&self) {
        assert forall|x: u64| within(x, self.model().n) implies #[trigger] (self.model().rank)(x)
            <= popcount(x) by {
            lemma_max_meet(patterns(self.bases@), x);
        }
    }

    fn n(&self) -> (r: usize) {
        self.n
    }

    fn k(&self) -> (r: usize) {
        self.k
    }

    fn rank(&self, subset: &BitSet) -> (r: usize) {
        proof {
            let bs = self.bases@;
            assert forall|i: int, j: int|
                0 <= i < bs.len() && 0 <= j < bs.len() implies popcount(#[trigger] bs[i]@)
                == popcount(#[trigger] bs[j]@) by {
                assert(patterns(bs)[i] == bs[i]@);
                assert(patterns(bs)[j] == bs[j]@);
            }
        }
        Self::rank_of_subset_given_bases(subset, &self.bases)
    }
}

impl From<StoredMatroid> for BasesMatroid {
    fn from(stored: StoredMatroid) -> (r: Self) {
        BasesMatroid { n: stored.n, k: stored.k, bases: stored.bases }
    }
}

impl vstd::std_specs::convert::FromSpecImpl<StoredMatroid> for BasesMatroid {
    open spec fn obeys_from_spec() -> bool {
        true
    }

    closed spec fn from_spec(v: StoredMatroid) -> BasesMatroid {
        BasesMatroid { n: v.n, k: v.k, bases: v.bases }
    }
}

/// The basis-table rank is monotone: a subset meets every base in no more
/// elements than a superset does.
pub proof fn lemma_bases_rank_monotone(bases: Seq<u64>, x: u64, y: u64)
    requires
        is_subset(x, y),
    ensures
        max_meet(bases, x) <= max_meet(bases, y),
{
    lemma_max_meet(bases, x);
    lemma_max_meet(bases, y);
    if bases.len() > 0 {
        let i = choose|i: int| 0 <= i < bases.len() && max_meet(bases, x) == popcount(#[trigger] bases[i] & x);
        let b = bases[i];
        let by = b & y;
        assert(by & x == b & x) by (bit_vector)
            requires
                x & y == x,
                by == b & y,
        ;
        lemma_popcount_and_le(by, x);
    }
}

} // verus!
