//! The Vámos matroid: rank 4 on 8 elements, not representable over any field.
use crate::bits::{
    full, lemma_popcount_and_le, lemma_popcount_split, pop, popcount, within,
};
use crate::matroid::bases_matroid::{bases_fit, lemma_max_meet, max_meet};
use crate::matroid::{complement_bound, rank_at_most_k, BasesMatroid, Matroid, RankModel};
use crate::set::{filter_below, lemma_filter_facts, patterns, BitSet, SetIterator};
use vstd::arithmetic::power2::*;
use vstd::prelude::*;

verus! {

/// The five dependent sets of four elements.
pub open spec fn vamos_circuit(x: u64) -> bool {
    x == 0b00111001 || x == 0b11001001 || x == 0b00001111 || x == 0b11000110 || x == 0b00110110
}

/// Fewer than four elements, or four that are not one of the five circuits.
pub open spec fn vamos_independent(x: u64) -> bool {
    popcount(x) < 4 || (popcount(x) == 4 && !vamos_circuit(x))
}

/// The bases: the independent subsets of four elements of `{0, .., 7}`.
pub open spec fn vamos_basis_pred() -> spec_fn(u64) -> bool {
    |x: u64| within(x, 8) && popcount(x) == 4 && vamos_independent(x)
}

/// The rank: `|x|` below four elements, else the largest meet with a base.
pub open spec fn vamos_rank(bases: Seq<u64>) -> spec_fn(u64) -> nat {
    |x: u64|
        if popcount(x) < 4 {
            popcount(x)
        } else {
            max_meet(bases, x)
        }
}

/// Independence in the Vámos matroid, read off its five circuits of size four.
fn is_independent(subset: &BitSet) -> (r: bool)
    ensures
        r == vamos_independent(subset@),
{
    let size = subset.size();
    if size < 4 {
        true
    } else if size > 4 {
        false
    } else {
        let c = subset.content;
        !(c == 0b00111001 || c == 0b11001001 || c == 0b00001111 || c == 0b11000110 || c
            == 0b00110110)
    }
}

/// The Vámos matroid, see <https://en.wikipedia.org/wiki/Vamos_matroid>.
pub struct Vamos {
    bases: Vec<BitSet>,
}

impl Vamos {
    /// The stored bases.
    pub closed spec fn spec_bases(&self) -> Seq<u64> {
        patterns(self.bases@)
    }

    pub fn new() -> (r: Self)
        ensures
            r.inv(),
            r.spec_bases() == filter_below(256, vamos_basis_pred()),
    {
        let ghost p = vamos_basis_pred();
        let mut it = SetIterator::new(8).size_limit(4).equal();
        let mut bases: Vec<BitSet> = Vec::new();
        proof {
            lemma2_to64();
            it.lemma_pos_bound();
            assert(patterns(bases@) =~= filter_below(0, p));
        }
        loop
            invariant
                p == vamos_basis_pred(),
                it.wf(),
                it.ground() == 8,
                pow2(8) == 256,
                forall|x: u64| #[trigger] it.accepts(x) == (within(x, 8) && popcount(x) == 4),
                patterns(bases@) == filter_below(it.pos(), p),
            ensures
                patterns(bases@) == filter_below(256, p),
            decreases pow2(it.ground()) - it.pos(),
        {
            let ghost before = it.pos();
            proof {
                it.lemma_pos_bound();
            }
            let s = it.next();
            proof {
                assert forall|y: u64| p(y) implies #[trigger] it.accepts(y) by {}
                it.lemma_step(before, s, it.pos(), p);
            }
            match s {
                Some(s) => {
                    if is_independent(&s) {
                        bases.push(s);
                    }
                    proof {
                        assert(patterns(bases@) =~= filter_below(it.pos(), p));
                    }
                },
                None => {
                    break;
                },
            }
        }
        Self { bases }
    }
}

impl Default for Vamos {
    fn default() -> (r: Self)
        ensures
            r.inv(),
    {
        Self::new()
    }
}

impl Matroid for Vamos {
    closed spec fn model(&self) -> RankModel {
        RankModel { n: 8, k: 4, rank: vamos_rank(patterns(self.bases@)) }
    }

    closed spec fn inv(&self) -> bool {
        patterns(self.bases@) == filter_below(256, vamos_basis_pred())
    }

    proof fn lemma_axioms(&self) {
        assert forall|x: u64| within(x, 8) implies #[trigger] (self.model().rank)(x) <= popcount(
            x,
        ) by {
            lemma_max_meet(patterns(self.bases@), x);
        }
    }

    fn rank(&self, subset: &BitSet) -> (r: usize) {
        let size = subset.size();
        if size < 4 {
            return size;
        }
        proof {
            lemma_filter_facts(256, vamos_basis_pred());
            let bs = self.bases@;
            assert forall|i: int, j: int|
                0 <= i < bs.len() && 0 <= j < bs.len() implies popcount(#[trigger] bs[i]@)
                == popcount(#[trigger] bs[j]@) by {
                assert(patterns(bs)[i] == bs[i]@);
                assert(patterns(bs)[j] == bs[j]@);
            }
        }
        BasesMatroid::rank_of_subset_given_bases(subset, &self.bases)
    }

    fn k(&self) -> (r: usize) {
        4
    }

    fn n(&self) -> (r: usize) {
        8
    }
}

impl Vamos {
    /// The ranks of a set and of its complement add up to at least 4, and no
    /// rank exceeds 4: what `corank`, the Hamming distances and the dual need.
    pub proof fn lemma_bounds(&self)
        requires
            self.inv(),
        ensures
            complement_bound(self.model()),
            rank_at_most_k(self.model()),
    {
        let bs = patterns(self.bases@);
        let p = vamos_basis_pred();
        let b0: u64 = 0b00010111;
        lemma2_to64();
        assert(popcount(b0) == 4) by {
            reveal_with_fuel(pop, 9);
        }
        assert(p(b0));
        lemma_filter_facts(256, p);
        assert(bs.contains(b0));
        let f = full(8);
        assert forall|x: u64| within(x, 8) implies (self.model().rank)(x) + #[trigger] (
        self.model().rank)(f & !x) >= 4 by {
            let y = f & !x;
            lemma_max_meet(bs, x);
            lemma_max_meet(bs, y);
            lemma_popcount_split(b0, x);
            assert(b0 & f == b0) by (bit_vector)
                requires
                    b0 == 0b00010111u64,
                    f == 255u64,
            ;
            assert(b0 & y == b0 & !x) by (bit_vector)
                requires
                    b0 & f == b0,
                    y == f & !x,
            ;
            lemma_popcount_and_le(b0, x);
            lemma_popcount_and_le(b0, y);
            lemma_popcount_and_le(x, b0);
            lemma_popcount_and_le(y, b0);
            assert(x & b0 == b0 & x && y & b0 == b0 & y) by (bit_vector);
        }
        assert forall|x: u64| within(x, 8) implies #[trigger] (self.model().rank)(x) <= 4 by {
            lemma_max_meet(bs, x);
            if bs.len() > 0 {
                let i = choose|i: int| 0 <= i < bs.len() && max_meet(bs, x) == popcount(#[trigger] bs[i] & x);
                assert(p(bs[i]));
                lemma_popcount_and_le(bs[i], x);
            }
        }
    }
}

} // verus!
