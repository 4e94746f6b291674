//! Matroids from the literature, used as worked examples.
use crate::bits::{pop, popcount, within};
use crate::matroid::bases_matroid::bases_fit;
use crate::matroid::BasesMatroid;
use crate::set::{filter_below, lemma_filter_facts, patterns, BitSet, SetIterator};
use vstd::arithmetic::power2::*;
use vstd::prelude::*;

verus! {

/// The matroid M of example 6.2 in "A generalization of weight polynomials to
/// matroids" (<https://doi.org/10.1016/j.disc.2015.10.005>): rank 5 on 8
/// elements, with the same Betti numbers as the non-isomorphic [`matroid_2`].
/// Each base is written with its elements numbered from 1.
pub fn matroid_1() -> (r: BasesMatroid)
    ensures
        r.wf(),
        r.spec_n() == 8,
        r.spec_k() == 5,
        r.spec_bases() == seq![
            0b01101101u64,
            0b10100111,
            0b10001111,
            0b10010111,
            0b10110011,
            0b01001111,
            0b01010111,
            0b01110011,
            0b01011101,
            0b10101101,
            0b10101011,
            0b01101011,
            0b10011101,
            0b01011011,
            0b01111001,
            0b01100111,
            0b01110101,
            0b10111001,
            0b10110101,
            0b10011011,
        ],
{
    let mut bases: Vec<BitSet> = Vec::new();
    bases.push(BitSet { content: 0b01101101 }); // {1, 3, 4, 6, 7}
    bases.push(BitSet { content: 0b10100111 }); // {1, 2, 3, 6, 8}
    bases.push(BitSet { content: 0b10001111 }); // {1, 2, 3, 4, 8}
    bases.push(BitSet { content: 0b10010111 }); // {1, 2, 3, 5, 8}
    bases.push(BitSet { content: 0b10110011 }); // {1, 2, 5, 6, 8}
    bases.push(BitSet { content: 0b01001111 }); // {1, 2, 3, 4, 7}
    bases.push(BitSet { content: 0b01010111 }); // {1, 2, 3, 5, 7}
    bases.push(BitSet { content: 0b01110011 }); // {1, 2, 5, 6, 7}
    bases.push(BitSet { content: 0b01011101 }); // {1, 3, 4, 5, 7}
    bases.push(BitSet { content: 0b10101101 }); // {1, 3, 4, 6, 8}
    bases.push(BitSet { content: 0b10101011 }); // {1, 2, 4, 6, 8}
    bases.push(BitSet { content: 0b01101011 }); // {1, 2, 4, 6, 7}
    bases.push(BitSet { content: 0b10011101 }); // {1, 3, 4, 5, 8}
    bases.push(BitSet { content: 0b01011011 }); // {1, 2, 4, 5, 7}
    bases.push(BitSet { content: 0b01111001 }); // {1, 4, 5, 6, 7}
    bases.push(BitSet { content: 0b01100111 }); // {1, 2, 3, 6, 7}
    bases.push(BitSet { content: 0b01110101 }); // {1, 3, 5, 6, 7}
    bases.push(BitSet { content: 0b10111001 }); // {1, 4, 5, 6, 8}
    bases.push(BitSet { content: 0b10110101 }); // {1, 3, 5, 6, 8}
    bases.push(BitSet { content: 0b10011011 }); // {1, 2, 4, 5, 8}
    proof {
        lemma2_to64();
        assert(popcount(0b01001111) == 5) by {
            reveal_with_fuel(pop, 9);
        }
        assert(popcount(0b01010111) == 5) by {
            reveal_with_fuel(pop, 9);
        }
        assert(popcount(0b01011011) == 5) by {
            reveal_with_fuel(pop, 9);
        }
        assert(popcount(0b01011101) == 5) by {
            reveal_with_fuel(pop, 9);
        }
        assert(popcount(0b01100111) == 5) by {
            reveal_with_fuel(pop, 9);
        }
        assert(popcount(0b01101011) == 5) by {
            reveal_with_fuel(pop, 9);
        }
        assert(popcount(0b01101101) == 5) by {
            reveal_with_fuel(pop, 9);
        }
        assert(popcount(0b01110011) == 5) by {
            reveal_with_fuel(pop, 9);
        }
        assert(popcount(0b01110101) == 5) by {
            reveal_with_fuel(pop, 9);
        }
        assert(popcount(0b01111001) == 5) by {
            reveal_with_fuel(pop, 9);
        }
        assert(popcount(0b10001111) == 5) by {
            reveal_with_fuel(pop, 9);
        }
        assert(popcount(0b10010111) == 5) by {
            reveal_with_fuel(pop, 9);
        }
        assert(popcount(0b10011011) == 5) by {
            reveal_with_fuel(pop, 9);
        }
        assert(popcount(0b10011101) == 5) by {
            reveal_with_fuel(pop, 9);
        }
        assert(popcount(0b10100111) == 5) by {
            reveal_with_fuel(pop, 9);
        }
        assert(popcount(0b10101011) == 5) by {
            reveal_with_fuel(pop, 9);
        }
        assert(popcount(0b10101101) == 5) by {
            reveal_with_fuel(pop, 9);
        }
        assert(popcount(0b10110011) == 5) by {
            reveal_with_fuel(pop, 9);
        }
        assert(popcount(0b10110101) == 5) by {
            reveal_with_fuel(pop, 9);
        }
        assert(popcount(0b10111001) == 5) by {
            reveal_with_fuel(pop, 9);
        }
        let ps = patterns(bases@);
        assert(ps =~= seq![
            0b01101101u64,
            0b10100111,
            0b10001111,
            0b10010111,
            0b10110011,
            0b01001111,
            0b01010111,
            0b01110011,
            0b01011101,
            0b10101101,
            0b10101011,
            0b01101011,
            0b10011101,
            0b01011011,
            0b01111001,
            0b01100111,
            0b01110101,
            0b10111001,
            0b10110101,
            0b10011011,
        ]);
        assert forall|i: int| 0 <= i < ps.len() implies within(#[trigger] ps[i], 8) && popcount(ps[i]) == 5 by {
            assert(ps[i] == bases@[i]@);
        }
    }
    BasesMatroid::new(bases, 8, 5)
}

/// The matroid N of example 6.2 in the same paper: rank 5 on 8 elements,
/// with the same Betti numbers as [`matroid_1`].
pub fn matroid_2() -> (r: BasesMatroid)
    ensures
        r.wf(),
        r.spec_n() == 8,
        r.spec_k() == 5,
        r.spec_bases() == seq![
            0b01101101u64,
            0b10001111,
            0b10010111,
            0b10110011,
            0b01001111,
            0b01010111,
            0b01110011,
            0b01011101,
            0b10101101,
            0b10101011,
            0b01101011,
            0b10011101,
            0b01011011,
            0b00111101,
            0b00111011,
            0b01110101,
            0b00110111,
            0b00101111,
            0b10110101,
            0b10011011,
        ],
{
    let mut bases: Vec<BitSet> = Vec::new();
    bases.push(BitSet { content: 0b01101101 }); // {1, 3, 4, 6, 7}
    bases.push(BitSet { content: 0b10001111 }); // {1, 2, 3, 4, 8}
    bases.push(BitSet { content: 0b10010111 }); // {1, 2, 3, 5, 8}
    bases.push(BitSet { content: 0b10110011 }); // {1, 2, 5, 6, 8}
    bases.push(BitSet { content: 0b01001111 }); // {1, 2, 3, 4, 7}
    bases.push(BitSet { content: 0b01010111 }); // {1, 2, 3, 5, 7}
    bases.push(BitSet { content: 0b01110011 }); // {1, 2, 5, 6, 7}
    bases.push(BitSet { content: 0b01011101 }); // {1, 3, 4, 5, 7}
    bases.push(BitSet { content: 0b10101101 }); // {1, 3, 4, 6, 8}
    bases.push(BitSet { content: 0b10101011 }); // {1, 2, 4, 6, 8}
    bases.push(BitSet { content: 0b01101011 }); // {1, 2, 4, 6, 7}
    bases.push(BitSet { content: 0b10011101 }); // {1, 3, 4, 5, 8}
    bases.push(BitSet { content: 0b01011011 }); // {1, 2, 4, 5, 7}
    bases.push(BitSet { content: 0b00111101 }); // {1, 3, 4, 5, 6}
    bases.push(BitSet { content: 0b00111011 }); // {1, 2, 4, 5, 6}
    bases.push(BitSet { content: 0b01110101 }); // {1, 3, 5, 6, 7}
    bases.push(BitSet { content: 0b00110111 }); // {1, 2, 3, 5, 6}
    bases.push(BitSet { content: 0b00101111 }); // {1, 2, 3, 4, 6}
    bases.push(BitSet { content: 0b10110101 }); // {1, 3, 5, 6, 8}
    bases.push(BitSet { content: 0b10011011 }); // {1, 2, 4, 5, 8}
    proof {
        lemma2_to64();
        assert(popcount(0b00101111) == 5) by {
            reveal_with_fuel(pop, 9);
        }
        assert(popcount(0b00110111) == 5) by {
            reveal_with_fuel(pop, 9);
        }
        assert(popcount(0b00111011) == 5) by {
            reveal_with_fuel(pop, 9);
        }
        assert(popcount(0b00111101) == 5) by {
            reveal_with_fuel(pop, 9);
        }
        assert(popcount(0b01001111) == 5) by {
            reveal_with_fuel(pop, 9);
        }
        assert(popcount(0b01010111) == 5) by {
            reveal_with_fuel(pop, 9);
        }
        assert(popcount(0b01011011) == 5) by {
            reveal_with_fuel(pop, 9);
        }
        assert(popcount(0b01011101) == 5) by {
            reveal_with_fuel(pop, 9);
        }
        assert(popcount(0b01101011) == 5) by {
            reveal_with_fuel(pop, 9);
        }
        assert(popcount(0b01101101) == 5) by {
            reveal_with_fuel(pop, 9);
        }
        assert(popcount(0b01110011) == 5) by {
            reveal_with_fuel(pop, 9);
        }
        assert(popcount(0b01110101) == 5) by {
            reveal_with_fuel(pop, 9);
        }
        assert(popcount(0b10001111) == 5) by {
            reveal_with_fuel(pop, 9);
        }
        assert(popcount(0b10010111) == 5) by {
            reveal_with_fuel(pop, 9);
        }
        assert(popcount(0b10011011) == 5) by {
            reveal_with_fuel(pop, 9);
        }
        assert(popcount(0b10011101) == 5) by {
            reveal_with_fuel(pop, 9);
        }
        assert(popcount(0b10101011) == 5) by {
            reveal_with_fuel(pop, 9);
        }
        assert(popcount(0b10101101) == 5) by {
            reveal_with_fuel(pop, 9);
        }
        assert(popcount(0b10110011) == 5) by {
            reveal_with_fuel(pop, 9);
        }
        assert(popcount(0b10110101) == 5) by {
            reveal_with_fuel(pop, 9);
        }
        let ps = patterns(bases@);
        assert(ps =~= seq![
            0b01101101u64,
            0b10001111,
            0b10010111,
            0b10110011,
            0b01001111,
            0b01010111,
            0b01110011,
            0b01011101,
            0b10101101,
            0b10101011,
            0b01101011,
            0b10011101,
            0b01011011,
            0b00111101,
            0b00111011,
            0b01110101,
            0b00110111,
            0b00101111,
            0b10110101,
            0b10011011,
        ]);
        assert forall|i: int| 0 <= i < ps.len() implies within(#[trigger] ps[i], 8) && popcount(ps[i]) == 5 by {
            assert(ps[i] == bases@[i]@);
        }
    }
    BasesMatroid::new(bases, 8, 5)
}

/// Two parallel edges between each pair of three vertices: the edges `2i`
/// and `2i + 1` are parallel.
pub open spec fn has_parallel_pair(x: u64) -> bool {
    exists|i: nat| i < 3 && #[trigger] (x & (3u64 << (2 * i) as u64)) == (3u64 << (2 * i) as u64)
}

/// Pairs of edges that are not parallel.
pub open spec fn non_fast_basis_pred() -> spec_fn(u64) -> bool {
    |x: u64| within(x, 6) && popcount(x) == 2 && !has_parallel_pair(x)
}

/// A graphical matroid of rank 2 and nullity 4 that is neither uniform nor
/// on at most 3 elements: the graph on 3 vertices with two edges between
/// every pair.
pub fn non_fast_matroid() -> (r: BasesMatroid)
    ensures
        r.wf(),
        r.spec_n() == 6,
        r.spec_k() == 2,
        r.spec_bases() == filter_below(64, non_fast_basis_pred()),
{
    let ghost p = non_fast_basis_pred();
    let mut it = SetIterator::new(6).size_limit(2).equal();
    let mut bases: Vec<BitSet> = Vec::new();
    proof {
        lemma2_to64();
        it.lemma_pos_bound();
        assert(patterns(bases@) =~= filter_below(0, p));
    }
    loop
        invariant
            p == non_fast_basis_pred(),
            it.wf(),
            it.ground() == 6,
            pow2(6) == 64,
            forall|x: u64| #[trigger] it.accepts(x) == (within(x, 6) && popcount(x) == 2),
            patterns(bases@) == filter_below(it.pos(), p),
        ensures
            patterns(bases@) == filter_below(64, p),
        decreases pow2(it.ground()) - it.pos(),
    {
        let ghost before = it.pos();
        proof {
            it.lemma_pos_bound();
        }
        let s = it.next();
        proof {
            assert forall|y: u64| p(y) implies #[trigger] it.accepts(y) by {}
            it.lemma_step(before, s, it.pos(), p);
        }
        match s {
            Some(s) => {
                let mut parallel = false;
                let mut i: usize = 0;
                while i < 3
                    invariant
                        i <= 3,
                        parallel == exists|j: nat|
                            j < i && #[trigger] (s@ & (3u64 << (2 * j) as u64)) == (3u64 << (2
                                * j) as u64),
                    decreases 3 - i,
                {
                    let circuit = BitSet { content: 3u64 << (2 * i) as u64 };
                    let sc = s.content;
                    let cc = circuit.content;
                    if circuit.is_subset_of(&s) {
                        assert(sc & cc == cc) by (bit_vector)
                            requires
                                cc & sc == cc,
                        ;
                        assert((s@ & (3u64 << (2 * (i as nat)) as u64)) == (3u64 << (2 * (i as nat)) as u64));
                        parallel = true;
                    } else {
                        assert(sc & cc != cc) by (bit_vector)
                            requires
                                cc & sc != cc,
                        ;
                        assert((s@ & (3u64 << (2 * (i as nat)) as u64)) != (3u64 << (2 * (i as nat)) as u64));
                        assert forall|j: nat|
                            j < i + 1 && #[trigger] (s@ & (3u64 << (2 * j) as u64)) == (3u64 << (2
                                * j) as u64) implies j < i by {}
                    }
                    i = i + 1;
                }
                if !parallel {
                    bases.push(s);
                }
                proof {
                    assert(patterns(bases@) =~= filter_below(it.pos(), p));
                }
            },
            None => {
                break;
            },
        }
    }
    proof {
        lemma_filter_facts(64, p);
    }
    BasesMatroid::new(bases, 6, 2)
}

} // verus!
