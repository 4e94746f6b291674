//! Matroids given by a rank oracle, the algorithms defined over that oracle,
//! and the concrete variants.
use crate::bits::{
    full, has_bit, is_subset, lemma_complement_within, lemma_popcount_le_64, popcount, within,
};
use crate::set::{extend_spec, filter_below, lemma_filter_congruent, patterns, BitSet, SetIterator};
use vstd::arithmetic::power2::*;
use vstd::prelude::*;

pub mod bases_matroid;
pub mod combinatorial_derived;
pub mod dual;
pub mod elongate;
pub mod examples;
pub mod storage;
pub mod uniform;
pub mod vamos;

pub use bases_matroid::BasesMatroid;
pub use combinatorial_derived::{CombinatorialDerivation, CombinatorialDerived};
pub use dual::Dual;
pub use elongate::Elongate;
pub use storage::StoredMatroid;
pub use uniform::UniformMatroid;
pub use vamos::Vamos;
use bases_matroid::bases_fit;

verus! {

/// What a matroid is to its algorithms: ground-set size, nominal rank, and
/// the rank of every subset.
pub struct RankModel {
    pub n: nat,
    pub k: nat,
    pub rank: spec_fn(u64) -> nat,
}

/// `x` without element `i`.
pub open spec fn without(x: u64, i: nat) -> u64 {
    x & !(1u64 << (i as u64))
}

/// `|X| - rank(X)`, read as `n - k` when `X` has `n` elements.
pub open spec fn nullity_of(m: RankModel, x: u64) -> int {
    if popcount(x) == m.n {
        m.n - m.k
    } else {
        popcount(x) - (m.rank)(x)
    }
}

/// `|X| + rank(E \ X) - k`.
pub open spec fn corank_of(m: RankModel, x: u64) -> int {
    popcount(x) + (m.rank)(full(m.n) & !x) - m.k
}

/// `rank(X) == |X|`.
pub open spec fn independent(m: RankModel, x: u64) -> bool {
    (m.rank)(x) == popcount(x)
}

/// Non-empty, and removing any one element of the ground set keeps the rank.
pub open spec fn cycle(m: RankModel, x: u64) -> bool {
    x != 0 && forall|i: nat| i < m.n ==> #[trigger] (m.rank)(without(x, i)) == (m.rank)(x)
}

/// A cycle of nullity one.
pub open spec fn circuit(m: RankModel, x: u64) -> bool {
    popcount(x) - (m.rank)(x) == 1 && cycle(m, x)
}

/// Subsets of the ground set of at most `k + 1` elements that are circuits.
pub open spec fn circuit_pred(m: RankModel) -> spec_fn(u64) -> bool {
    |x: u64| within(x, m.n) && popcount(x) <= m.k + 1 && circuit(m, x)
}

/// Circuits of exactly `c` elements.
pub open spec fn circuit_of_size_pred(m: RankModel, c: nat) -> spec_fn(u64) -> bool {
    |x: u64| within(x, m.n) && popcount(x) == c && circuit(m, x)
}

/// Independent subsets of at most `k` elements.
pub open spec fn independent_pred(m: RankModel) -> spec_fn(u64) -> bool {
    |x: u64| within(x, m.n) && popcount(x) <= m.k && independent(m, x)
}

/// Independent subsets of exactly `k` elements.
pub open spec fn basis_pred(m: RankModel) -> spec_fn(u64) -> bool {
    |x: u64| within(x, m.n) && popcount(x) == m.k && independent(m, x)
}

/// The circuits, ascending.
pub open spec fn circuits_of(m: RankModel) -> Seq<u64> {
    filter_below(pow2(m.n), circuit_pred(m))
}

/// The bases, ascending.
pub open spec fn bases_of(m: RankModel) -> Seq<u64> {
    filter_below(pow2(m.n), basis_pred(m))
}

/// The circuits of sizes `1..=c`, by ascending size, each size ascending.
pub open spec fn circuits_by_size(m: RankModel, c: nat) -> Seq<u64>
    decreases c,
{
    if c == 0 {
        Seq::empty()
    } else {
        circuits_by_size(m, (c - 1) as nat) + filter_below(pow2(m.n), circuit_of_size_pred(m, c))
    }
}

/// A set and its complement in the ground set have ranks that add up to at
/// least `k` (a consequence of submodularity).
pub open spec fn complement_bound(m: RankModel) -> bool {
    forall|x: u64| within(x, m.n) ==> (m.rank)(x) + #[trigger] (m.rank)(full(m.n) & !x) >= m.k
}

/// No subset has rank above `k`.
pub open spec fn rank_at_most_k(m: RankModel) -> bool {
    forall|x: u64| within(x, m.n) ==> #[trigger] (m.rank)(x) <= m.k
}

/// Some subset of `i` elements has corank at most `i - h`.
pub open spec fn hamming_witness(m: RankModel, h: nat, i: nat) -> bool {
    exists|x: u64| within(x, m.n) && popcount(x) == i && #[trigger] corank_of(m, x) <= i - h
}

/// Relabelled subsets of `element` of its rank whose elements are independent.
pub open spec fn restricted_basis_pred(m: RankModel, element: u64) -> spec_fn(u64) -> bool {
    |x: u64|
        within(x, popcount(element)) && popcount(x) == (m.rank)(element) && independent(
            m,
            extend_spec(x, element) as u64,
        )
}

/// The binomial coefficient `C(n, k)`.
pub open spec fn binom(n: nat, k: nat) -> nat
    decreases n,
{
    if k == 0 {
        1
    } else if n == 0 {
        0
    } else {
        binom((n - 1) as nat, (k - 1) as nat) + binom((n - 1) as nat, k)
    }
}

/// Relies on num_integer::binomial: the binomial coefficient `C(n, k)`, 0 for
/// `k > n`, computed without overflow in `u64` for `n <= 67`.
#[verifier::external_body]
fn binomial(n: u64, k: u64) -> (r: u64)
    requires
        n <= 64,
    ensures
        r == binom(n as nat, k as nat),
{
    num_integer::binomial(n, k)
}

/// A relabelled subset of `element` lies inside the ground set of `element`.
pub proof fn lemma_extend_within(s: u64, element: u64, n: nat)
    requires
        within(element, n),
    ensures
        extend_spec(s, element) <= element,
        within(extend_spec(s, element) as u64, n),
{
    crate::set::lemma_extend_bound(s, element);
}

pub proof fn lemma_within_and(x: u64, y: u64, n: nat)
    requires
        within(x, n),
    ensures
        within(x & y, n),
        within(y & x, n),
{
    assert(x & y <= x && y & x <= x) by (bit_vector);
}

/// A matroid: a ground-set size `n <= 64`, a nominal rank `k <= n`, and a
/// rank oracle with `rank(X) <= |X|` on every subset of the ground set.
pub trait Matroid: Sized {
    spec fn model(&self) -> RankModel;

    /// The variant's own well-formedness.
    spec fn inv(&self) -> bool;

    proof fn lemma_axioms(&self)
        requires
            self.inv(),
        ensures
            self.model().n <= 64,
            self.model().k <= self.model().n,
            forall|x: u64| within(x, self.model().n) ==> #[trigger] (self.model().rank)(x) <= popcount(x),
    ;

    /// The rank of the matroid.
    fn k(&self) -> (r: usize)
        requires
            self.inv(),
        ensures
            r == self.model().k,
    ;

    /// The size of the ground set.
    fn n(&self) -> (r: usize)
        requires
            self.inv(),
        ensures
            r == self.model().n,
    ;

    /// The rank of a subset of the ground set.
    fn rank(&self, subset: &BitSet) -> (r: usize)
        requires
            self.inv(),
            within(subset@, self.model().n),
        ensures
            r == (self.model().rank)(subset@),
    ;

    /// `|X| - rank(X)`; `n - k` for the full ground set.
    fn nullity(&self, subset: &BitSet) -> (r: usize)
        requires
            self.inv(),
            within(subset@, self.model().n),
        ensures
            r == nullity_of(self.model(), subset@),
    {
        proof {
            self.lemma_axioms();
        }
        if subset.size() == self.n() {
            self.n() - self.k()
        } else {
            subset.size() - self.rank(subset)
        }
    }

    /// `|X| + rank(E \ X) - k`.
    fn corank(&self, subset: &BitSet) -> (r: usize)
        requires
            self.inv(),
            complement_bound(self.model()),
            within(subset@, self.model().n),
        ensures
            r == corank_of(self.model(), subset@),
    {
        let ghost m = self.model();
        proof {
            self.lemma_axioms();
            lemma_popcount_le_64(subset@);
            lemma_complement_within(subset@, m.n);
        }
        let size = subset.size();
        let rest = BitSet::of_size(self.n()).difference(subset);
        let rest_rank = self.rank(&rest);
        let k = self.k();
        proof {
            assert(rest@ == full(m.n) & !subset@);
            assert((m.rank)(subset@) <= popcount(subset@));
            assert((m.rank)(subset@) + (m.rank)(full(m.n) & !subset@) >= m.k);
            assert((m.rank)(rest@) <= popcount(rest@));
            lemma_popcount_le_64(rest@);
        }
        size + rest_rank - k
    }

    /// Non-empty, and removing any single element never changes the rank.
    fn is_cycle(&self, subset: &BitSet) -> (r: bool)
        requires
            self.inv(),
            within(subset@, self.model().n),
        ensures
            r == cycle(self.model(), subset@),
    {
        proof {
            self.lemma_axioms();
        }
        if subset.is_empty() {
            return false;
        }
        let r = self.rank(subset);
        let n = self.n();
        let mut i: usize = 0;
        while i < n
            invariant
                self.inv(),
                n == self.model().n,
                n <= 64,
                i <= n,
                r == (self.model().rank)(subset@),
                within(subset@, self.model().n),
                forall|j: nat| j < i ==> #[trigger] (self.model().rank)(without(subset@, j)) == r,
            decreases n - i,
        {
            let smaller = subset.remove_element(i);
            proof {
                lemma_within_and(subset@, !(1u64 << (i as u64)), n as nat);
            }
            assert(smaller@ == without(subset@, i as nat));
            if self.rank(&smaller) != r {
                return false;
            }
            i = i + 1;
        }
        true
    }

    /// A cycle whose nullity is one.
    fn is_circuit(&self, subset: &BitSet) -> (r: bool)
        requires
            self.inv(),
            within(subset@, self.model().n),
        ensures
            r == circuit(self.model(), subset@),
    {
        proof {
            self.lemma_axioms();
        }
        subset.size() - self.rank(subset) == 1 && self.is_cycle(subset)
    }

    /// `rank(X) == |X|`.
    fn is_independent(&self, subset: &BitSet) -> (r: bool)
        requires
            self.inv(),
            within(subset@, self.model().n),
        ensures
            r == independent(self.model(), subset@),
    {
        self.rank(subset) == subset.size()
    }
    /// All circuits, ascending (no circuit has more than `k + 1` elements).
    fn circuits(&self) -> (r: Vec<BitSet>)
        requires
            self.inv(),
        ensures
            patterns(r@) == circuits_of(self.model()),
    {
        proof {
            self.lemma_axioms();
        }
        let it = SetIterator::new(self.n()).size_limit(self.k() + 1).smaller_equal();
        let r = self.filtered_subsets(it, true);
        proof {
            lemma_filter_congruent(
                pow2(self.model().n),
                selected(self.model(), it.accepted(), true),
                circuit_pred(self.model()),
            );
        }
        r
    }

    /// All circuits, one exact size after another from 1 to `k + 1`.
    fn par_circuits(&self) -> (r: Vec<BitSet>)
        requires
            self.inv(),
        ensures
            patterns(r@) == circuits_by_size(self.model(), self.model().k + 1),
    {
        proof {
            self.lemma_axioms();
        }
        let mut circuits: Vec<BitSet> = Vec::new();
        let top = self.k() + 1;
        let mut c: usize = 1;
        proof {
            assert(patterns(circuits@) =~= circuits_by_size(self.model(), 0));
        }
        while c <= top
            invariant
                self.inv(),
                top == self.model().k + 1,
                top <= 65,
                self.model().n <= 64,
                1 <= c <= top + 1,
                patterns(circuits@) == circuits_by_size(self.model(), (c - 1) as nat),
            decreases top + 1 - c,
        {
            let it = SetIterator::new(self.n()).size_limit(c).equal();
            let mut found = self.filtered_subsets(it, true);
            proof {
                lemma_filter_congruent(
                    pow2(self.model().n),
                    selected(self.model(), it.accepted(), true),
                    circuit_of_size_pred(self.model(), c as nat),
                );
            }
            circuits.append(&mut found);
            proof {
                assert(patterns(circuits@) =~= circuits_by_size(self.model(), c as nat));
            }
            c = c + 1;
        }
        circuits
    }

    /// All independent subsets, ascending.
    fn independents(&self) -> (r: Vec<BitSet>)
        requires
            self.inv(),
        ensures
            patterns(r@) == filter_below(pow2(self.model().n), independent_pred(self.model())),
    {
        proof {
            self.lemma_axioms();
        }
        let it = SetIterator::new(self.n()).size_limit(self.k()).smaller_equal();
        let r = self.filtered_subsets(it, false);
        proof {
            lemma_filter_congruent(
                pow2(self.model().n),
                selected(self.model(), it.accepted(), false),
                independent_pred(self.model()),
            );
        }
        r
    }

    /// All bases (independent subsets of `k` elements), ascending.
    fn bases(&self) -> (r: Vec<BitSet>)
        requires
            self.inv(),
        ensures
            patterns(r@) == bases_of(self.model()),
    {
        proof {
            self.lemma_axioms();
        }
        let it = SetIterator::new(self.n()).size_limit(self.k()).equal();
        let r = self.filtered_subsets(it, false);
        proof {
            lemma_filter_congruent(
                pow2(self.model().n),
                selected(self.model(), it.accepted(), false),
                basis_pred(self.model()),
            );
        }
        r
    }

    /// The smallest `i >= h` such that some subset of `i` elements has corank
    /// at most `i - h`; `None` when no `i <= n` has one.
    fn generalized_hamming_distance(&self, h: usize) -> (r: Option<usize>)
        requires
            self.inv(),
            complement_bound(self.model()),
        ensures
            match r {
                Some(i) => {
                    &&& h <= i <= self.model().n
                    &&& hamming_witness(self.model(), h as nat, i as nat)
                    &&& forall|j: nat|
                        h <= j < i ==> !#[trigger] hamming_witness(self.model(), h as nat, j)
                },
                None => forall|j: nat|
                    h <= j <= self.model().n ==> !#[trigger] hamming_witness(
                        self.model(),
                        h as nat,
                        j,
                    ),
            },
    {
        proof {
            self.lemma_axioms();
        }
        let n = self.n();
        let mut i: usize = h;
        while i <= n
            invariant
                self.inv(),
                complement_bound(self.model()),
                n == self.model().n,
                n <= 64,
                h <= i,
                i <= n + 1 || i == h,
                forall|j: nat| h <= j < i ==> !#[trigger] hamming_witness(self.model(), h as nat, j),
            decreases n + 1 - i,
        {
            let mut it = SetIterator::new(n).size_limit(i).equal();
            loop
                invariant
                    self.inv(),
                    complement_bound(self.model()),
                    n == self.model().n,
                    h <= i <= n,
                    it.wf(),
                    it.ground() == n,
                    forall|x: u64| #[trigger]
                        it.accepts(x) == (within(x, n as nat) && popcount(x) == i),
                    forall|x: u64|
                        (x as nat) < it.pos() && within(x, n as nat) && popcount(x) == i
                            ==> #[trigger] corank_of(self.model(), x) > i - h,
                    forall|j: nat| h <= j < i ==> !#[trigger] hamming_witness(self.model(), h as nat, j),
                ensures
                    !hamming_witness(self.model(), h as nat, i as nat),
                decreases pow2(it.ground()) - it.pos(),
            {
                proof {
                    it.lemma_pos_bound();
                }
                let ghost before = it.pos();
                let ghost prev = it;
                let next = it.next();
                proof {
                    it.lemma_pos_bound();
                }
                match next {
                    Some(s) => {
                        if self.corank(&s) <= i - h {
                            return Some(i);
                        }
                        proof {
                            assert forall|x: u64|
                                (x as nat) < it.pos() && within(x, n as nat) && popcount(x) == i
                                    implies #[trigger] corank_of(self.model(), x) > i - h by {
                                if (x as nat) >= before && x != s@ {
                                    assert(!prev.accepts(x));
                                }
                            }
                        }
                    },
                    None => {
                        proof {
                            assert forall|x: u64|
                                within(x, n as nat) && popcount(x) == i implies #[trigger] corank_of(
                                self.model(),
                                x,
                            ) > i - h by {
                                assert(it.accepts(x));
                                it.lemma_accepts_within();
                            }
                            assert(!hamming_witness(self.model(), h as nat, i as nat));
                        }
                        break;
                    },
                }
            }
            i = i + 1;
        }
        None
    }

    /// The first circuit, in the order of `circuits`, inside `basis ∪ {e}`.
    fn fundamental_circuit(&self, e: usize, basis: &BitSet) -> (r: Option<BitSet>)
        requires
            self.inv(),
            e < 64,
        ensures
            ({
                let cs = circuits_of(self.model());
                let c = basis@ | (1u64 << e as u64);
                match r {
                    Some(x) => exists|j: int|
                        0 <= j < cs.len() && cs[j] == x@ && is_subset(x@, c) && forall|i: int|
                            0 <= i < j ==> !#[trigger] is_subset(cs[i], c),
                    None => forall|j: int| 0 <= j < cs.len() ==> !#[trigger] is_subset(cs[j], c),
                }
            }),
    {
        let c = basis.add_element(e);
        let circuits = self.circuits();
        let mut j: usize = 0;
        while j < circuits.len()
            invariant
                patterns(circuits@) == circuits_of(self.model()),
                c@ == basis@ | (1u64 << e as u64),
                j <= circuits@.len(),
                forall|i: int| 0 <= i < j ==> !#[trigger] is_subset(circuits@[i]@, c@),
            decreases circuits.len() - j,
        {
            if circuits[j].is_subset_of(&c) {
                proof {
                    assert(patterns(circuits@)[j as int] == circuits@[j as int]@);
                    assert forall|i: int| 0 <= i < j implies !#[trigger] is_subset(
                        circuits_of(self.model())[i],
                        c@,
                    ) by {
                        assert(patterns(circuits@)[i] == circuits@[i]@);
                    }
                }
                return Some(circuits[j]);
            }
            j = j + 1;
        }
        proof {
            assert forall|i: int| 0 <= i < circuits_of(self.model()).len() implies !#[trigger] is_subset(
                circuits_of(self.model())[i],
                c@,
            ) by {
                assert(patterns(circuits@)[i] == circuits@[i]@);
            }
        }
        None
    }

    /// Every subset of `k` elements is a basis: the matroid has `C(n, k)`
    /// bases.
    fn is_uniform(&self) -> (r: bool)
        requires
            self.inv(),
        ensures
            r == (bases_of(self.model()).len() == binom(self.model().n, self.model().k)),
    {
        proof {
            self.lemma_axioms();
        }
        let count = self.bases().len() as u64;
        count == binomial(self.n() as u64, self.k() as u64)
    }

    /// The matroid on the elements of `element`, relabelled `0..|element|`,
    /// whose bases are the independent subsets of `element` of its rank.
    fn restrict(&self, element: &BitSet) -> (r: BasesMatroid)
        requires
            self.inv(),
            within(element@, self.model().n),
        ensures
            r.wf(),
            r.spec_n() == popcount(element@),
            r.spec_k() == (self.model().rank)(element@),
            r.spec_bases() == filter_below(
                pow2(popcount(element@)),
                restricted_basis_pred(self.model(), element@),
            ),
    {
        proof {
            self.lemma_axioms();
        }
        let rank = self.rank(element);
        let n = element.size();
        let mut it = SetIterator::new(n).size_limit(rank).equal();
        let ghost p = restricted_basis_pred(self.model(), element@);
        let mut bases: Vec<BitSet> = Vec::new();
        proof {
            it.lemma_pos_bound();
            assert(patterns(bases@) =~= filter_below(0, p));
        }
        loop
            invariant
                self.inv(),
                within(element@, self.model().n),
                n == popcount(element@),
                rank == (self.model().rank)(element@),
                rank <= n <= 64,
                p == restricted_basis_pred(self.model(), element@),
                it.wf(),
                it.ground() == n,
                forall|x: u64| #[trigger] it.accepts(x) == (within(x, n as nat) && popcount(x) == rank),
                patterns(bases@) == filter_below(it.pos(), p),
                bases_fit(patterns(bases@), n as nat, rank as nat),
            ensures
                patterns(bases@) == filter_below(pow2(n as nat), p),
                bases_fit(patterns(bases@), n as nat, rank as nat),
            decreases pow2(it.ground()) - it.pos(),
        {
            let ghost before = it.pos();
            proof {
                it.lemma_pos_bound();
            }
            let s = it.next();
            proof {
                assert forall|y: u64| p(y) implies #[trigger] it.accepts(y) by {}
                it.lemma_step(before, s, it.pos(), p);
                it.lemma_accepts_within();
            }
            match s {
                Some(s) => {
                    let chosen = s.extend(element);
                    proof {
                        lemma_extend_within(s@, element@, self.model().n);
                    }
                    if self.is_independent(&chosen) {
                        bases.push(s);
                    }
                    proof {
                        assert(patterns(bases@) =~= filter_below(it.pos(), p));
                    }
                },
                None => {
                    break;
                },
            }
        }
        BasesMatroid::new(bases, n, rank)
    }

    /// For each element, the number of bases containing it, in ascending
    /// order.
    fn bases_series(&self) -> (r: Vec<usize>)
        requires
            self.inv(),
        ensures
            r@.len() == self.model().n,
            forall|a: int, b: int| 0 <= a < b < r@.len() ==> r@[a] <= r@[b],
            r@.to_multiset() == Seq::new(
                self.model().n,
                |i: int| count_containing(bases_of(self.model()), i as nat) as usize,
            ).to_multiset(),
    {
        proof {
            self.lemma_axioms();
        }
        let bases = self.bases();
        let n = self.n();
        let ghost bs = bases_of(self.model());
        let mut containment: Vec<usize> = Vec::new();
        let mut i: usize = 0;
        while i < n
            invariant
                n == self.model().n,
                n <= 64,
                bs == patterns(bases@),
                bs == bases_of(self.model()),
                i <= n,
                containment@ =~= Seq::new(i as nat, |e: int| count_containing(bs, e as nat) as usize),
            decreases n - i,
        {
            let element = BitSet::empty().add_element(i);
            let mut count: usize = 0;
            let mut j: usize = 0;
            while j < bases.len()
                invariant
                    bs == patterns(bases@),
                    i < 64,
                    element@ == 0u64 | (1u64 << i as u64),
                    j <= bases@.len(),
                    count == count_containing(bs.take(j as int), i as nat),
                    count <= j,
                decreases bases.len() - j,
            {
                assert(bs.take(j + 1).drop_last() =~= bs.take(j as int));
                assert(bs[j as int] == bases@[j as int]@);
                proof {
                    let x = bases@[j as int]@;
                    let b = i as u64;
                    assert((0u64 | (1u64 << b)) & x == (0u64 | (1u64 << b)) <==> (x >> b) & 1 == 1)
                        by (bit_vector)
                        requires
                            b < 64,
                    ;
                }
                if element.is_subset_of(&bases[j]) {
                    count = count + 1;
                }
                j = j + 1;
            }
            proof {
                assert(bs.take(bases@.len() as int) =~= bs);
            }
            containment.push(count);
            i = i + 1;
        }
        sort_ascending(&mut containment);
        containment
    }

    /// The `l`-th elongation of this matroid.
    fn elongate(&self, l: usize) -> (r: Elongate<'_, Self>)
        ensures
            r.matroid == self,
            r.elongation == l,
    {
        Elongate { matroid: self, elongation: l }
    }

    /// The dual of this matroid.
    fn dual(&self) -> (r: Dual<'_, Self>)
        ensures
            r.matroid == self,
    {
        Dual { matroid: self }
    }

    /// The subsets that `start` yields, from its start on, kept when they are circuits
    /// (or, with `circuits` false, independent), in ascending order.
    fn filtered_subsets(&self, start: SetIterator, circuits: bool) -> (r: Vec<BitSet>)
        requires
            self.inv(),
            start.wf(),
            start.pos() == 0,
            start.ground() == self.model().n,
        ensures
            patterns(r@) == filter_below(
                pow2(self.model().n),
                selected(self.model(), start.accepted(), circuits),
            ),
    {
        let ghost p = selected(self.model(), start.accepted(), circuits);
        let mut it = start;
        let mut v: Vec<BitSet> = Vec::new();
        proof {
            it.lemma_pos_bound();
            assert(patterns(v@) =~= filter_below(0, p));
        }
        loop
            invariant
                self.inv(),
                it.wf(),
                p == selected(self.model(), start.accepted(), circuits),
                it.ground() == self.model().n,
                forall|x: u64| #[trigger] it.accepts(x) == start.accepts(x),
                patterns(v@) == filter_below(it.pos(), p),
            decreases pow2(it.ground()) - it.pos(),
        {
            let ghost before = it.pos();
            proof {
                it.lemma_pos_bound();
            }
            let s = it.next();
            proof {
                assert forall|y: u64| p(y) implies #[trigger] it.accepts(y) by {}
                it.lemma_step(before, s, it.pos(), p);
                it.lemma_accepts_within();
            }
            match s {
                Some(s) => {
                    let keep = if circuits {
                        self.is_circuit(&s)
                    } else {
                        self.is_independent(&s)
                    };
                    if keep {
                        v.push(s);
                    }
                    proof {
                        assert(patterns(v@) =~= filter_below(it.pos(), p));
                    }
                },
                None => {
                    return v;
                },
            }
        }
    }
}

/// Number of members of `bs` that contain element `i`.
pub open spec fn count_containing(bs: Seq<u64>, i: nat) -> nat
    decreases bs.len(),
{
    if bs.len() == 0 {
        0
    } else {
        count_containing(bs.drop_last(), i) + if has_bit(bs.last(), i) {
            1nat
        } else {
            0nat
        }
    }
}

/// Sorts `v` in ascending order (selection sort).
fn sort_ascending(v: &mut Vec<usize>)
    ensures
        final(v)@.len() == old(v)@.len(),
        forall|a: int, b: int| 0 <= a < b < final(v)@.len() ==> final(v)@[a] <= final(v)@[b],
        final(v)@.to_multiset() == old(v)@.to_multiset(),
{
    broadcast use vstd::seq_lib::group_to_multiset_ensures;
    broadcast use vstd::multiset::group_multiset_properties;

    let len = v.len();
    let mut i: usize = 0;
    while i < len
        invariant
            len == v@.len(),
            i <= len,
            v@.to_multiset() == old(v)@.to_multiset(),
            forall|a: int, b: int| 0 <= a < b < i ==> v@[a] <= v@[b],
            forall|a: int, b: int| 0 <= a < i <= b < len ==> v@[a] <= v@[b],
        decreases len - i,
    {
        let mut m: usize = i;
        let mut k: usize = i + 1;
        while k < len
            invariant
                len == v@.len(),
                i <= m < len,
                i < k <= len,
                forall|b: int| i <= b < k ==> v@[m as int] <= v@[b],
            decreases len - k,
        {
            if v[k] < v[m] {
                m = k;
            }
            k = k + 1;
        }
        let a = v[i];
        let b = v[m];
        let ghost before = v@;
        v.set(i, b);
        v.set(m, a);
        proof {
            assert(v@.to_multiset() =~= before.to_multiset()) by {
                let mid = before.update(i as int, b);
                vstd::seq_lib::to_multiset_update(before, i as int, b);
                assert(mid.to_multiset() == before.to_multiset().insert(b).remove(a));
                assert(v@ == mid.update(m as int, a));
                vstd::seq_lib::to_multiset_update(mid, m as int, a);
                let ms = before.to_multiset();
                assert(before.contains(a) && before.contains(b)) by {
                    assert(before[i as int] == a && before[m as int] == b);
                }
                vstd::seq_lib::to_multiset_contains(before, a);
                vstd::seq_lib::to_multiset_contains(before, b);
                assert(ms.count(a) > 0 && ms.count(b) > 0);
                assert(ms.insert(b).remove(a).insert(a).remove(b) =~= ms);
                assert(v@.to_multiset() == mid.to_multiset().insert(a).remove(mid[m as int]));
                if m == i {
                    assert(mid[m as int] == b);
                } else {
                    assert(mid[m as int] == b);
                }
            }
        }
        i = i + 1;
    }
}

/// Structural equality of matroids: the same labelled independent sets, not
/// isomorphism.
pub trait MatroidEquality: Matroid {
    /// Same ground-set size, same rank, and the same independent subsets.
    fn is_equal<N: Matroid>(&self, other: &N) -> (r: bool)
        requires
            self.inv(),
            other.inv(),
        ensures
            r == (self.model().n == other.model().n && self.model().k == other.model().k && forall|
                x: u64,
            |
                within(x, self.model().n) ==> #[trigger] independent(self.model(), x) == independent(
                    other.model(),
                    x,
                )),
    ;
}

impl<M: Matroid> MatroidEquality for M {
    /// Same ground-set size, same rank, and the same independent subsets.
    fn is_equal<N: Matroid>(&self, other: &N) -> (r: bool)
    {
        proof {
            self.lemma_axioms();
        }
        if self.n() != other.n() || self.k() != other.k() {
            return false;
        }
        let n = self.n();
        let mut it = SetIterator::new(n);
        loop
            invariant
                self.inv(),
                other.inv(),
                n == self.model().n,
                n == other.model().n,
                self.model().k == other.model().k,
                it.wf(),
                it.ground() == n,
                forall|x: u64| #[trigger] it.accepts(x) == within(x, n as nat),
                forall|x: u64|
                    (x as nat) < it.pos() && within(x, n as nat) ==> #[trigger] independent(
                        self.model(),
                        x,
                    ) == independent(other.model(), x),
            decreases pow2(it.ground()) - it.pos(),
        {
            let ghost before = it.pos();
            let ghost prev = it;
            let next = it.next();
            proof {
                it.lemma_pos_bound();
            }
            match next {
                Some(s) => {
                    if self.is_independent(&s) != other.is_independent(&s) {
                        return false;
                    }
                    proof {
                        assert forall|x: u64|
                            (x as nat) < it.pos() && within(x, n as nat) implies #[trigger] independent(
                            self.model(),
                            x,
                        ) == independent(other.model(), x) by {
                            if (x as nat) >= before && x != s@ {
                                assert(!prev.accepts(x));
                            }
                        }
                    }
                },
                None => {
                    proof {
                        assert forall|x: u64| within(x, n as nat) implies #[trigger] independent(
                            self.model(),
                            x,
                        ) == independent(other.model(), x) by {
                            assert(it.accepts(x));
                            it.lemma_accepts_within();
                        }
                    }
                    return true;
                },
            }
        }
    }
}

/// Subsets the enumerator yields that are circuits (or independent).
pub open spec fn selected(m: RankModel, yields: spec_fn(u64) -> bool, circuits: bool) -> spec_fn(
    u64,
) -> bool {
    |x: u64| yields(x) && if circuits {
        circuit(m, x)
    } else {
        independent(m, x)
    }
}

/// The rank axioms beyond `0 <= rank(X) <= |X|`: monotone under inclusion and
/// submodular, on subsets of the ground set.
pub open spec fn monotone_submodular(m: RankModel) -> bool {
    &&& forall|x: u64, y: u64|
        within(x, m.n) && within(y, m.n) && is_subset(x, y) ==> #[trigger] (m.rank)(x) <= #[trigger] (
        m.rank)(y)
    &&& forall|x: u64, y: u64|
        within(x, m.n) && within(y, m.n) ==> #[trigger] (m.rank)(x | y) + #[trigger] (m.rank)(x & y)
            <= (m.rank)(x) + (m.rank)(y)
}

/// Inclusion–exclusion for two sets.
pub proof fn lemma_popcount_union_meet(x: u64, y: u64)
    ensures
        popcount(x | y) + popcount(x & y) == popcount(x) + popcount(y),
{
    crate::bits::lemma_popcount_split(x | y, x);
    crate::bits::lemma_popcount_split(y, x);
    let u = x | y;
    assert(u & x == x && u & !x == y & !x) by (bit_vector)
        requires
            u == x | y,
    ;
    assert(y & x == x & y) by (bit_vector);
}

/// The circuits listed all at once and listed size by size are the same
/// sets of circuits.
pub proof fn lemma_circuit_listings_agree(m: RankModel)
    requires
        m.n <= 64,
    ensures
        circuits_of(m).to_set() == circuits_by_size(m, m.k + 1).to_set(),
{
    lemma_bound_pow2(m.n);
    crate::set::lemma_filter_facts(pow2(m.n), circuit_pred(m));
    lemma_by_size_members(m, m.k + 1);
    assert forall|x: u64| circuits_of(m).contains(x) implies circuits_by_size(m, m.k + 1).contains(x) by {
        let i = choose|i: int| 0 <= i < circuits_of(m).len() && circuits_of(m)[i] == x;
        assert(circuit_pred(m)(circuits_of(m)[i]));
        crate::set::lemma_pop_zero(x as nat);
    }
    assert forall|x: u64| circuits_by_size(m, m.k + 1).contains(x) implies circuits_of(m).contains(x) by {
        lemma_within_lt(x, m.n);
        assert(circuit_pred(m)(x));
    }
    assert(circuits_of(m).to_set() =~= circuits_by_size(m, m.k + 1).to_set());
}

proof fn lemma_bound_pow2(n: nat)
    requires
        n <= 64,
    ensures
        pow2(n) <= 0x1_0000_0000_0000_0000,
{
    lemma2_to64();
    lemma2_to64_rest();
    if n < 64 {
        lemma_pow2_strictly_increases(n, 64);
    }
}

proof fn lemma_within_lt(x: u64, n: nat)
    requires
        n <= 64,
        within(x, n),
    ensures
        (x as nat) < pow2(n),
{
    lemma2_to64();
    lemma2_to64_rest();
}

/// What the size-by-size listing holds.
proof fn lemma_by_size_members(m: RankModel, c: nat)
    requires
        m.n <= 64,
    ensures
        forall|x: u64|
            #[trigger] circuits_by_size(m, c).contains(x) <==> (within(x, m.n) && 1 <= popcount(x)
                <= c && circuit(m, x)),
    decreases c,
{
    lemma_bound_pow2(m.n);
    if c > 0 {
        lemma_by_size_members(m, (c - 1) as nat);
        let prev = circuits_by_size(m, (c - 1) as nat);
        let p = circuit_of_size_pred(m, c);
        let l = filter_below(pow2(m.n), p);
        crate::set::lemma_filter_facts(pow2(m.n), p);
        assert forall|x: u64| #[trigger] circuits_by_size(m, c).contains(x) <==> (within(x, m.n) && 1
            <= popcount(x) <= c && circuit(m, x)) by {
            let all = circuits_by_size(m, c);
            assert(all == prev + l);
            if all.contains(x) {
                let i = choose|i: int| 0 <= i < all.len() && all[i] == x;
                if i < prev.len() {
                    assert(prev[i] == x);
                    assert(prev.contains(x));
                } else {
                    assert(l[i - prev.len()] == x);
                    assert(p(l[i - prev.len()]));
                    crate::set::lemma_pop_zero(x as nat);
                }
            }
            if within(x, m.n) && 1 <= popcount(x) <= c && circuit(m, x) {
                if popcount(x) < c {
                    assert(prev.contains(x));
                    let i = choose|i: int| 0 <= i < prev.len() && prev[i] == x;
                    assert(all[i] == x);
                } else {
                    lemma_within_lt(x, m.n);
                    assert(p(x));
                    assert(l.contains(x));
                    let i = choose|i: int| 0 <= i < l.len() && l[i] == x;
                    assert(all[prev.len() + i] == x);
                }
            }
        }
    }
}

} // verus!
