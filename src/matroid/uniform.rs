//! The uniform matroid `U(k, n)`.
use crate::bits::{
    full, is_subset, lemma_popcount_and_le, lemma_popcount_complement, pop, popcount, within,
};
use crate::matroid::{
    bases_of, basis_pred, binom, circuit_pred, circuits_of, complement_bound,
    lemma_popcount_union_meet, monotone_submodular, rank_at_most_k, without, Matroid, RankModel,
};
use crate::set::filter_below;
use vstd::arithmetic::power2::*;
use crate::set::BitSet;
use vstd::prelude::*;

verus! {

/// `min(|x|, k)`.
pub open spec fn uniform_rank(k: nat) -> spec_fn(u64) -> nat {
    |x: u64|
        if popcount(x) < k {
            popcount(x)
        } else {
            k
        }
}

/// The U(k, n) uniform matroid: on a ground set of `n` elements, every subset
/// of at most `k` elements is independent.
#[derive(Debug, Clone)]
pub struct UniformMatroid {
    k: usize,
    n: usize,
}

impl UniformMatroid {
    pub fn new(k: usize, n: usize) -> (r: Self)
        requires
            k <= n <= 64,
        ensures
            r.inv(),
            r.model() == (RankModel { n: n as nat, k: k as nat, rank: uniform_rank(k as nat) }),
    {
        UniformMatroid { k, n }
    }

    /// The ranks of a set and of its complement add up to at least `k`, and
    /// no rank exceeds `k`.
    pub proof fn lemma_bounds(&self)
        requires
            self.inv(),
        ensures
            complement_bound(self.model()),
            rank_at_most_k(self.model()),
    {
        assert forall|x: u64| within(x, self.n as nat) implies (self.model().rank)(x) + #[trigger] (
        self.model().rank)(full(self.n as nat) & !x) >= self.k by {
            lemma_popcount_complement(x, self.n as nat);
        }
    }
}

impl Matroid for UniformMatroid {
    closed spec fn model(&self) -> RankModel {
        RankModel { n: self.n as nat, k: self.k as nat, rank: uniform_rank(self.k as nat) }
    }

    closed spec fn inv(&self) -> bool {
        self.k <= self.n <= 64
    }

    proof fn lemma_axioms(&self) {
    }

    fn rank(&self, subset: &BitSet) -> (r: usize) {
        let size = subset.size();
        if size < self.k {
            size
        } else {
            self.k
        }
    }

    fn k(&self) -> (r: usize) {
        self.k
    }

    fn n(&self) -> (r: usize) {
        self.n
    }
}

/// The rank of `U(k, n)` is monotone and submodular.
pub proof fn lemma_uniform_axioms(k: nat, n: nat)
    ensures
        monotone_submodular(RankModel { n, k, rank: uniform_rank(k) }),
{
    let m = RankModel { n, k, rank: uniform_rank(k) };
    assert forall|x: u64, y: u64|
        within(x, m.n) && within(y, m.n) && is_subset(x, y) implies #[trigger] (m.rank)(x)
        <= #[trigger] (m.rank)(y) by {
        lemma_popcount_and_le(x, y);
    }
    assert forall|x: u64, y: u64|
        within(x, m.n) && within(y, m.n) implies #[trigger] (m.rank)(x | y) + #[trigger] (m.rank)(
        x & y) <= (m.rank)(x) + (m.rank)(y) by {
        lemma_popcount_union_meet(x, y);
        lemma_popcount_and_le(x, y);
    }
}

/// Values of exactly `k` set bits.
pub open spec fn of_weight(k: nat) -> spec_fn(u64) -> bool {
    |x: u64| popcount(x) == k
}

/// Predicates that agree below `hi` list the same values below `hi`.
proof fn lemma_filter_agree_below(hi: nat, p: spec_fn(u64) -> bool, q: spec_fn(u64) -> bool)
    requires
        forall|x: u64| (x as nat) < hi ==> #[trigger] p(x) == q(x),
    ensures
        filter_below(hi, p) == filter_below(hi, q),
    decreases hi,
{
    if hi > 0 {
        lemma_filter_agree_below((hi - 1) as nat, p, q);
        if hi <= 0x1_0000_0000_0000_0000 {
            assert(p((hi - 1) as u64) == q((hi - 1) as u64));
        }
    }
}

/// Counting up to `h + m` is counting up to `h`, then the next `m` values.
proof fn lemma_filter_shift(h: nat, m: nat, p: spec_fn(u64) -> bool, q: spec_fn(u64) -> bool)
    requires
        h + m <= 0x1_0000_0000_0000_0000,
        forall|y: u64| (y as nat) < m ==> #[trigger] q(y) == p((y + h) as u64),
    ensures
        filter_below(h + m, p).len() == filter_below(h, p).len() + filter_below(m, q).len(),
    decreases m,
{
    if m > 0 {
        lemma_filter_shift(h, (m - 1) as nat, p, q);
        assert(q((m - 1) as u64) == p((m - 1 + h) as u64));
        assert((h + m - 1) as nat == (h + (m - 1)) as nat);
    }
}

/// There are `C(n, k)` values below `2^n` with `k` set bits.
pub proof fn lemma_weight_count(n: nat, k: nat)
    requires
        n <= 64,
    ensures
        filter_below(pow2(n), of_weight(k)).len() == binom(n, k),
    decreases n, k,
{
    lemma2_to64();
    lemma2_to64_rest();
    if n == 0 {
        assert(filter_below(0, of_weight(k)).len() == 0);
        assert(popcount(0) == 0);
    } else {
        let h = pow2((n - 1) as nat);
        lemma_pow2_unfold(n);
        if n < 64 {
            lemma_pow2_strictly_increases(n, 64);
        }
        lemma_pow2_pos((n - 1) as nat);
        lemma_weight_count((n - 1) as nat, k);
        if k == 0 {
            let none = |y: u64| false;
            assert forall|y: u64| (y as nat) < h implies #[trigger] none(y) == of_weight(0)(
                (y + h) as u64,
            ) by {
                crate::set::lemma_pop_zero(((y + h) as u64) as nat);
            }
            lemma_filter_shift(h, h, of_weight(0), none);
            crate::set::lemma_filter_skip(0, h, none);
        } else {
            lemma_weight_count((n - 1) as nat, (k - 1) as nat);
            assert forall|y: u64| (y as nat) < h implies #[trigger] of_weight((k - 1) as nat)(y)
                == of_weight(k)((y + h) as u64) by {
                crate::bits::lemma_pop_concat(1, y as nat, (n - 1) as nat);
                assert(1 * h + y == (y + h) as u64);
                assert(pop(1) == 1) by {
                    assert(pop(0) == 0);
                }
            }
            lemma_filter_shift(h, h, of_weight(k), of_weight((k - 1) as nat));
        }
    }
}

/// `U(k, n)` has exactly `C(n, k)` bases and `C(n, k + 1)` circuits.
pub proof fn lemma_uniform_counts(k: nat, n: nat)
    requires
        k <= n <= 64,
    ensures
        bases_of(RankModel { n, k, rank: uniform_rank(k) }).len() == binom(n, k),
        circuits_of(RankModel { n, k, rank: uniform_rank(k) }).len() == binom(n, k + 1),
{
    let m = RankModel { n, k, rank: uniform_rank(k) };
    lemma2_to64();
    lemma2_to64_rest();
    if n < 64 {
        lemma_pow2_strictly_increases(n, 64);
    }
    lemma_weight_count(n, k);
    lemma_weight_count(n, k + 1);
    lemma_filter_agree_below(pow2(n), basis_pred(m), of_weight(k));
    assert forall|x: u64| (x as nat) < pow2(n) implies #[trigger] circuit_pred(m)(x) == of_weight(
        k + 1,
    )(x) by {
        if popcount(x) == k + 1 {
            assert forall|i: nat| i < m.n implies #[trigger] (m.rank)(without(x, i)) == (m.rank)(
                x,
            ) by {
                lemma_remove_one(x, i);
            }
        }
    }
    lemma_filter_agree_below(pow2(n), circuit_pred(m), of_weight(k + 1));
}

/// Removing one element removes at most one from the size.
proof fn lemma_remove_one(x: u64, i: nat)
    requires
        i < 64,
    ensures
        popcount(without(x, i)) + 1 >= popcount(x),
{
    let e = 1u64 << (i as u64);
    vstd::bits::lemma_u64_pow2_no_overflow(i);
    vstd::bits::lemma_u64_shl_is_mul(1, i as u64);
    crate::bits::lemma_pop_pow2(i);
    crate::bits::lemma_popcount_split(x, e);
    crate::bits::lemma_popcount_and_le(x, e);
}

} // verus!
