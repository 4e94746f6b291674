//! Arithmetic facts about 64-bit patterns: membership, population count,
//! highest set bit, and the low-bit masks that stand for ground sets.
use vstd::arithmetic::power2::*;
use vstd::bits::*;
use vstd::prelude::*;

verus! {

/// Bit `i` of `x` is set.
pub open spec fn has_bit(x: u64, i: nat) -> bool {
    i < 64 && (x >> (i as u64)) & 1 == 1
}

/// Number of set bits of the binary expansion of `x`.
pub open spec fn pop(x: nat) -> nat
    decreases x,
{
    if x == 0 {
        0
    } else {
        x % 2 + pop(x / 2)
    }
}

/// Number of set bits of `x`.
pub open spec fn popcount(x: u64) -> nat {
    pop(x as nat)
}

/// Index of the highest set bit of `x`; 0 for the empty pattern.
pub open spec fn highest(x: u64) -> nat
    decreases x,
{
    if x <= 1 {
        0
    } else {
        1 + highest(x / 2)
    }
}

/// The pattern with the `n` lowest bits set (all 64 bits for `n >= 64`).
pub open spec fn full(n: nat) -> u64 {
    if n >= 64 {
        u64::MAX
    } else {
        (pow2(n) - 1) as u64
    }
}

/// `x` is a subset of the ground set `{0, .., n-1}`.
pub open spec fn within(x: u64, n: nat) -> bool {
    n >= 64 || (x as nat) < pow2(n)
}

/// `a` is a subset of `b`.
pub open spec fn is_subset(a: u64, b: u64) -> bool {
    a & b == a
}

pub proof fn lemma_and_halves(a: u64, b: u64)
    ensures
        (a & b) / 2 == (a / 2) & (b / 2),
        (a & b) % 2 == if a % 2 == 1 && b % 2 == 1 { 1u64 } else { 0u64 },
{
    assert((a & b) / 2 == (a / 2) & (b / 2)) by (bit_vector);
    assert((a & b) % 2 == if a % 2 == 1 && b % 2 == 1 { 1u64 } else { 0u64 }) by (bit_vector);
}

pub proof fn lemma_andnot_halves(a: u64, b: u64)
    ensures
        (a & !b) / 2 == (a / 2) & !(b / 2),
        (a & !b) % 2 == if a % 2 == 1 && b % 2 == 0 { 1u64 } else { 0u64 },
{
    assert((a & !b) / 2 == (a / 2) & !(b / 2)) by (bit_vector);
    assert((a & !b) % 2 == if a % 2 == 1 && b % 2 == 0 { 1u64 } else { 0u64 }) by (bit_vector);
}

/// An intersection is no larger than either side.
pub proof fn lemma_popcount_and_le(a: u64, b: u64)
    ensures
        popcount(a & b) <= popcount(a),
        popcount(a & b) <= popcount(b),
    decreases a,
{
    lemma_and_halves(a, b);
    if a == 0 {
        assert(a & b == 0) by (bit_vector)
            requires
                a == 0,
        ;
    } else {
        lemma_popcount_and_le(a / 2, b / 2);
    }
}

/// `a` splits into the part inside `b` and the part outside it.
pub proof fn lemma_popcount_split(a: u64, b: u64)
    ensures
        popcount(a & b) + popcount(a & !b) == popcount(a),
    decreases a,
{
    lemma_and_halves(a, b);
    lemma_andnot_halves(a, b);
    if a == 0 {
        assert(a & b == 0 && a & !b == 0) by (bit_vector)
            requires
                a == 0,
        ;
    } else {
        lemma_popcount_split(a / 2, b / 2);
    }
}

/// A pattern below `2^m` has at most `m` set bits.
pub proof fn lemma_popcount_bound(x: u64, m: nat)
    requires
        (x as nat) < pow2(m),
    ensures
        popcount(x) <= m,
    decreases m,
{
    if x == 0 {
    } else if m == 0 {
        lemma2_to64();
    } else {
        lemma_pow2_unfold(m);
        lemma_popcount_bound(x / 2, (m - 1) as nat);
    }
}

/// Every 64-bit pattern has at most 64 set bits.
pub proof fn lemma_popcount_le_64(x: u64)
    ensures
        popcount(x) <= 64,
{
    lemma2_to64();
    lemma_popcount_bound(x, 64);
}

/// The ground-set mask for `n <= 64` elements has `n` bits.
pub proof fn lemma_popcount_full(n: nat)
    requires
        n <= 64,
    ensures
        popcount(full(n)) == n,
    decreases n,
{
    lemma2_to64();
    if n == 0 {
    } else if n == 64 {
        assert(u64::MAX / 2 == full(63)) by {
            lemma2_to64_rest();
        }
        lemma_popcount_full(63);
    } else {
        lemma_pow2_unfold(n);
        lemma_u64_pow2_no_overflow(n);
        assert(full(n) / 2 == full((n - 1) as nat));
        lemma_pow2_pos((n - 1) as nat);
        lemma_popcount_full((n - 1) as nat);
    }
}

/// Inside the ground set, `x & full(n) == x`.
pub proof fn lemma_within_and_full(x: u64, n: nat)
    requires
        n <= 64,
        within(x, n),
    ensures
        x & full(n) == x,
{
    if n == 64 {
        assert(x & u64::MAX == x) by (bit_vector);
    } else {
        lemma_u64_low_bits_mask_is_mod(x, n);
        lemma_u64_pow2_no_overflow(n);
        assert(low_bits_mask(n) == pow2(n) - 1);
        assert((x as nat) % pow2(n) == x as nat) by {
            vstd::arithmetic::div_mod::lemma_small_mod(x as nat, pow2(n));
        }
    }
}

/// A subset of the ground set and its complement share out its `n` elements.
pub proof fn lemma_popcount_complement(x: u64, n: nat)
    requires
        n <= 64,
        within(x, n),
    ensures
        popcount(x) + popcount(full(n) & !x) == n,
{
    lemma_within_and_full(x, n);
    lemma_popcount_split(full(n), x);
    lemma_popcount_full(n);
    let f = full(n);
    assert(f & x == x) by (bit_vector)
        requires
            x & f == x,
    ;
}

/// Bits of a high part and a low part below `2^l` add up.
pub proof fn lemma_pop_concat(q: nat, r: nat, l: nat)
    requires
        r < pow2(l),
    ensures
        pop(q * pow2(l) + r) == pop(q) + pop(r),
    decreases l,
{
    if l == 0 {
        lemma2_to64();
        assert(q * pow2(l) == q) by (nonlinear_arith)
            requires
                pow2(l) == 1,
        ;
    } else {
        lemma_pow2_unfold(l);
        let v = q * pow2(l) + r;
        let pl = pow2((l - 1) as nat);
        assert(q * pow2(l) == 2 * (q * pl)) by (nonlinear_arith)
            requires
                pow2(l) == 2 * pl,
        ;
        assert(v % 2 == r % 2 && v / 2 == q * pl + r / 2) by (nonlinear_arith)
            requires
                v == 2 * (q * pl) + r,
        ;
        lemma_pop_concat(q, r / 2, (l - 1) as nat);
        if v == 0 {
            assert(q * pl == 0);
            if q != 0 {
                lemma_pow2_pos((l - 1) as nat);
                assert(q * pl > 0) by (nonlinear_arith)
                    requires
                        q > 0,
                        pl > 0,
                ;
            }
        }
    }
}

/// `2^m - 1` has `m` set bits.
pub proof fn lemma_pop_ones(m: nat)
    ensures
        pop((pow2(m) - 1) as nat) == m,
    decreases m,
{
    lemma_pow2_pos(m);
    if m == 0 {
        lemma2_to64();
    } else {
        lemma_pow2_unfold(m);
        lemma_pow2_pos((m - 1) as nat);
        lemma_pop_ones((m - 1) as nat);
    }
}

/// A pattern of `p` bits below `2^l` is at most `2^l - 2^(l - p)`.
pub proof fn lemma_pop_upper(v: nat, l: nat, p: nat)
    requires
        v < pow2(l),
        pop(v) == p,
    ensures
        p <= l,
        v + pow2((l - p) as nat) <= pow2(l),
    decreases l,
{
    if l == 0 {
        lemma2_to64();
    } else {
        lemma_pow2_unfold(l);
        let p2 = pop(v / 2);
        lemma_pop_upper(v / 2, (l - 1) as nat, p2);
        if v % 2 == 1 {
            assert((l - p) as nat == ((l - 1) as nat - p2) as nat);
            lemma_pow2_pos((l - p) as nat);
        } else {
            assert(((l - 1) as nat - p2) as nat + 1 == (l - p) as nat);
            lemma_pow2_unfold((l - p) as nat);
        }
    }
}

/// A pattern of `p` bits is at least `2^p - 1`.
pub proof fn lemma_pop_lower(v: nat)
    ensures
        v + 1 >= pow2(pop(v)),
    decreases v,
{
    if v == 0 {
        lemma2_to64();
    } else {
        lemma_pop_lower(v / 2);
        if v % 2 == 1 {
            lemma_pow2_unfold(pop(v));
        } else {
            lemma_pow2_pos(pop(v));
        }
    }
}

/// The next pattern after `x` with as many set bits: `x` is `a` above a run of
/// `m` ones that starts at bit `z`, `a` even; the successor carries the run's
/// top bit one place up and packs the other `m - 1` ones at the bottom.
pub proof fn lemma_successor(a: nat, z: nat, m: nat, x: nat, y: nat)
    requires
        m >= 1,
        a % 2 == 0,
        x == a * pow2(z + m) + (pow2(m) - 1) * pow2(z),
        y == (a + 1) * pow2(z + m) + pow2((m - 1) as nat) - 1,
    ensures
        pop(y) == pop(x),
        x < y,
        forall|w: nat| x < w < y ==> pop(w) != pop(x),
{
    let d = pow2(z + m);
    let pz = pow2(z);
    let pm = pow2(m);
    let pm1 = pow2((m - 1) as nat);
    lemma_pow2_pos(z);
    lemma_pow2_pos(m);
    lemma_pow2_pos((m - 1) as nat);
    lemma_pow2_adds(z, m);
    lemma_pow2_unfold(m);
    let low = ((pm - 1) * pz) as nat;
    assert(low + pz == d) by (nonlinear_arith)
        requires
            d == pz * pm,
            low == (pm - 1) * pz,
            pm >= 1,
    ;
    assert(low < d);
    lemma_pop_concat(a, low, z + m);
    assert(low == (pm - 1) as nat * pz + 0);
    lemma_pop_concat((pm - 1) as nat, 0, z);
    lemma_pop_ones(m);
    lemma_pop_ones((m - 1) as nat);
    assert(pop(low) == m);
    assert(pm1 - 1 < d) by {
        lemma_pow2_strictly_increases((m - 1) as nat, z + m);
    }
    lemma_pop_concat(a + 1, (pm1 - 1) as nat, z + m);
    assert(pop(a + 1) == pop(a) + 1) by {
        assert((a + 1) / 2 == a / 2);
    }
    assert(pop(y) == pop(x));
    assert((a + 1) * d == a * d + d) by (nonlinear_arith);
    assert(x < y);
    assert forall|w: nat| x < w < y implies pop(w) != pop(x) by {
        let q = w / d;
        let r = w % d;
        assert(w == q * d + r && r < d) by {
            vstd::arithmetic::div_mod::lemma_fundamental_div_mod(w as int, d as int);
        }
        lemma_pop_concat(q, r, z + m);
        if q < a {
            assert(q * d + d <= a * d) by (nonlinear_arith)
                requires
                    q < a,
                    d > 0,
            ;
        } else if q > a + 1 {
            assert(q * d >= (a + 2) * d) by (nonlinear_arith)
                requires
                    q >= a + 2,
                    d > 0,
            ;
            assert((a + 2) * d == a * d + 2 * d) by (nonlinear_arith);
        } else if q == a {
            if pop(r) == m {
                lemma_pop_upper(r, z + m, m);
                assert((z + m - m) as nat == z);
            }
        } else {
            if pop(r) == (m - 1) as nat {
                lemma_pop_lower(r);
            }
        }
    }
}

/// The complement of a set within the ground set lies in the ground set.
pub proof fn lemma_complement_within(x: u64, n: nat)
    requires
        n <= 64,
    ensures
        within(full(n) & !x, n),
{
    let f = full(n);
    assert(f & !x <= f) by (bit_vector);
    lemma2_to64();
    lemma2_to64_rest();
    if n < 64 {
        lemma_u64_pow2_no_overflow(n);
    }
}

proof fn lemma_pop_halves_nat(v: nat)
    ensures
        pop(v) == v % 2 + pop(v / 2),
{
}

/// A power of two has one set bit.
pub proof fn lemma_pop_pow2(c: nat)
    ensures
        pop(pow2(c)) == 1,
    decreases c,
{
    if c == 0 {
        lemma2_to64();
        lemma_pop_halves_nat(1);
        assert(pop(0) == 0);
    } else {
        lemma_pow2_unfold(c);
        lemma_pow2_pos((c - 1) as nat);
        lemma_pop_pow2((c - 1) as nat);
        let h = pow2((c - 1) as nat);
        assert(pow2(c) % 2 == 0 && pow2(c) / 2 == h);
        lemma_pop_halves_nat(pow2(c));
    }
}

} // verus!
