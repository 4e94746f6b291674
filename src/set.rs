//! Subsets of a ground set of at most 64 elements, as bit patterns, and their
//! enumeration in ascending numeric order.
use crate::bits::{
    full, has_bit, highest, is_subset, lemma_pop_lower, lemma_popcount_bound, lemma_popcount_full,
    lemma_popcount_le_64, lemma_successor, lemma_within_and_full, pop, popcount, within,
};
use vstd::arithmetic::power2::*;
use vstd::bits::*;
use vstd::prelude::*;

verus! {

/// A set of elements: bit `i` stands for element `i` of the ground set.
#[derive(Debug, Clone, Copy, PartialEq, Eq, Hash, Structural)]
pub struct BitSet {
    pub content: u64,
}

impl View for BitSet {
    type V = u64;

    open spec fn view(&self) -> u64 {
        self.content
    }
}

/// The patterns of a sequence of sets.
pub open spec fn patterns(sets: Seq<BitSet>) -> Seq<u64> {
    sets.map_values(|s: BitSet| s@)
}

/// Union of `sets[i]` over the indices `i < m` that `sel` selects.
pub open spec fn union_selected(sel: u64, sets: Seq<u64>, m: nat) -> u64
    decreases m,
{
    if m == 0 {
        0
    } else {
        let acc = union_selected(sel, sets, (m - 1) as nat);
        if has_bit(sel, (m - 1) as nat) {
            acc | sets[m - 1]
        } else {
            acc
        }
    }
}

/// The pattern that takes, for the `i`-th set bit of `t`, bit `i` of `s`.
pub open spec fn extend_spec(s: u64, t: u64) -> nat
    decreases t,
{
    if t == 0 {
        0
    } else if t % 2 == 1 {
        (s % 2) as nat + 2 * extend_spec(s / 2, t / 2)
    } else {
        2 * extend_spec(s, t / 2)
    }
}

pub proof fn lemma_extend_bound(s: u64, t: u64)
    ensures
        extend_spec(s, t) <= t,
    decreases t,
{
    if t != 0 {
        if t % 2 == 1 {
            lemma_extend_bound(s / 2, t / 2);
        } else {
            lemma_extend_bound(s, t / 2);
        }
    }
}

impl BitSet {
    /// The empty set.
    pub fn empty() -> (r: Self)
        ensures
            r@ == 0,
    {
        BitSet { content: 0 }
    }

    /// The full ground set of `n` elements: the `n` lowest bits.
    pub fn of_size(n: usize) -> (r: Self)
        requires
            n <= 64,
        ensures
            r@ == full(n as nat),
            popcount(r@) == n,
    {
        proof {
            lemma_popcount_full(n as nat);
        }
        if n == 64 {
            BitSet { content: u64::MAX }
        } else {
            proof {
                lemma_u64_pow2_no_overflow(n as nat);
                lemma_u64_shl_is_mul(1, n as u64);
            }
            BitSet { content: (1u64 << (n as u64)) - 1 }
        }
    }

    /// The index of the highest element of the set; 0 for the empty set.
    pub fn leftmost_element(&self) -> (r: usize)
        ensures
            r == highest(self@),
            r < 64,
    {
        let mut x: u64 = self.content;
        let mut r: usize = 0;
        proof {
            lemma_highest_bound(self@);
        }
        while x > 1
            invariant
                r + highest(x) == highest(self@),
                highest(self@) < 64,
            decreases x,
        {
            x = x / 2;
            r = r + 1;
        }
        r
    }

    /// The number of elements of the set.
    pub fn size(&self) -> (r: usize)
        ensures
            r == popcount(self@),
            r <= 64,
    {
        let mut x: u64 = self.content;
        let mut r: usize = 0;
        proof {
            lemma_popcount_le_64(self@);
        }
        while x != 0
            invariant
                r + popcount(x) == popcount(self@),
                popcount(self@) <= 64,
            decreases x,
        {
            r = r + (x % 2) as usize;
            x = x / 2;
        }
        r
    }

    /// `self ∪ other`.
    pub fn union(&self, other: &Self) -> (r: Self)
        ensures
            r@ == self@ | other@,
    {
        BitSet { content: self.content | other.content }
    }

    /// `self ∩ other`.
    pub fn intersect(&self, other: &Self) -> (r: Self)
        ensures
            r@ == self@ & other@,
    {
        BitSet { content: self.content & other.content }
    }

    /// `self \ other`.
    pub fn difference(&self, other: &Self) -> (r: Self)
        ensures
            r@ == self@ & !other@,
    {
        BitSet { content: self.content & !other.content }
    }

    /// `(self ∪ other) \ (self ∩ other)`.
    pub fn symmetric_difference(&self, other: &Self) -> (r: Self)
        ensures
            r@ == self@ ^ other@,
    {
        BitSet { content: self.content ^ other.content }
    }

    /// The set without `element`.
    pub fn remove_element(&self, element: usize) -> (r: Self)
        requires
            element < 64,
        ensures
            r@ == self@ & !(1u64 << element as u64),
    {
        BitSet { content: self.content & !(1u64 << (element as u64)) }
    }

    /// The set with `element`.
    pub fn add_element(&self, element: usize) -> (r: Self)
        requires
            element < 64,
        ensures
            r@ == self@ | (1u64 << element as u64),
    {
        BitSet { content: self.content | (1u64 << (element as u64)) }
    }

    /// The set has no element.
    pub fn is_empty(&self) -> (r: bool)
        ensures
            r == (self@ == 0),
    {
        self.content == 0
    }

    /// `element` belongs to the set.
    pub fn contains_element(&self, element: usize) -> (r: bool)
        requires
            element < 64,
        ensures
            r == has_bit(self@, element as nat),
            r == (self@ & (1u64 << element as u64) != 0),
    {
        let e = element as u64;
        let x = self.content;
        assert((x >> e) & 1 == 1 <==> x & (1u64 << e) != 0) by (bit_vector)
            requires
                e < 64,
        ;
        self.content & (1u64 << e) != 0
    }
}

proof fn lemma_highest_pow2(x: u64)
    requires
        x > 0,
    ensures
        pow2(highest(x)) <= x,
        (x as nat) < pow2(highest(x) + 1),
    decreases x,
{
    if x > 1 {
        lemma_highest_pow2(x / 2);
        lemma_pow2_unfold(highest(x) + 1);
        lemma_pow2_unfold(highest(x));
    } else {
        lemma2_to64();
    }
}

proof fn lemma_highest_bound(x: u64)
    ensures
        highest(x) < 64,
        x > 0 ==> (x as nat) < pow2(highest(x) + 1),
{
    lemma2_to64();
    if x > 0 {
        lemma_highest_pow2(x);
        if highest(x) >= 64 {
            if highest(x) > 64 {
                lemma_pow2_strictly_increases(64, highest(x));
            }
        }
    }
}

impl BitSet {
    /// For every set bit `i` of `self`, the `i`-th set bit of `set`: the
    /// elements of `set` that the index pattern `self` selects. Bits of `self`
    /// beyond the size of `set` select nothing.
    pub fn extend(&self, set: &Self) -> (r: Self)
        ensures
            r@ == extend_spec(self@, set@),
    {
        let mut s: u64 = self.content;
        let mut t: u64 = set.content;
        let mut content: u64 = 0;
        let mut p: u64 = 1;
        let ghost target = extend_spec(self@, set@);
        proof {
            lemma_extend_bound(s, t);
        }
        while t != 0
            invariant
                p >= 1,
                p * t <= set@,
                content + p * extend_spec(s, t) == target,
                target <= set@,
            decreases t,
        {
            let ghost t0 = t;
            let ghost s0 = s;
            let ghost c0 = content;
            let ghost e0 = extend_spec(s0, t0);
            if t % 2 == 1 {
                let bit = s % 2;
                let ghost e1 = extend_spec(s0 / 2, t0 / 2);
                assert(e0 == bit + 2 * e1);
                assert(c0 + p * bit + (2 * p) * e1 == c0 + p * e0) by (nonlinear_arith)
                    requires
                        e0 == bit + 2 * e1,
                ;
                assert(p * bit <= p * e0) by (nonlinear_arith)
                    requires
                        bit <= e0,
                ;
                content = content + p * bit;
                s = s / 2;
            } else {
                let ghost e1 = extend_spec(s0, t0 / 2);
                assert(c0 + (2 * p) * e1 == c0 + p * e0) by (nonlinear_arith)
                    requires
                        e0 == 2 * e1,
                ;
            }
            t = t / 2;
            assert(content + (2 * p) * extend_spec(s, t) == target);
            assert(p * t <= set@) by (nonlinear_arith)
                requires
                    2 * t <= t0,
                    p * t0 <= set@,
                    p >= 1,
            ;
            if t != 0 {
                assert((2 * p) * t <= set@ && 2 * p <= set@) by (nonlinear_arith)
                    requires
                        2 * t <= t0,
                        p * t0 <= set@,
                        t >= 1,
                ;
                p = 2 * p;
            } else {
                assert(extend_spec(s, t) == 0);
                assert(p * extend_spec(s, t) == 0) by (nonlinear_arith)
                    requires
                        extend_spec(s, t) == 0,
                ;
            }
        }
        BitSet { content }
    }

    /// The union of the entries of `sets` whose indices `self` selects.
    pub fn union_of_sets(&self, sets: &[BitSet]) -> (r: Self)
        requires
            self@ == 0 || highest(self@) < sets@.len(),
        ensures
            r@ == union_selected(self@, patterns(sets@), highest(self@) + 1),
    {
        let top = self.leftmost_element();
        let mut acc = BitSet::empty();
        let mut i: usize = 0;
        while i <= top
            invariant
                top == highest(self@),
                self@ == 0 || top < sets@.len(),
                top < 64,
                i <= top + 1,
                acc@ == union_selected(self@, patterns(sets@), i as nat),
            decreases top + 1 - i,
        {
            if self.contains_element(i) {
                let x = self.content;
                let b = i as u64;
                assert(x != 0) by (bit_vector)
                    requires
                        (x >> b) & 1 == 1,
                ;
                acc = acc.union(&sets[i]);
            }
            i = i + 1;
        }
        acc
    }
}

impl From<usize> for BitSet {
    fn from(content: usize) -> (r: Self) {
        BitSet { content: content as u64 }
    }
}

impl vstd::std_specs::convert::FromSpecImpl<usize> for BitSet {
    open spec fn obeys_from_spec() -> bool {
        true
    }

    open spec fn from_spec(v: usize) -> BitSet {
        BitSet { content: v as u64 }
    }
}

impl From<BitSet> for usize {
    fn from(s: BitSet) -> (r: Self) {
        s.content as usize
    }
}

impl vstd::std_specs::convert::FromSpecImpl<BitSet> for usize {
    open spec fn obeys_from_spec() -> bool {
        true
    }

    open spec fn from_spec(v: BitSet) -> usize {
        v.content as usize
    }
}

/// Inclusion order: `Less` for a proper subset, `Greater` for a proper
/// superset, no relation when neither contains the other.
pub open spec fn inclusion_cmp(a: u64, b: u64) -> Option<core::cmp::Ordering> {
    if a == b {
        Some(core::cmp::Ordering::Equal)
    } else if a & b == a {
        Some(core::cmp::Ordering::Less)
    } else if a & b == b {
        Some(core::cmp::Ordering::Greater)
    } else {
        None
    }
}

impl PartialOrd for BitSet {
    fn partial_cmp(&self, other: &Self) -> (r: Option<core::cmp::Ordering>) {
        if self.content == other.content {
            Some(core::cmp::Ordering::Equal)
        } else if self.content & other.content == self.content {
            Some(core::cmp::Ordering::Less)
        } else if self.content & other.content == other.content {
            Some(core::cmp::Ordering::Greater)
        } else {
            None
        }
    }
}

impl vstd::std_specs::cmp::PartialOrdSpecImpl for BitSet {
    open spec fn obeys_partial_cmp_spec() -> bool {
        true
    }

    open spec fn partial_cmp_spec(&self, other: &BitSet) -> Option<core::cmp::Ordering> {
        inclusion_cmp(self@, other@)
    }
}

/// How an enumerator compares a subset's size with its size limit.
#[derive(Debug, Clone, Copy, PartialEq, Eq, Structural)]
pub enum LimitPolicy {
    Less,
    LessEqual,
    Equal,
    GreaterEqual,
    Greater,
}

/// `size` stands in relation `policy` to `limit`.
pub open spec fn policy_holds(policy: LimitPolicy, size: nat, limit: nat) -> bool {
    match policy {
        LimitPolicy::Less => size < limit,
        LimitPolicy::LessEqual => size <= limit,
        LimitPolicy::Equal => size == limit,
        LimitPolicy::GreaterEqual => size >= limit,
        LimitPolicy::Greater => size > limit,
    }
}

/// Enumerates, in ascending numeric order, the subsets of `{0, .., n-1}`,
/// optionally only those whose size meets a limit under a policy.
pub struct SetIterator {
    current: u64,
    done: bool,
    n: usize,
    size_limit: Option<usize>,
    size_limit_policy: LimitPolicy,
}

impl SetIterator {
    /// Size of the ground set.
    pub closed spec fn ground(&self) -> nat {
        self.n as nat
    }

    /// The size limit, if one was set.
    pub closed spec fn limit(&self) -> Option<usize> {
        self.size_limit
    }

    /// `x` is one of the subsets this enumerator yields.
    pub closed spec fn accepts(&self, x: u64) -> bool {
        &&& within(x, self.n as nat)
        &&& match self.size_limit {
            None => true,
            Some(l) => policy_holds(self.size_limit_policy, popcount(x), l as nat),
        }
    }

    /// The subsets this enumerator yields, as a predicate.
    pub open spec fn accepted(&self) -> spec_fn(u64) -> bool {
        |x: u64| self.accepts(x)
    }

    /// Every subset below this value has been passed over.
    pub closed spec fn pos(&self) -> nat {
        if self.done {
            pow2(self.n as nat)
        } else {
            self.current as nat
        }
    }

    pub closed spec fn wf(&self) -> bool {
        &&& self.n <= 64
        &&& !self.done ==> within(self.current, self.n as nat)
        &&& (self.size_limit_policy == LimitPolicy::Equal && !self.done && self.current > 0
            && self.size_limit is Some) ==> popcount((self.current - 1) as u64)
            == self.size_limit->0
    }

    /// Number of yielded subsets from `lo` up to (not including) `hi`.
    pub open spec fn count_in(&self, lo: nat, hi: nat) -> nat
        decreases hi - lo,
    {
        if hi <= lo {
            0
        } else {
            self.count_in(lo, (hi - 1) as nat) + if (hi - 1) < 0x1_0000_0000_0000_0000
                && self.accepts((hi - 1) as u64) {
                1nat
            } else {
                0nat
            }
        }
    }

    /// An enumerator of all subsets of a ground set of `n` elements.
    pub fn new(n: usize) -> (r: Self)
        requires
            n <= 64,
        ensures
            r.wf(),
            r.ground() == n,
            r.pos() == 0,
            r.limit() is None,
            forall|x: u64| #[trigger] r.accepts(x) == within(x, n as nat),
    {
        proof {
            lemma_pow2_pos(n as nat);
        }
        SetIterator {
            current: 0,
            done: false,
            n,
            size_limit: None,
            size_limit_policy: LimitPolicy::Equal,
        }
    }

    /// Only subsets of exactly `size_limit` elements; another policy may follow.
    pub fn size_limit(self, size_limit: usize) -> (r: Self)
        requires
            self.wf(),
            self.pos() == 0,
        ensures
            r.wf(),
            r.ground() == self.ground(),
            r.pos() == 0,
            r.limit() == Some(size_limit),
            forall|x: u64| #[trigger]
                r.accepts(x) == (within(x, self.ground()) && popcount(x) == size_limit),
    {
        SetIterator {
            size_limit: Some(size_limit),
            size_limit_policy: LimitPolicy::Equal,
            ..self
        }
    }

    fn with_policy(self, policy: LimitPolicy) -> (r: Self)
        requires
            self.wf(),
            self.pos() == 0,
            self.limit() is Some,
        ensures
            r.wf(),
            r.ground() == self.ground(),
            r.pos() == 0,
            r.limit() == self.limit(),
            forall|x: u64| #[trigger]
                r.accepts(x) == (within(x, self.ground()) && policy_holds(
                    policy,
                    popcount(x),
                    self.limit()->0 as nat,
                )),
    {
        SetIterator { size_limit_policy: policy, ..self }
    }

    /// Subsets of exactly the size limit.
    pub fn equal(self) -> (r: Self)
        requires
            self.wf(),
            self.pos() == 0,
            self.limit() is Some,
        ensures
            r.wf(),
            r.ground() == self.ground(),
            r.pos() == 0,
            r.limit() == self.limit(),
            forall|x: u64| #[trigger]
                r.accepts(x) == (within(x, self.ground()) && popcount(x) == self.limit()->0),
    {
        self.with_policy(LimitPolicy::Equal)
    }

    /// Subsets of fewer elements than the size limit.
    pub fn smaller(self) -> (r: Self)
        requires
            self.wf(),
            self.pos() == 0,
            self.limit() is Some,
        ensures
            r.wf(),
            r.ground() == self.ground(),
            r.pos() == 0,
            r.limit() == self.limit(),
            forall|x: u64| #[trigger]
                r.accepts(x) == (within(x, self.ground()) && popcount(x) < self.limit()->0),
    {
        self.with_policy(LimitPolicy::Less)
    }

    /// Subsets of at most the size limit.
    pub fn smaller_equal(self) -> (r: Self)
        requires
            self.wf(),
            self.pos() == 0,
            self.limit() is Some,
        ensures
            r.wf(),
            r.ground() == self.ground(),
            r.pos() == 0,
            r.limit() == self.limit(),
            forall|x: u64| #[trigger]
                r.accepts(x) == (within(x, self.ground()) && popcount(x) <= self.limit()->0),
    {
        self.with_policy(LimitPolicy::LessEqual)
    }

    /// Subsets of more elements than the size limit.
    pub fn greater(self) -> (r: Self)
        requires
            self.wf(),
            self.pos() == 0,
            self.limit() is Some,
        ensures
            r.wf(),
            r.ground() == self.ground(),
            r.pos() == 0,
            r.limit() == self.limit(),
            forall|x: u64| #[trigger]
                r.accepts(x) == (within(x, self.ground()) && popcount(x) > self.limit()->0),
    {
        self.with_policy(LimitPolicy::Greater)
    }

    /// Subsets of at least the size limit.
    pub fn greater_equal(self) -> (r: Self)
        requires
            self.wf(),
            self.pos() == 0,
            self.limit() is Some,
        ensures
            r.wf(),
            r.ground() == self.ground(),
            r.pos() == 0,
            r.limit() == self.limit(),
            forall|x: u64| #[trigger]
                r.accepts(x) == (within(x, self.ground()) && popcount(x) >= self.limit()->0),
    {
        self.with_policy(LimitPolicy::GreaterEqual)
    }

    /// The size of `item` meets the limit (always, without one).
    fn satisfy_limit(&self, item: u64) -> (r: bool)
        ensures
            r == match self.size_limit {
                None => true,
                Some(l) => policy_holds(self.size_limit_policy, popcount(item), l as nat),
            },
    {
        let size = BitSet { content: item }.size();
        match self.size_limit {
            None => true,
            Some(l) => match self.size_limit_policy {
                LimitPolicy::Less => size < l,
                LimitPolicy::LessEqual => size <= l,
                LimitPolicy::Equal => size == l,
                LimitPolicy::GreaterEqual => size >= l,
                LimitPolicy::Greater => size > l,
            },
        }
    }
}

proof fn lemma_within_full(x: u64, n: nat)
    requires
        n <= 64,
    ensures
        within(x, n) <==> x <= full(n),
        (full(n) as nat) + 1 == pow2(n),
{
    lemma2_to64();
    lemma2_to64_rest();
    if n < 64 {
        lemma_u64_pow2_no_overflow(n);
    }
}

pub proof fn lemma_pop_zero(y: nat)
    ensures
        pop(y) == 0 <==> y == 0,
    decreases y,
{
    if y > 0 && y % 2 == 0 {
        lemma_pop_zero(y / 2);
    }
}

impl SetIterator {
    /// After `yielded`, move past it.
    fn advance_past(&mut self, yielded: u64, last: u64)
        requires
            old(self).n <= 64,
            last == full(old(self).n as nat),
            yielded <= last,
        ensures
            final(self).n == old(self).n,
            final(self).size_limit == old(self).size_limit,
            final(self).size_limit_policy == old(self).size_limit_policy,
            final(self).pos() == yielded + 1,
            !final(self).done ==> final(self).current == yielded + 1,
            !final(self).done ==> within(final(self).current, final(self).n as nat),
    {
        proof {
            lemma_within_full(yielded, self.n as nat);
            lemma_within_full((yielded + 1) as u64, self.n as nat);
        }
        if yielded == last {
            self.done = true;
        } else {
            self.done = false;
            self.current = yielded + 1;
        }
    }

    /// The next subset in ascending order, or `None` once all have been yielded.
    pub fn next(&mut self) -> (r: Option<BitSet>)
        requires
            old(self).wf(),
        ensures
            final(self).wf(),
            final(self).ground() == old(self).ground(),
            final(self).limit() == old(self).limit(),
            forall|x: u64| #[trigger] final(self).accepts(x) == old(self).accepts(x),
            match r {
                Some(s) => {
                    &&& old(self).pos() <= s@
                    &&& old(self).accepts(s@)
                    &&& forall|y: u64| old(self).pos() <= y < s@ ==> !#[trigger] old(self).accepts(y)
                    &&& final(self).pos() == s@ + 1
                },
                None => {
                    &&& forall|y: u64| old(self).pos() <= y ==> !#[trigger] old(self).accepts(y)
                    &&& final(self).pos() == pow2(old(self).ground())
                },
            },
    {
        if self.done {
            proof {
                assert forall|y: u64| old(self).pos() <= y implies !#[trigger] old(self).accepts(y) by {
                    lemma_within_full(y, self.n as nat);
                }
            }
            return None;
        }
        let last = BitSet::of_size(self.n).content;
        proof {
            lemma_within_full(self.current, self.n as nat);
        }
        match (self.size_limit, self.size_limit_policy) {
            (Some(limit), LimitPolicy::Equal) => self.next_of_size(limit, last),
            _ => {
                let mut c: u64 = self.current;
                while !self.satisfy_limit(c)
                    invariant
                        *self == *old(self),
                        !self.done,
                        last == full(self.n as nat),
                        self.current <= c <= last,
                        self.n <= 64,
                        forall|y: u64| self.current <= y < c ==> !#[trigger] self.accepts(y),
                    decreases last - c,
                {
                    if c == last {
                        self.done = true;
                        proof {
                            assert forall|y: u64| old(self).pos() <= y implies !#[trigger] old(self).accepts(y) by {
                                lemma_within_full(y, self.n as nat);
                            }
                        }
                        return None;
                    }
                    c = c + 1;
                }
                proof {
                    lemma_within_full(c, self.n as nat);
                }
                self.advance_past(c, last);
                Some(BitSet { content: c })
            },
        }
    }

    /// The next subset of exactly `limit` elements: the successor of the last
    /// one yielded moves the top bit of its lowest run of ones one place up and
    /// packs the rest of that run at the bottom.
    fn next_of_size(&mut self, limit: usize, last: u64) -> (r: Option<BitSet>)
        requires
            old(self).wf(),
            !old(self).done,
            old(self).size_limit == Some(limit),
            old(self).size_limit_policy == LimitPolicy::Equal,
            last == full(old(self).n as nat),
        ensures
            final(self).wf(),
            final(self).n == old(self).n,
            final(self).size_limit == old(self).size_limit,
            final(self).size_limit_policy == old(self).size_limit_policy,
            match r {
                Some(s) => {
                    &&& old(self).pos() <= s@
                    &&& old(self).accepts(s@)
                    &&& forall|y: u64| old(self).pos() <= y < s@ ==> !#[trigger] old(self).accepts(y)
                    &&& final(self).pos() == s@ + 1
                },
                None => {
                    &&& forall|y: u64| old(self).pos() <= y ==> !#[trigger] old(self).accepts(y)
                    &&& final(self).pos() == pow2(old(self).n as nat)
                },
            },
    {
        let n = self.n;
        if limit > n {
            self.done = true;
            proof {
                assert forall|y: u64| old(self).pos() <= y implies !#[trigger] old(self).accepts(y) by {
                    lemma_within_full(y, n as nat);
                    if within(y, n as nat) {
                        lemma_popcount_bound(y, n as nat);
                    }
                }
            }
            return None;
        }
        if self.current == 0 {
            let first = BitSet::of_size(limit).content;
            proof {
                lemma_within_full(first, n as nat);
                lemma_within_full(first, limit as nat);
                if limit < n {
                    lemma_pow2_strictly_increases(limit as nat, n as nat);
                }
                assert forall|y: u64| old(self).pos() <= y < first implies !#[trigger] old(
                    self,
                ).accepts(y) by {
                    lemma_pop_lower(y as nat);
                }
            }
            self.advance_past(first, last);
            return Some(BitSet { content: first });
        }
        let prev: u64 = self.current - 1;
        if limit == 0 {
            self.done = true;
            proof {
                assert forall|y: u64| old(self).pos() <= y implies !#[trigger] old(self).accepts(y) by {
                    lemma_pop_zero(y as nat);
                }
            }
            return None;
        }
        // prev = a * 2^(z+m) + (2^m - 1) * 2^z with `a` even
        proof {
            lemma_pop_zero(prev as nat);
            lemma2_to64();
        }
        let mut t: u64 = prev;
        let mut low: u64 = 1;
        let ghost mut z: nat = 0;
        while t % 2 == 0
            invariant
                t != 0,
                low == pow2(z),
                t * low == prev,
            decreases t,
        {
            proof {
                assert(2 * low <= t * low && (t / 2) * (2 * low) == t * low) by (nonlinear_arith)
                    requires
                        t >= 2,
                        t % 2 == 0,
                ;
                lemma_pow2_unfold(z + 1);
            }
            t = t / 2;
            low = low * 2;
            proof {
                z = z + 1;
            }
        }
        proof {
            lemma_pow2_pos(z);
        }
        let mut ones: u64 = 0;
        let mut packed: u64 = 0;
        let ghost mut m: nat = 0;
        while t % 2 == 1
            invariant
                low == pow2(z),
                low >= 1,
                ones + 1 == pow2(m),
                m >= 1 ==> packed + 1 == pow2((m - 1) as nat),
                m == 0 ==> t % 2 == 1,
                t * pow2(z + m) + ones * low == prev,
            decreases t,
        {
            proof {
                lemma_pow2_adds(z, m);
                lemma_pow2_unfold(m + 1);
                lemma_pow2_unfold(z + m + 1);
                let pzm = pow2(z + m);
                assert(pzm == low * (ones + 1));
                assert(t * pzm == (t / 2) * (2 * pzm) + pzm) by (nonlinear_arith)
                    requires
                        t % 2 == 1,
                ;
                assert(2 * ones + 1 <= prev) by (nonlinear_arith)
                    requires
                        t * pzm + ones * low == prev,
                        pzm == low * (ones + 1),
                        t >= 1,
                        low >= 1,
                ;
                assert((2 * ones + 1) * low == pzm + ones * low) by (nonlinear_arith)
                    requires
                        pzm == low * (ones + 1),
                ;
            }
            packed = ones;
            ones = 2 * ones + 1;
            t = t / 2;
            proof {
                m = m + 1;
            }
        }
        let ghost a = t as nat;
        let ghost y: nat = ((a + 1) * pow2(z + m) + pow2((m - 1) as nat) - 1) as nat;
        proof {
            lemma_pow2_adds(z, m);
            assert(ones * low + low == pow2(z + m)) by (nonlinear_arith)
                requires
                    ones + 1 == pow2(m),
                    pow2(z + m) == low * pow2(m),
            ;
            assert(prev == a * pow2(z + m) + (pow2(m) - 1) * pow2(z));
            lemma_successor(a, z, m, prev as nat, y);
            assert((a + 1) * pow2(z + m) == a * pow2(z + m) + pow2(z + m)) by (nonlinear_arith);
        }
        let next = match prev.checked_add(low) {
            Some(carried) => carried.checked_add(packed),
            None => None,
        };
        match next {
            Some(v) if v <= last => {
                proof {
                    lemma_within_full(v, n as nat);
                    assert forall|w: u64| old(self).pos() <= w < v implies !#[trigger] old(
                        self,
                    ).accepts(w) by {
                    }
                }
                self.advance_past(v, last);
                Some(BitSet { content: v })
            },
            _ => {
                self.done = true;
                proof {
                    assert forall|w: u64| old(self).pos() <= w implies !#[trigger] old(self).accepts(
                        w,
                    ) by {
                        lemma_within_full(w, n as nat);
                        lemma2_to64_rest();
                    }
                }
                None
            },
        }
    }
}

/// The values below `hi` (all of them 64-bit) that satisfy `p`, ascending.
pub open spec fn filter_below(hi: nat, p: spec_fn(u64) -> bool) -> Seq<u64>
    decreases hi,
{
    if hi == 0 || hi > 0x1_0000_0000_0000_0000 {
        Seq::empty()
    } else {
        let v = filter_below((hi - 1) as nat, p);
        if p((hi - 1) as u64) {
            v.push((hi - 1) as u64)
        } else {
            v
        }
    }
}

/// Skipping values that fail `p` adds nothing.
pub proof fn lemma_filter_skip(lo: nat, hi: nat, p: spec_fn(u64) -> bool)
    requires
        lo <= hi <= 0x1_0000_0000_0000_0000,
        forall|y: u64| lo <= y < hi ==> !#[trigger] p(y),
    ensures
        filter_below(hi, p) == filter_below(lo, p),
    decreases hi - lo,
{
    if lo < hi {
        assert(!p((hi - 1) as u64));
        lemma_filter_skip(lo, (hi - 1) as nat, p);
    }
}

/// Every listed value satisfies `p`, lies below `hi`, and the list ascends.
pub proof fn lemma_filter_facts(hi: nat, p: spec_fn(u64) -> bool)
    requires
        hi <= 0x1_0000_0000_0000_0000,
    ensures
        forall|i: int|
            #![trigger filter_below(hi, p)[i]]
            0 <= i < filter_below(hi, p).len() ==> p(filter_below(hi, p)[i]) && (filter_below(
                hi,
                p,
            )[i] as nat) < hi,
        forall|i: int, j: int|
            0 <= i < j < filter_below(hi, p).len() ==> filter_below(hi, p)[i] < filter_below(
                hi,
                p,
            )[j],
        forall|x: u64| (x as nat) < hi && #[trigger] p(x) ==> filter_below(hi, p).contains(x),
        filter_below(hi, p).len() <= hi,
    decreases hi,
{
    if hi > 0 {
        lemma_filter_facts((hi - 1) as nat, p);
        let v = filter_below((hi - 1) as nat, p);
        assert forall|x: u64| (x as nat) < hi && p(x) implies filter_below(hi, p).contains(x) by {
            if (x as nat) < hi - 1 {
                assert(v.contains(x));
                let i = choose|i: int| 0 <= i < v.len() && v[i] == x;
                if p((hi - 1) as u64) {
                    assert(filter_below(hi, p)[i] == x);
                }
            } else {
                assert(filter_below(hi, p)[v.len() as int] == x);
            }
        }
        let w = filter_below(hi, p);
        assert forall|i: int, j: int| 0 <= i < j < w.len() implies w[i] < w[j] by {
            if j == v.len() {
                assert(v[i] < hi - 1);
            }
        }
    }
}

impl SetIterator {
    /// Step of a loop that lists the yielded subsets satisfying `p`.
    pub proof fn lemma_step(
        &self,
        before: nat,
        s: Option<BitSet>,
        after: nat,
        p: spec_fn(u64) -> bool,
    )
        requires
            forall|y: u64| p(y) ==> #[trigger] self.accepts(y),
            before <= pow2(self.ground()),
            match s {
                Some(s) => {
                    &&& before <= s@
                    &&& self.accepts(s@)
                    &&& forall|y: u64| before <= y < s@ ==> !#[trigger] self.accepts(y)
                    &&& after == s@ + 1
                },
                None => {
                    &&& forall|y: u64| before <= y ==> !#[trigger] self.accepts(y)
                    &&& after == pow2(self.ground())
                },
            },
            self.ground() <= 64,
        ensures
            match s {
                Some(s) => filter_below(after, p) == if p(s@) {
                    filter_below(before, p).push(s@)
                } else {
                    filter_below(before, p)
                },
                None => filter_below(after, p) == filter_below(before, p),
            },
            before <= after <= pow2(self.ground()),
    {
        lemma2_to64();
        lemma2_to64_rest();
        if self.ground() < 64 {
            lemma_pow2_strictly_increases(self.ground(), 64);
        }
        match s {
            Some(v) => {
                assert forall|y: u64| before <= y < v@ implies !#[trigger] p(y) by {
                    assert(!self.accepts(y));
                }
                lemma_filter_skip(before, v@ as nat, p);
            },
            None => {
                assert forall|y: u64| before <= y < after implies !#[trigger] p(y) by {
                    assert(!self.accepts(y));
                }
                lemma_filter_skip(before, after, p);
            },
        }
    }

    /// The number of subsets still to come.
    pub fn count(self) -> (r: usize)
        requires
            self.wf(),
            filter_below(pow2(self.ground()), self.accepted()).len() <= usize::MAX,
        ensures
            r == filter_below(pow2(self.ground()), self.accepted()).len() - filter_below(
                self.pos(),
                self.accepted(),
            ).len(),
    {
        let ghost p = self.accepted();
        let ghost start = self.pos();
        let mut it = self;
        let mut c: usize = 0;
        proof {
            lemma2_to64();
            lemma2_to64_rest();
            if it.ground() < 64 {
                lemma_pow2_strictly_increases(it.ground(), 64);
            }
            lemma_filter_facts(pow2(it.ground()), p);
        }
        loop
            invariant
                it.wf(),
                p == self.accepted(),
                start == self.pos(),
                it.ground() == self.ground(),
                forall|x: u64| #[trigger] it.accepts(x) == self.accepts(x),
                start <= it.pos() <= pow2(it.ground()),
                pow2(it.ground()) <= 0x1_0000_0000_0000_0000,
                c + filter_below(start, p).len() == filter_below(it.pos(), p).len(),
                filter_below(pow2(self.ground()), p).len() <= usize::MAX,
            decreases pow2(it.ground()) - it.pos(),
        {
            let ghost before = it.pos();
            let s = it.next();
            proof {
                assert forall|y: u64| p(y) implies #[trigger] it.accepts(y) by {
                    assert(p(y) == self.accepts(y));
                }
                it.lemma_step(before, s, it.pos(), p);
            }
            match s {
                Some(_) => {
                    proof {
                        lemma_filter_monotone(it.pos(), pow2(it.ground()), p);
                    }
                    c = c + 1;
                },
                None => {
                    return c;
                },
            }
        }
    }
}

/// A longer range lists at least as many values.
pub proof fn lemma_filter_monotone(lo: nat, hi: nat, p: spec_fn(u64) -> bool)
    requires
        lo <= hi <= 0x1_0000_0000_0000_0000,
    ensures
        filter_below(lo, p).len() <= filter_below(hi, p).len(),
    decreases hi - lo,
{
    if lo < hi {
        lemma_filter_monotone(lo, (hi - 1) as nat, p);
    }
}

/// Two predicates that agree list the same values.
pub proof fn lemma_filter_congruent(hi: nat, p: spec_fn(u64) -> bool, q: spec_fn(u64) -> bool)
    requires
        forall|x: u64| #[trigger] p(x) == q(x),
    ensures
        filter_below(hi, p) == filter_below(hi, q),
    decreases hi,
{
    if hi > 0 {
        lemma_filter_congruent((hi - 1) as nat, p, q);
    }
}

impl SetIterator {
    /// Everything yielded lies in the ground set.
    pub proof fn lemma_accepts_within(&self)
        ensures
            forall|x: u64| #[trigger] self.accepts(x) ==> within(x, self.ground()),
    {
    }

    /// The position never passes `2^n`, and `2^n` fits the value range.
    pub proof fn lemma_pos_bound(&self)
        requires
            self.wf(),
        ensures
            self.ground() <= 64,
            self.pos() <= pow2(self.ground()),
            pow2(self.ground()) <= 0x1_0000_0000_0000_0000,
    {
        lemma2_to64();
        lemma2_to64_rest();
        if self.ground() < 64 {
            lemma_pow2_strictly_increases(self.ground(), 64);
        }
    }
}

impl BitSet {
    /// Every element of `self` belongs to `other`.
    pub fn is_subset_of(&self, other: &BitSet) -> (r: bool)
        ensures
            r == is_subset(self@, other@),
    {
        self.content & other.content == self.content
    }
}

/// A union of two subsets of the ground set lies in the ground set.
pub proof fn lemma_or_within(a: u64, b: u64, n: nat)
    requires
        within(a, n),
        within(b, n),
    ensures
        within(a | b, n),
{
    if n < 64 {
        lemma_within_and_full(a, n);
        lemma_within_and_full(b, n);
        let f = full(n);
        assert((a | b) <= f) by (bit_vector)
            requires
                a & f == a,
                b & f == b,
        ;
        lemma_u64_pow2_no_overflow(n);
    }
}

/// A union of selected subsets of the ground set lies in the ground set.
pub proof fn lemma_union_selected_within(sel: u64, sets: Seq<u64>, m: nat, n: nat)
    requires
        m <= sets.len(),
        forall|k: int| 0 <= k < m ==> within(#[trigger] sets[k], n),
    ensures
        within(union_selected(sel, sets, m), n),
    decreases m,
{
    lemma_pow2_pos(n);
    if m > 0 {
        lemma_union_selected_within(sel, sets, (m - 1) as nat, n);
        if has_bit(sel, (m - 1) as nat) {
            lemma_or_within(union_selected(sel, sets, (m - 1) as nat), sets[m - 1], n);
        }
    }
}

/// The highest element of a subset of `{0, .., m-1}` is below `m`.
pub proof fn lemma_highest_within(y: u64, m: nat)
    requires
        1 <= m <= 64,
        within(y, m),
    ensures
        highest(y) < m,
{
    lemma_highest_bound(y);
    if y > 0 && m < 64 {
        lemma_highest_pow2(y);
        if highest(y) >= m {
            if highest(y) > m {
                lemma_pow2_strictly_increases(m, highest(y));
            }
        }
    }
}

/// The elements of a pattern whose bits from position `i` up are those of
/// `x`, ascending.
pub open spec fn elements_from(x: u64, i: nat) -> Seq<usize>
    decreases x,
{
    if x == 0 {
        Seq::empty()
    } else {
        let rest = elements_from(x / 2, i + 1);
        if x % 2 == 1 {
            seq![i as usize].add(rest)
        } else {
            rest
        }
    }
}

/// The pattern with exactly the listed elements.
pub open spec fn pattern_of(elements: Seq<usize>) -> u64
    decreases elements.len(),
{
    if elements.len() == 0 {
        0
    } else {
        pattern_of(elements.drop_last()) | (1u64 << elements.last() as u64)
    }
}

impl BitSet {
    /// The elements of the set, in ascending order.
    pub fn elements(&self) -> (r: Vec<usize>)
        ensures
            r@ == elements_from(self@, 0),
    {
        let mut content = self.content;
        let mut result: Vec<usize> = Vec::new();
        let mut i: usize = 0;
        proof {
            lemma2_to64_rest();
        }
        while content > 0
            invariant
                result@ + elements_from(content, i as nat) == elements_from(self@, 0),
                i <= 64,
                content == 0 || (content as nat) < pow2((64 - i) as nat),
            decreases content,
        {
            proof {
                if i == 64 {
                    lemma2_to64();
                }
                lemma_pow2_unfold((64 - i) as nat);
            }
            let ghost before = result@;
            if content % 2 == 1 {
                result.push(i);
                proof {
                    assert(before + elements_from(content, i as nat) =~= result@ + elements_from(
                        content / 2,
                        (i + 1) as nat,
                    ));
                }
            }
            content = content / 2;
            i = i + 1;
        }
        proof {
            assert(result@ + Seq::<usize>::empty() =~= result@);
        }
        result
    }

    /// The set of the listed elements.
    pub fn from_elements(elements: &[usize]) -> (r: Self)
        requires
            forall|k: int| 0 <= k < elements@.len() ==> #[trigger] elements@[k] < 64,
        ensures
            r@ == pattern_of(elements@),
    {
        let mut content: u64 = 0;
        let mut k: usize = 0;
        while k < elements.len()
            invariant
                k <= elements@.len(),
                forall|m: int| 0 <= m < elements@.len() ==> #[trigger] elements@[m] < 64,
                content == pattern_of(elements@.take(k as int)),
            decreases elements.len() - k,
        {
            proof {
                assert(elements@.take(k + 1).drop_last() =~= elements@.take(k as int));
            }
            content = content | (1u64 << (elements[k] as u64));
            k = k + 1;
        }
        proof {
            assert(elements@.take(k as int) =~= elements@);
        }
        BitSet { content }
    }
}

} // verus!
