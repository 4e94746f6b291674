//! The combinatorial derived matroid: a matroid on the circuits of a source
//! matroid, built by a closed form for uniform and tiny sources and by an
//! iterative pairwise closure ("epsilon") otherwise.
use crate::bits::{has_bit, highest, is_subset, lemma_popcount_le_64, pop, popcount, within};
use crate::matroid::bases_matroid::{bases_fit, lemma_max_meet, max_meet};
use crate::matroid::{
    bases_of, binom, circuit_pred, circuits_of, nullity_of, without, BasesMatroid, Matroid,
    RankModel,
};
use crate::set::{
    extend_spec, filter_below, lemma_filter_skip, lemma_highest_within,
    lemma_union_selected_within, patterns, union_selected, BitSet, SetIterator,
};
use vstd::arithmetic::power2::*;
use dashmap::DashSet;
use vstd::prelude::*;

verus! {

#[verifier::external_type_specification]
#[verifier::external_body]
#[verifier::reject_recursive_types(K)]
#[verifier::reject_recursive_types(S)]
pub struct ExDashSet<K, S>(DashSet<K, S>);

/// What a concurrent set of patterns holds.
pub uninterp spec fn dash_contents(s: DashSet<u64>) -> Set<u64>;

/// Relies on dashmap::DashSet::new: a new set is empty.
#[verifier::external_body]
fn dash_new() -> (r: DashSet<u64>)
    ensures
        dash_contents(r) == Set::<u64>::empty(),
{
    DashSet::new()
}

/// Relies on dashmap::DashSet::insert: afterwards the set also holds `key`.
#[verifier::external_body]
fn dash_insert(s: &mut DashSet<u64>, key: u64)
    ensures
        dash_contents(*final(s)) == dash_contents(*old(s)).insert(key),
{
    s.insert(key);
}

/// Relies on dashmap::DashSet's owning iterator: it hands out every element
/// exactly once, in no particular order.
#[verifier::external_body]
fn dash_into_vec(s: DashSet<u64>) -> (r: Vec<u64>)
    ensures
        r@.to_set() == dash_contents(s),
        r@.no_duplicates(),
{
    s.into_iter().collect()
}

/// `(A ∪ B) \ {e}` for the `c`-th element `e` of `A ∩ B`.
pub open spec fn merged(a: u64, b: u64, c: nat) -> u64 {
    (a | b) & !(extend_spec(1u64 << (c as u64), a & b) as u64)
}

/// The pair `(deps[i], deps[j])` is combined: its merge is small enough and
/// `A ∩ B` is new (size 1 or 2, or size at least 3 and containing no known
/// dependent set).
pub open spec fn pair_ok(deps: Seq<u64>, i: int, j: int, rank: nat) -> bool {
    let a = deps[i];
    let b = deps[j];
    let t = a & b;
    &&& popcount(a) + popcount(b) - popcount(t) - 1 <= rank
    &&& (0 < popcount(t) < 3 || (popcount(t) >= 3 && !exists|k: int|
        0 <= k < deps.len() && #[trigger] is_subset(deps[k], t)))
}

/// `x` comes from the pair `(i, j)` and its `c`-th common element.
pub open spec fn from_pair(deps: Seq<u64>, rank: nat, i: int, j: int, c: nat, x: u64) -> bool {
    &&& 0 <= i < j < deps.len()
    &&& pair_ok(deps, i, j, rank)
    &&& c < popcount(deps[i] & deps[j])
    &&& x == merged(deps[i], deps[j], c)
    &&& popcount(x) <= rank
}

/// `(a, b, d)` comes before `(i, j, c)` in the order of the closure loop.
pub open spec fn before(a: int, b: int, d: nat, i: int, j: int, c: nat) -> bool {
    a < i || (a == i && b < j) || (a == i && b == j && d < c)
}

/// What the closure has collected once it reached `(i, j, c)`, with the
/// first `kept` dependent sets retained.
pub open spec fn collected(
    deps: Seq<u64>,
    rank: nat,
    kept: int,
    i: int,
    j: int,
    c: nat,
    x: u64,
) -> bool {
    ||| exists|k: int| 0 <= k < kept && #[trigger] deps[k] == x
    ||| exists|a: int, b: int, d: nat|
        #![trigger from_pair(deps, rank, a, b, d, x)]
        before(a, b, d, i, j, c) && from_pair(deps, rank, a, b, d, x)
}

/// One round of the closure: every dependent set, and every merge of a
/// combined pair that has at most `rank` elements.
pub open spec fn epsilon_member(deps: Seq<u64>, rank: nat, x: u64) -> bool {
    ||| deps.contains(x)
    ||| exists|a: int, b: int, d: nat| #[trigger] from_pair(deps, rank, a, b, d, x)
}

proof fn lemma_collected_keep(deps: Seq<u64>, rank: nat, i: int)
    requires
        0 <= i < deps.len(),
    ensures
        forall|x: u64|
            #[trigger] collected(deps, rank, i + 1, i, i + 1, 0, x) <==> (collected(
                deps,
                rank,
                i,
                i,
                i + 1,
                0,
                x,
            ) || x == deps[i]),
{
    assert forall|x: u64| #[trigger] collected(deps, rank, i + 1, i, i + 1, 0, x) implies (
    collected(deps, rank, i, i, i + 1, 0, x) || x == deps[i]) by {
        if exists|k: int| 0 <= k < i + 1 && #[trigger] deps[k] == x {
            let k = choose|k: int| 0 <= k < i + 1 && #[trigger] deps[k] == x;
            if k < i {
                assert(deps[k] == x);
            }
        }
    }
    assert forall|x: u64|
        collected(deps, rank, i, i, i + 1, 0, x) || x == deps[i] implies #[trigger] collected(
        deps,
        rank,
        i + 1,
        i,
        i + 1,
        0,
        x,
    ) by {
        if x == deps[i] {
            assert(deps[i] == x);
        } else if exists|k: int| 0 <= k < i && #[trigger] deps[k] == x {
            let k = choose|k: int| 0 <= k < i && #[trigger] deps[k] == x;
            assert(deps[k] == x);
        }
    }
}

proof fn lemma_collected_step(deps: Seq<u64>, rank: nat, i: int, i1: int, j: int, c: nat, c1: nat)
    requires
        i1 == i + 1,
        c1 == c + 1,
    ensures
        forall|x: u64|
            #[trigger] collected(deps, rank, i1, i, j, c1, x) <==> (collected(
                deps,
                rank,
                i1,
                i,
                j,
                c,
                x,
            ) || from_pair(deps, rank, i, j, c, x)),
{
    assert forall|x: u64| #[trigger] collected(deps, rank, i1, i, j, c1, x) implies (
    collected(deps, rank, i1, i, j, c, x) || from_pair(deps, rank, i, j, c, x)) by {
        if exists|a: int, b: int, d: nat|
            #![trigger from_pair(deps, rank, a, b, d, x)]
            before(a, b, d, i, j, c + 1) && from_pair(deps, rank, a, b, d, x) {
            let (a, b, d) = choose|a: int, b: int, d: nat|
                #![trigger from_pair(deps, rank, a, b, d, x)]
                before(a, b, d, i, j, c + 1) && from_pair(deps, rank, a, b, d, x);
            if before(a, b, d, i, j, c) {
            } else {
                assert(a == i && b == j && d == c);
            }
        }
    }
}

proof fn lemma_collected_pair_done(deps: Seq<u64>, rank: nat, i: int, i1: int, j: int, j1: int, c: nat)
    requires
        i1 == i + 1,
        j1 == j + 1,
        forall|d: nat| c <= d ==> !#[trigger] from_pair(deps, rank, i, j, d, merged(deps[i], deps[j], d)),
    ensures
        forall|x: u64|
            #[trigger] collected(deps, rank, i1, i, j1, 0, x) <==> collected(
                deps,
                rank,
                i1,
                i,
                j,
                c,
                x,
            ),
{
    assert forall|x: u64| #[trigger] collected(deps, rank, i1, i, j1, 0, x) implies collected(
        deps,
        rank,
        i1,
        i,
        j,
        c,
        x,
    ) by {
        if exists|a: int, b: int, d: nat|
            #![trigger from_pair(deps, rank, a, b, d, x)]
            before(a, b, d, i, j + 1, 0) && from_pair(deps, rank, a, b, d, x) {
            let (a, b, d) = choose|a: int, b: int, d: nat|
                #![trigger from_pair(deps, rank, a, b, d, x)]
                before(a, b, d, i, j + 1, 0) && from_pair(deps, rank, a, b, d, x);
            if a == i && b == j && d >= c {
                assert(!from_pair(deps, rank, i, j, d, merged(deps[i], deps[j], d)));
            }
            assert(before(a, b, d, i, j, c));
        }
    }
}

proof fn lemma_collected_row_done(deps: Seq<u64>, rank: nat, i: int, i1: int, i2: int)
    requires
        0 <= i,
        i + 1 < deps.len(),
        i1 == i + 1,
        i2 == i + 2,
    ensures
        forall|x: u64|
            #[trigger] collected(deps, rank, i1, i1, i2, 0, x) <==> collected(
                deps,
                rank,
                i1,
                i,
                deps.len() as int,
                0,
                x,
            ),
{
    assert forall|x: u64| #[trigger] collected(deps, rank, i1, i1, i2, 0, x) implies collected(
        deps,
        rank,
        i1,
        i,
        deps.len() as int,
        0,
        x,
    ) by {
        if exists|a: int, b: int, d: nat|
            #![trigger from_pair(deps, rank, a, b, d, x)]
            before(a, b, d, i1, i2, 0) && from_pair(deps, rank, a, b, d, x) {
            let (a, b, d) = choose|a: int, b: int, d: nat|
                #![trigger from_pair(deps, rank, a, b, d, x)]
                before(a, b, d, i1, i2, 0) && from_pair(deps, rank, a, b, d, x);
            assert(before(a, b, d, i, deps.len() as int, 0));
        }
    }
}

proof fn lemma_collected_final(deps: Seq<u64>, rank: nat)
    requires
        deps.len() >= 1,
    ensures
        forall|x: u64|
            #[trigger] epsilon_member(deps, rank, x) <==> (collected(
                deps,
                rank,
                deps.len() - 1,
                deps.len() - 1,
                deps.len() as int,
                0,
                x,
            ) || x == deps[deps.len() - 1]),
{
    let n = deps.len() as int;
    assert forall|x: u64| #[trigger] epsilon_member(deps, rank, x) implies (collected(
        deps,
        rank,
        n - 1,
        n - 1,
        n,
        0,
        x,
    ) || x == deps[n - 1]) by {
        if deps.contains(x) {
            let k = choose|k: int| 0 <= k < n && deps[k] == x;
            if k < n - 1 {
                assert(deps[k] == x);
            }
        } else {
            let (a, b, d) = choose|a: int, b: int, d: nat| #[trigger]
                from_pair(deps, rank, a, b, d, x);
            assert(before(a, b, d, n - 1, n, 0));
        }
    }
    assert forall|x: u64|
        (collected(deps, rank, n - 1, n - 1, n, 0, x) || x == deps[n - 1]) implies #[trigger]
        epsilon_member(deps, rank, x) by {
        if x == deps[n - 1] {
            assert(deps[n - 1] == x);
        } else if exists|k: int| 0 <= k < n - 1 && #[trigger] deps[k] == x {
            let k = choose|k: int| 0 <= k < n - 1 && #[trigger] deps[k] == x;
            assert(deps[k] == x);
        }
    }
}

/// No known dependent set lies inside `t`.
fn contains_no_dependent(dependents: &[BitSet], t: &BitSet) -> (r: bool)
    ensures
        r == !exists|k: int| 0 <= k < dependents@.len() && #[trigger] is_subset(
            patterns(dependents@)[k],
            t@,
        ),
{
    let mut k: usize = 0;
    while k < dependents.len()
        invariant
            k <= dependents@.len(),
            forall|m: int| 0 <= m < k ==> !#[trigger] is_subset(patterns(dependents@)[m], t@),
        decreases dependents.len() - k,
    {
        assert(patterns(dependents@)[k as int] == dependents@[k as int]@);
        if dependents[k].is_subset_of(t) {
            return false;
        }
        k = k + 1;
    }
    true
}

/// One round of the closure (the epsilon operation) on a family of dependent
/// sets, duplicate-free, in no particular order.
pub fn epsilon(dependents: &[BitSet], rank: usize) -> (r: Vec<BitSet>)
    ensures
        forall|x: u64|
            patterns(r@).contains(x) <==> #[trigger] epsilon_member(
                patterns(dependents@),
                rank as nat,
                x,
            ),
        patterns(r@).no_duplicates(),
{
    let ghost deps = patterns(dependents@);
    let len = dependents.len();
    if len == 0 {
        let r: Vec<BitSet> = Vec::new();
        proof {
            assert(patterns(r@) =~= Seq::<u64>::empty());
        }
        return r;
    }
    let mut set = dash_new();
    let mut i: usize = 0;
    while i + 1 < len
        invariant
            deps == patterns(dependents@),
            len == deps.len(),
            len >= 1,
            i + 1 <= len,
            forall|x: u64|
                dash_contents(set).contains(x) <==> #[trigger] collected(
                    deps,
                    rank as nat,
                    i as int,
                    i as int,
                    i + 1,
                    0,
                    x,
                ),
        decreases len - i,
    {
        let a = dependents[i];
        assert(deps[i as int] == a@);
        dash_insert(&mut set, a.content);
        proof {
            lemma_collected_keep(deps, rank as nat, i as int);
        }
        let mut j: usize = i + 1;
        while j < len
            invariant
                deps == patterns(dependents@),
                len == deps.len(),
                i + 1 < len,
                i < j <= len,
                a@ == deps[i as int],
                forall|x: u64|
                    dash_contents(set).contains(x) <==> #[trigger] collected(
                        deps,
                        rank as nat,
                        i + 1,
                        i as int,
                        j as int,
                        0,
                        x,
                    ),
            decreases len - j,
        {
            let b = dependents[j];
            assert(deps[j as int] == b@);
            let t = a.intersect(&b);
            let ts = t.size();
            let sa = a.size();
            let sb = b.size();
            proof {
                crate::bits::lemma_popcount_and_le(a@, b@);
            }
            let span = sa + sb - ts;
            let combine = (span == 0 || span - 1 <= rank) && ((0 < ts && ts < 3) || (ts >= 3
                && contains_no_dependent(dependents, &t)));
            let mut c: usize = 0;
            if combine {
                let whole = a.union(&b);
                while c < ts
                    invariant
                        deps == patterns(dependents@),
                        len == deps.len(),
                        i < j < len,
                        a@ == deps[i as int],
                        b@ == deps[j as int],
                        t@ == a@ & b@,
                        ts == popcount(t@),
                        whole@ == a@ | b@,
                        pair_ok(deps, i as int, j as int, rank as nat),
                        c <= ts,
                        forall|x: u64|
                            dash_contents(set).contains(x) <==> #[trigger] collected(
                                deps,
                                rank as nat,
                                i + 1,
                                i as int,
                                j as int,
                                c as nat,
                                x,
                            ),
                    decreases ts - c,
                {
                    proof {
                        crate::bits::lemma_popcount_le_64(t@);
                    }
                    let elem = BitSet { content: 1u64 << (c as u64) }.extend(&t);
                    let x = whole.difference(&elem);
                    proof {
                        crate::set::lemma_extend_bound(1u64 << (c as u64), t@);
                        assert(x@ == merged(deps[i as int], deps[j as int], c as nat));
                    }
                    if x.size() <= rank {
                        dash_insert(&mut set, x.content);
                    }
                    let ghost c0 = c;
                    c = c + 1;
                    proof {
                        lemma_collected_step(
                            deps,
                            rank as nat,
                            i as int,
                            i + 1,
                            j as int,
                            c0 as nat,
                            c as nat,
                        );
                    }
                }
            }
            proof {
                assert forall|d: nat| c <= d implies !#[trigger] from_pair(
                    deps,
                    rank as nat,
                    i as int,
                    j as int,
                    d,
                    merged(deps[i as int], deps[j as int], d),
                ) by {}
            }
            let ghost j0 = j;
            j = j + 1;
            proof {
                lemma_collected_pair_done(
                    deps,
                    rank as nat,
                    i as int,
                    i + 1,
                    j0 as int,
                    j as int,
                    c as nat,
                );
            }
        }
        let ghost i0 = i;
        i = i + 1;
        proof {
            lemma_collected_row_done(deps, rank as nat, i0 as int, i as int, i + 1);
        }
    }
    let last = dependents[len - 1];
    assert(deps[len - 1] == last@);
    dash_insert(&mut set, last.content);
    proof {
        lemma_collected_final(deps, rank as nat);
    }
    let found = dash_into_vec(set);
    let mut r: Vec<BitSet> = Vec::new();
    let mut m: usize = 0;
    while m < found.len()
        invariant
            m <= found@.len(),
            r@.len() == m,
            patterns(r@) == found@.take(m as int),
        decreases found.len() - m,
    {
        r.push(BitSet { content: found[m] });
        proof {
            assert(r@[m as int]@ == found@[m as int]);
            assert(patterns(r@) =~= found@.take(m + 1));
        }
        m = m + 1;
    }
    proof {
        assert(found@.take(m as int) =~= found@);
        assert forall|x: u64| patterns(r@).contains(x) <==> #[trigger] epsilon_member(
            deps,
            rank as nat,
            x,
        ) by {
            assert(found@.to_set().contains(x) == found@.contains(x));
        }
    }
    r
}

/// `s` is kept by the minimality filter of `all`: it has three elements, or no
/// other member of `all` lies inside it.
pub open spec fn minimal_in(all: Seq<u64>, s: u64) -> bool {
    popcount(s) == 3 || !exists|k: int| 0 <= k < all.len() && all[k] != s && #[trigger] is_subset(all[k], s)
}

/// The inclusion-minimal members of a family, in their order (members of three
/// elements are minimal by construction and kept as they are).
pub fn inclusion_minimal(subsets: &[BitSet]) -> (r: Vec<BitSet>)
    ensures
        patterns(r@) == patterns(subsets@).filter(|s: u64| minimal_in(patterns(subsets@), s)),
{
    let ghost all = patterns(subsets@);
    let ghost p = |s: u64| minimal_in(all, s);
    let mut r: Vec<BitSet> = Vec::new();
    let mut i: usize = 0;
    proof {
        reveal(Seq::filter);
        assert(patterns(r@) =~= all.take(0).filter(p));
    }
    while i < subsets.len()
        invariant
            all == patterns(subsets@),
            p == (|s: u64| minimal_in(all, s)),
            i <= subsets@.len(),
            patterns(r@) == all.take(i as int).filter(p),
        decreases subsets.len() - i,
    {
        let s = subsets[i];
        assert(all[i as int] == s@);
        let mut keep = s.size() == 3;
        if !keep {
            let mut k: usize = 0;
            keep = true;
            while k < subsets.len()
                invariant
                    all == patterns(subsets@),
                    s@ == all[i as int],
                    k <= subsets@.len(),
                    keep == !exists|m: int| 0 <= m < k && all[m] != s@ && #[trigger] is_subset(all[m], s@),
                decreases subsets.len() - k,
            {
                assert(all[k as int] == subsets@[k as int]@);
                if subsets[k].content != s.content && subsets[k].is_subset_of(&s) {
                    keep = false;
                }
                k = k + 1;
            }
        }
        if keep {
            r.push(s);
        }
        proof {
            reveal(Seq::filter);
            assert(all.take(i + 1).drop_last() =~= all.take(i as int));
            assert(all.take(i + 1).last() == s@);
            assert(patterns(r@) =~= all.take(i + 1).filter(p));
        }
        i = i + 1;
    }
    proof {
        assert(all.take(i as int) =~= all);
    }
    r
}

/// Subsets of `rank` elements of `{0, .., m-1}` that contain no member of
/// `deps`.
pub open spec fn free_pred(deps: Seq<u64>, m: nat, rank: nat) -> spec_fn(u64) -> bool {
    |x: u64|
        within(x, m) && popcount(x) == rank && !exists|k: int|
            0 <= k < deps.len() && #[trigger] is_subset(deps[k], x)
}

/// The subsets of `rank` elements of `{0, .., num_points-1}` containing no
/// dependent set: the bases with respect to a family of dependent sets.
pub fn bases_from_dependents(dependents: &[BitSet], num_points: usize, rank: usize) -> (r: Vec<
    BitSet,
>)
    requires
        num_points <= 64,
    ensures
        patterns(r@) == filter_below(
            pow2(num_points as nat),
            free_pred(patterns(dependents@), num_points as nat, rank as nat),
        ),
{
    let ghost p = free_pred(patterns(dependents@), num_points as nat, rank as nat);
    let mut it = SetIterator::new(num_points).size_limit(rank).equal();
    let mut bases: Vec<BitSet> = Vec::new();
    proof {
        it.lemma_pos_bound();
        assert(patterns(bases@) =~= filter_below(0, p));
    }
    loop
        invariant
            p == free_pred(patterns(dependents@), num_points as nat, rank as nat),
            it.wf(),
            it.ground() == num_points,
            forall|x: u64| #[trigger]
                it.accepts(x) == (within(x, num_points as nat) && popcount(x) == rank),
            patterns(bases@) == filter_below(it.pos(), p),
        ensures
            patterns(bases@) == filter_below(pow2(num_points as nat), p),
        decreases pow2(it.ground()) - it.pos(),
    {
        let ghost before = it.pos();
        proof {
            it.lemma_pos_bound();
        }
        let s = it.next();
        proof {
            assert forall|y: u64| p(y) implies #[trigger] it.accepts(y) by {}
            it.lemma_step(before, s, it.pos(), p);
        }
        match s {
            Some(s) => {
                if contains_no_dependent(dependents, &s) {
                    bases.push(s);
                }
                proof {
                    assert(patterns(bases@) =~= filter_below(it.pos(), p));
                }
            },
            None => {
                break;
            },
        }
    }
    bases
}

/// Index subsets of `size` elements whose circuits' union has nullity below
/// `size`: genuinely dependent selections.
pub open spec fn initial_pred(m: RankModel, points: Seq<u64>, size: nat) -> spec_fn(u64) -> bool {
    |x: u64|
        within(x, points.len()) && popcount(x) == size && popcount(x) > nullity_of(
            m,
            union_selected(x, points, highest(x) + 1),
        )
}

/// The initial dependent index subsets of sizes `3..=upper`, by ascending size.
pub open spec fn initial_dependents(m: RankModel, points: Seq<u64>, upper: nat) -> Seq<u64>
    decreases upper,
{
    if upper < 3 {
        Seq::empty()
    } else {
        initial_dependents(m, points, (upper - 1) as nat) + filter_below(
            pow2(points.len()),
            initial_pred(m, points, upper),
        )
    }
}

proof fn lemma_initial_beyond_64(m: RankModel, points: Seq<u64>, upper: nat)
    requires
        upper >= 64,
        points.len() <= 64,
    ensures
        initial_dependents(m, points, upper) == initial_dependents(m, points, 64),
    decreases upper,
{
    if upper > 64 {
        lemma_initial_beyond_64(m, points, (upper - 1) as nat);
        let p = initial_pred(m, points, upper);
        assert forall|y: u64| 0 <= y < pow2(points.len()) implies !#[trigger] p(y) by {
            lemma_popcount_le_64(y);
        }
        lemma2_to64();
        lemma2_to64_rest();
        if points.len() < 64 {
            lemma_pow2_strictly_increases(points.len(), 64);
        }
        lemma_filter_skip(0, pow2(points.len()), p);
        assert(initial_dependents(m, points, upper) =~= initial_dependents(m, points, (upper - 1) as nat));
    }
}

/// All circuits lie in the ground set of `m`.
pub open spec fn all_within(points: Seq<u64>, n: nat) -> bool {
    forall|k: int| 0 <= k < points.len() ==> within(#[trigger] points[k], n)
}

/// The index subsets of sizes `3..=upper_derived_rank` of `points` (circuits of
/// `matroid`) whose circuits' union has nullity below their size.
pub fn initial_dependents_support_limit<M: Matroid>(
    matroid: &M,
    points: &[BitSet],
    upper_derived_rank: usize,
) -> (r: Vec<BitSet>)
    requires
        matroid.inv(),
        points@.len() <= 64,
        all_within(patterns(points@), matroid.model().n),
    ensures
        patterns(r@) == initial_dependents(
            matroid.model(),
            patterns(points@),
            upper_derived_rank as nat,
        ),
{
    let ghost pts = patterns(points@);
    let ghost mm = matroid.model();
    let top = if upper_derived_rank > 64 {
        64
    } else {
        upper_derived_rank
    };
    let np = points.len();
    let mut res: Vec<BitSet> = Vec::new();
    let mut subset_size: usize = 3;
    proof {
        assert(patterns(res@) =~= initial_dependents(mm, pts, 2));
    }
    while subset_size <= top
        invariant
            matroid.inv(),
            mm == matroid.model(),
            pts == patterns(points@),
            np == pts.len(),
            np <= 64,
            all_within(pts, mm.n),
            top <= 64,
            3 <= subset_size <= top + 1 || (subset_size == 3 && top < 3),
            patterns(res@) == initial_dependents(mm, pts, (subset_size - 1) as nat),
        decreases top + 1 - subset_size,
    {
        let ghost p = initial_pred(mm, pts, subset_size as nat);
        let mut it = SetIterator::new(np).size_limit(subset_size).equal();
        let mut found: Vec<BitSet> = Vec::new();
        proof {
            it.lemma_pos_bound();
            assert(patterns(found@) =~= filter_below(0, p));
        }
        loop
            invariant
                matroid.inv(),
                mm == matroid.model(),
                pts == patterns(points@),
                np == pts.len(),
                np <= 64,
                all_within(pts, mm.n),
                p == initial_pred(mm, pts, subset_size as nat),
                subset_size >= 3,
                it.wf(),
                it.ground() == np,
                forall|x: u64| #[trigger]
                    it.accepts(x) == (within(x, np as nat) && popcount(x) == subset_size),
                patterns(found@) == filter_below(it.pos(), p),
            ensures
                patterns(found@) == filter_below(pow2(np as nat), p),
            decreases pow2(it.ground()) - it.pos(),
        {
            let ghost before = it.pos();
            proof {
                it.lemma_pos_bound();
            }
            let s = it.next();
            proof {
                assert forall|y: u64| p(y) implies #[trigger] it.accepts(y) by {}
                it.lemma_step(before, s, it.pos(), p);
                it.lemma_accepts_within();
            }
            match s {
                Some(s) => {
                    proof {
                        assert(within(s@, np as nat) && popcount(s@) == subset_size);
                        if np == 0 {
                            lemma2_to64();
                            assert(s@ == 0);
                            assert(popcount(s@) == 0);
                        }
                        lemma_highest_within(s@, np as nat);
                        lemma_union_selected_within(s@, pts, highest(s@) + 1, mm.n);
                    }
                    let circuit_union = s.union_of_sets(points);
                    if s.size() > matroid.nullity(&circuit_union) {
                        found.push(s);
                    }
                    proof {
                        assert(patterns(found@) =~= filter_below(it.pos(), p));
                    }
                },
                None => {
                    break;
                },
            }
        }
        res.append(&mut found);
        proof {
            assert(patterns(res@) =~= initial_dependents(mm, pts, subset_size as nat));
        }
        subset_size = subset_size + 1;
    }
    proof {
        if upper_derived_rank > 64 {
            lemma_initial_beyond_64(mm, pts, upper_derived_rank as nat);
        }
    }
    res
}

/// Every selection of at least three of the circuits that `x` picks has a
/// union of nullity at least its own size.
pub open spec fn fast_pred(m: RankModel, circuits: Seq<u64>, rank: nat) -> spec_fn(u64) -> bool {
    |x: u64|
        within(x, circuits.len()) && popcount(x) == rank && forall|s: u64|
            within(s, popcount(x)) && popcount(s) >= 3 ==> nullity_of(
                m,
                union_selected(
                    extend_spec(s, x) as u64,
                    circuits,
                    highest(extend_spec(s, x) as u64) + 1,
                ),
            ) >= popcount(#[trigger] extend_spec(s, x) as u64)
}

/// The rank of the derived matroid: a set of fewer than three circuits is
/// independent; otherwise the basis-table rank.
pub open spec fn derived_rank(bases: Seq<u64>) -> spec_fn(u64) -> nat {
    |x: u64|
        if popcount(x) < 3 {
            popcount(x)
        } else {
            max_meet(bases, x)
        }
}

/// The combinatorial derived matroid: its ground set is the list of circuits
/// of a source matroid, index `i` standing for circuit `i`.
#[derive(Debug)]
pub struct CombinatorialDerived {
    rank: usize,
    elements: Vec<BitSet>,
    bases: Vec<BitSet>,
}

impl CombinatorialDerived {
    /// The circuits of the source, the ground set of this matroid.
    pub closed spec fn spec_elements(&self) -> Seq<u64> {
        patterns(self.elements@)
    }

    /// The bases.
    pub closed spec fn spec_bases(&self) -> Seq<u64> {
        patterns(self.bases@)
    }

    /// The rank.
    pub closed spec fn spec_rank(&self) -> nat {
        self.rank as nat
    }

    /// At most 64 circuits; every base picks `rank` of them.
    pub closed spec fn wf(&self) -> bool {
        &&& self.elements@.len() <= 64
        &&& self.rank <= self.elements@.len()
        &&& bases_fit(patterns(self.bases@), self.elements@.len() as nat, self.rank as nat)
    }

    /// What a `CombinatorialDerived` stands for.
    pub proof fn lemma_model(&self)
        ensures
            self.model() == (RankModel {
                n: self.spec_elements().len(),
                k: self.spec_rank(),
                rank: derived_rank(self.spec_bases()),
            }),
            self.inv() == self.wf(),
    {
    }

    /// The derived matroid of a uniform source or one on at most three
    /// elements, in closed form: an index subset of `n - k` circuits is a
    /// basis when every selection of at least three of them has a union of
    /// nullity at least the selection's size.
    pub fn from_fast_matroid<M: Matroid>(matroid: &M) -> (r: Self)
        requires
            matroid.inv(),
            circuits_of(matroid.model()).len() <= 64,
            matroid.model().n - matroid.model().k <= circuits_of(matroid.model()).len(),
        ensures
            r.wf(),
            r.spec_rank() == matroid.model().n - matroid.model().k,
            r.spec_elements() == circuits_of(matroid.model()),
            r.spec_bases() == filter_below(
                pow2(circuits_of(matroid.model()).len()),
                fast_pred(
                    matroid.model(),
                    circuits_of(matroid.model()),
                    (matroid.model().n - matroid.model().k) as nat,
                ),
            ),
    {
        proof {
            matroid.lemma_axioms();
        }
        let rank = matroid.n() - matroid.k();
        let elements = matroid.circuits();
        let ghost mm = matroid.model();
        let ghost cs = patterns(elements@);
        let m = elements.len();
        let ghost p = fast_pred(mm, cs, rank as nat);
        proof {
            lemma_circuits_within(mm);
        }
        let mut it = SetIterator::new(m).size_limit(rank).equal();
        let mut bases: Vec<BitSet> = Vec::new();
        proof {
            it.lemma_pos_bound();
            assert(patterns(bases@) =~= filter_below(0, p));
        }
        loop
            invariant
                matroid.inv(),
                mm == matroid.model(),
                cs == patterns(elements@),
                cs == circuits_of(mm),
                all_within(cs, mm.n),
                m == cs.len(),
                m <= 64,
                p == fast_pred(mm, cs, rank as nat),
                it.wf(),
                it.ground() == m,
                forall|x: u64| #[trigger] it.accepts(x) == (within(x, m as nat) && popcount(x) == rank),
                patterns(bases@) == filter_below(it.pos(), p),
            ensures
                patterns(bases@) == filter_below(pow2(m as nat), p),
            decreases pow2(it.ground()) - it.pos(),
        {
            let ghost before = it.pos();
            proof {
                it.lemma_pos_bound();
            }
            let s = it.next();
            proof {
                assert forall|y: u64| p(y) implies #[trigger] it.accepts(y) by {}
                it.lemma_step(before, s, it.pos(), p);
            }
            match s {
                Some(set) => {
                    if selections_dependent_enough(matroid, &elements, &set) {
                        bases.push(set);
                    }
                    proof {
                        assert(patterns(bases@) =~= filter_below(it.pos(), p));
                    }
                },
                None => {
                    break;
                },
            }
        }
        proof {
            crate::set::lemma_filter_facts(pow2(m as nat), p);
        }
        Self { rank, elements, bases }
    }

    /// The union of the circuits that `subset` selects.
    pub fn circuit_union(&self, subset: &BitSet) -> (r: BitSet)
        requires
            self.wf(),
            within(subset@, self.spec_elements().len()),
        ensures
            r@ == union_selected(subset@, self.spec_elements(), highest(subset@) + 1),
    {
        proof {
            if self.elements@.len() == 0 {
                lemma2_to64();
                assert(subset@ == 0);
            } else {
                lemma_highest_within(subset@, self.elements@.len() as nat);
            }
        }
        subset.union_of_sets(&self.elements)
    }

    /// Removing any one of the selected circuits with index below `|subset|`
    /// leaves the union of the selection unchanged.
    pub fn completly_redundant(&self, subset: &BitSet) -> (r: bool)
        requires
            self.wf(),
            within(subset@, self.spec_elements().len()),
        ensures
            r == forall|e: nat|
                e < popcount(subset@) && has_bit(subset@, e) ==> union_selected(
                    #[trigger] without(subset@, e),
                    self.spec_elements(),
                    highest(without(subset@, e)) + 1,
                ) == union_selected(subset@, self.spec_elements(), highest(subset@) + 1),
    {
        let s = self.circuit_union(subset);
        let size = subset.size();
        let mut e: usize = 0;
        while e < size
            invariant
                self.wf(),
                within(subset@, self.spec_elements().len()),
                size == popcount(subset@),
                size <= 64,
                e <= size,
                s@ == union_selected(subset@, self.spec_elements(), highest(subset@) + 1),
                forall|f: nat|
                    f < e && has_bit(subset@, f) ==> union_selected(
                        #[trigger] without(subset@, f),
                        self.spec_elements(),
                        highest(without(subset@, f)) + 1,
                    ) == s@,
            decreases size - e,
        {
            if subset.contains_element(e) {
                let smaller = subset.remove_element(e);
                assert(smaller@ == without(subset@, e as nat));
                proof {
                    crate::matroid::lemma_within_and(subset@, !(1u64 << (e as u64)), self.spec_elements().len());
                }
                if self.circuit_union(&smaller) != s {
                    return false;
                }
            }
            e = e + 1;
        }
        true
    }
}

/// Every selection of at least three of the circuits that `set` picks has a
/// union of nullity at least its size.
fn selections_dependent_enough<M: Matroid>(matroid: &M, elements: &Vec<BitSet>, set: &BitSet) -> (r:
    bool)
    requires
        matroid.inv(),
        elements@.len() <= 64,
        all_within(patterns(elements@), matroid.model().n),
        within(set@, elements@.len() as nat),
    ensures
        r == forall|s: u64|
            within(s, popcount(set@)) && popcount(s) >= 3 ==> nullity_of(
                matroid.model(),
                union_selected(
                    extend_spec(s, set@) as u64,
                    patterns(elements@),
                    highest(extend_spec(s, set@) as u64) + 1,
                ),
            ) >= popcount(#[trigger] extend_spec(s, set@) as u64),
{
    let ghost mm = matroid.model();
    let ghost cs = patterns(elements@);
    let size = set.size();
    proof {
        crate::bits::lemma_popcount_le_64(set@);
    }
    let mut it = SetIterator::new(size).size_limit(3).greater_equal();
    loop
        invariant
            matroid.inv(),
            mm == matroid.model(),
            cs == patterns(elements@),
            elements@.len() <= 64,
            all_within(cs, mm.n),
            within(set@, elements@.len() as nat),
            size == popcount(set@),
            it.wf(),
            it.ground() == size,
            forall|x: u64| #[trigger] it.accepts(x) == (within(x, size as nat) && popcount(x) >= 3),
            forall|s: u64|
                (s as nat) < it.pos() && within(s, popcount(set@)) && popcount(s) >= 3 ==> nullity_of(
                    mm,
                    union_selected(
                        extend_spec(s, set@) as u64,
                        cs,
                        highest(extend_spec(s, set@) as u64) + 1,
                    ),
                ) >= popcount(#[trigger] extend_spec(s, set@) as u64),
        decreases pow2(it.ground()) - it.pos(),
    {
        let ghost before = it.pos();
        let ghost prev = it;
        proof {
            it.lemma_pos_bound();
        }
        let next = it.next();
        proof {
            it.lemma_pos_bound();
        }
        match next {
            Some(sub) => {
                let extended = sub.extend(set);
                proof {
                    crate::matroid::lemma_extend_within(sub@, set@, elements@.len() as nat);
                    assert(within(sub@, size as nat) && popcount(sub@) >= 3);
                    crate::bits::lemma_popcount_bound(sub@, size as nat);
                    assert(set@ != 0) by {
                        if set@ == 0 {
                            assert(popcount(set@) == 0);
                        }
                    }
                    if elements@.len() == 0 {
                        lemma2_to64();
                    }
                    lemma_highest_within(extended@, elements@.len() as nat);
                    lemma_union_selected_within(extended@, cs, highest(extended@) + 1, mm.n);
                }
                let union = extended.union_of_sets(elements);
                if matroid.nullity(&union) < extended.size() {
                    return false;
                }
                proof {
                    assert forall|s: u64|
                        (s as nat) < it.pos() && within(s, popcount(set@)) && popcount(s) >= 3 implies nullity_of(
                        mm,
                        union_selected(
                            extend_spec(s, set@) as u64,
                            cs,
                            highest(extend_spec(s, set@) as u64) + 1,
                        ),
                    ) >= popcount(#[trigger] extend_spec(s, set@) as u64) by {
                        if (s as nat) >= before && s != sub@ {
                            assert(!prev.accepts(s));
                        }
                    }
                }
            },
            None => {
                proof {
                    assert forall|s: u64|
                        within(s, popcount(set@)) && popcount(s) >= 3 implies nullity_of(
                        mm,
                        union_selected(
                            extend_spec(s, set@) as u64,
                            cs,
                            highest(extend_spec(s, set@) as u64) + 1,
                        ),
                    ) >= popcount(#[trigger] extend_spec(s, set@) as u64) by {
                        assert(it.accepts(s));
                        it.lemma_accepts_within();
                    }
                }
                return true;
            },
        }
    }
}

/// Circuits lie in the ground set.
proof fn lemma_circuits_within(m: RankModel)
    requires
        m.n <= 64,
    ensures
        all_within(circuits_of(m), m.n),
{
    lemma2_to64();
    lemma2_to64_rest();
    if m.n < 64 {
        lemma_pow2_strictly_increases(m.n, 64);
    }
    crate::set::lemma_filter_facts(pow2(m.n), circuit_pred(m));
    assert forall|k: int| 0 <= k < circuits_of(m).len() implies within(#[trigger] circuits_of(m)[k], m.n) by {
        assert(circuit_pred(m)(circuits_of(m)[k]));
    }
}

impl Matroid for CombinatorialDerived {
    closed spec fn model(&self) -> RankModel {
        RankModel {
            n: self.elements@.len() as nat,
            k: self.rank as nat,
            rank: derived_rank(patterns(self.bases@)),
        }
    }

    closed spec fn inv(&self) -> bool {
        self.wf()
    }

    proof fn lemma_axioms(&self) {
        assert forall|x: u64| within(x, self.model().n) implies #[trigger] (self.model().rank)(x)
            <= popcount(x) by {
            lemma_max_meet(patterns(self.bases@), x);
        }
    }

    fn rank(&self, subset: &BitSet) -> (r: usize) {
        let size = subset.size();
        if size < 3 {
            return size;
        }
        proof {
            let bs = self.bases@;
            assert forall|i: int, j: int|
                0 <= i < bs.len() && 0 <= j < bs.len() implies popcount(#[trigger] bs[i]@)
                == popcount(#[trigger] bs[j]@) by {
                assert(patterns(bs)[i] == bs[i]@);
                assert(patterns(bs)[j] == bs[j]@);
            }
        }
        BasesMatroid::rank_of_subset_given_bases(subset, &self.bases)
    }

    fn k(&self) -> (r: usize) {
        self.rank
    }

    fn n(&self) -> (r: usize) {
        self.elements.len()
    }
}

/// Every member has at least three elements.
pub open spec fn all_big(d: Seq<u64>) -> bool {
    forall|k: int| 0 <= k < d.len() ==> popcount(#[trigger] d[k]) >= 3
}

/// No member lies inside another one.
pub open spec fn antichain(d: Seq<u64>) -> bool {
    forall|i: int, j: int| 0 <= i < d.len() && 0 <= j < d.len() && i != j ==> #[trigger] d[j] & !#[trigger] d[i] != 0
}

proof fn lemma_pop_halves(v: nat)
    ensures
        pop(v) == v % 2 + pop(v / 2),
{
}

/// Relabelling a selection keeps at most as many elements as it selects.
proof fn lemma_pop_extend(s: u64, t: u64)
    ensures
        pop(extend_spec(s, t)) <= popcount(s),
    decreases t,
{
    if t != 0 {
        if t % 2 == 1 {
            lemma_pop_extend(s / 2, t / 2);
            let e = extend_spec(s / 2, t / 2);
            lemma_pop_halves(((s % 2) as nat + 2 * e) as nat);
            assert((((s % 2) as nat + 2 * e) as nat) / 2 == e);
        } else {
            lemma_pop_extend(s, t / 2);
            let e = extend_spec(s, t / 2);
            lemma_pop_halves(2 * e);
            assert((2 * e) / 2 == e);
        }
    }
}

/// A merge of two members of a big antichain has at least three elements.
proof fn lemma_merged_big(a: u64, b: u64, c: nat)
    requires
        c < 64,
        popcount(a) >= 3,
        b & !a != 0,
    ensures
        popcount(merged(a, b, c)) >= 3,
{
    let t = a & b;
    let one = 1u64 << (c as u64);
    vstd::bits::lemma_u64_pow2_no_overflow(c);
    vstd::bits::lemma_u64_shl_is_mul(1, c as u64);
    crate::bits::lemma_pop_pow2(c);
    crate::set::lemma_extend_bound(one, t);
    lemma_pop_extend(one, t);
    let e = extend_spec(one, t) as u64;
    let u = a | b;
    crate::bits::lemma_popcount_split(u, e);
    crate::bits::lemma_popcount_and_le(u, e);
    crate::bits::lemma_popcount_split(u, a);
    assert(u & a == a && u & !a == b & !a) by (bit_vector)
        requires
            u == a | b,
    ;
    crate::set::lemma_pop_zero((b & !a) as nat);
}

/// One closure round of a big antichain yields only sets of at least three
/// elements.
pub proof fn lemma_epsilon_big(d: Seq<u64>, rank: nat)
    requires
        all_big(d),
        antichain(d),
    ensures
        forall|x: u64| #[trigger] epsilon_member(d, rank, x) ==> popcount(x) >= 3,
{
    assert forall|x: u64| #[trigger] epsilon_member(d, rank, x) implies popcount(x) >= 3 by {
        if d.contains(x) {
            let k = choose|k: int| 0 <= k < d.len() && d[k] == x;
            assert(popcount(d[k]) >= 3);
        } else {
            let (a, b, c) = choose|a: int, b: int, c: nat| #[trigger] from_pair(d, rank, a, b, c, x);
            crate::bits::lemma_popcount_le_64(d[a] & d[b]);
            assert(d[b] & !d[a] != 0);
            lemma_merged_big(d[a], d[b], c);
        }
    }
}

/// A filter keeps members of the source, and keeps them distinct.
proof fn lemma_filter_sub(s: Seq<u64>, p: spec_fn(u64) -> bool)
    ensures
        forall|i: int| 0 <= i < s.filter(p).len() ==> s.contains(#[trigger] s.filter(p)[i]),
        s.no_duplicates() ==> s.filter(p).no_duplicates(),
    decreases s.len(),
{
    reveal(Seq::filter);
    if s.len() > 0 {
        let rest = s.drop_last();
        lemma_filter_sub(rest, p);
        let out = s.filter(p);
        let sub = rest.filter(p);
        assert forall|i: int| 0 <= i < out.len() implies s.contains(#[trigger] out[i]) by {
            if i < sub.len() {
                assert(out[i] == sub[i]);
                let k = choose|k: int| 0 <= k < rest.len() && rest[k] == sub[i];
                assert(s[k] == rest[k]);
            } else {
                assert(out[i] == s.last());
                assert(s[s.len() - 1] == s.last());
            }
        }
        if s.no_duplicates() {
            assert(rest.no_duplicates()) by {
                assert forall|i: int, j: int| 0 <= i < rest.len() && 0 <= j < rest.len() && i != j implies rest[i] != rest[j] by {
                    assert(rest[i] == s[i] && rest[j] == s[j]);
                }
            }
            if p(s.last()) {
                assert forall|i: int| 0 <= i < sub.len() implies sub[i] != s.last() by {
                    let k = choose|k: int| 0 <= k < rest.len() && rest[k] == sub[i];
                    assert(s[k] == rest[k]);
                    assert(s[s.len() - 1] == s.last());
                }
                assert forall|i: int, j: int| 0 <= i < out.len() && 0 <= j < out.len() && i != j implies out[i] != out[j] by {
                    if i < sub.len() && j < sub.len() {
                        assert(out[i] == sub[i] && out[j] == sub[j]);
                    } else if i < sub.len() {
                        assert(out[i] == sub[i]);
                    } else if j < sub.len() {
                        assert(out[j] == sub[j]);
                    }
                }
            }
        }
    }
}

/// The minimal members of a big duplicate-free family form a big
/// duplicate-free antichain.
pub proof fn lemma_minimal_antichain(all: Seq<u64>)
    requires
        all_big(all),
        all.no_duplicates(),
    ensures
        ({
            let out = all.filter(|s: u64| minimal_in(all, s));
            &&& all_big(out)
            &&& out.no_duplicates()
            &&& antichain(out)
        }),
{
    let p = |s: u64| minimal_in(all, s);
    let out = all.filter(p);
    lemma_filter_sub(all, p);
    broadcast use vstd::seq_lib::group_filter_ensures;

    assert forall|k: int| 0 <= k < out.len() implies popcount(#[trigger] out[k]) >= 3 by {
        assert(all.contains(out[k]));
    }
    assert forall|i: int, j: int| 0 <= i < out.len() && 0 <= j < out.len() && i != j implies #[trigger] out[j] & !#[trigger] out[i] != 0 by {
        let a = out[i];
        let b = out[j];
        assert(a != b);
        assert(all.contains(b));
        assert(p(a));
        if b & !a == 0 {
            assert(b & a == b) by (bit_vector)
                requires
                    b & !a == 0,
            ;
            let kb = choose|k: int| 0 <= k < all.len() && all[k] == b;
            assert(is_subset(all[kb], a));
            lemma_strict_subset_smaller(b, a);
            assert(popcount(b) >= 3);
        }
    }
}

/// A proper subset has fewer elements.
proof fn lemma_strict_subset_smaller(b: u64, a: u64)
    requires
        b & a == b,
        b != a,
    ensures
        popcount(b) < popcount(a),
{
    crate::bits::lemma_popcount_split(a, b);
    assert(a & b == b && a & !b != 0) by (bit_vector)
        requires
            b & a == b,
            b != a,
    ;
    crate::set::lemma_pop_zero((a & !b) as nat);
}

/// The initial dependent sets are big and distinct.
proof fn lemma_initial_big(m: RankModel, points: Seq<u64>, upper: nat)
    requires
        points.len() <= 64,
    ensures
        all_big(initial_dependents(m, points, upper)),
        initial_dependents(m, points, upper).no_duplicates(),
        forall|k: int| 0 <= k < initial_dependents(m, points, upper).len() ==> popcount(#[trigger] initial_dependents(m, points, upper)[k]) <= upper,
    decreases upper,
{
    if upper >= 3 {
        let prev = initial_dependents(m, points, (upper - 1) as nat);
        lemma_initial_big(m, points, (upper - 1) as nat);
        lemma2_to64();
        lemma2_to64_rest();
        if points.len() < 64 {
            lemma_pow2_strictly_increases(points.len(), 64);
        }
        let p = initial_pred(m, points, upper);
        let l = filter_below(pow2(points.len()), p);
        crate::set::lemma_filter_facts(pow2(points.len()), p);
        assert forall|i: int, j: int| 0 <= i < l.len() && 0 <= j < l.len() && i != j implies l[i] != l[j] by {
            if i < j {
                assert(l[i] < l[j]);
            } else {
                assert(l[j] < l[i]);
            }
        }
        assert forall|i: int, j: int| 0 <= i < prev.len() && 0 <= j < l.len() implies prev[i] != l[j] by {
            assert(p(l[j]));
        }
        vstd::seq_lib::lemma_no_dup_in_concat(prev, l);
        let all = initial_dependents(m, points, upper);
        assert(all == prev + l);
        assert forall|k: int| 0 <= k < all.len() implies popcount(#[trigger] all[k]) >= 3 && popcount(all[k]) <= upper by {
            if k < prev.len() {
                assert(all[k] == prev[k]);
            } else {
                assert(all[k] == l[k - prev.len()]);
                assert(p(l[k - prev.len()]));
            }
        }
    }
}

/// With no dependent set empty, the empty set is free at rank 0.
proof fn lemma_rank_zero_free(d: Seq<u64>, m: nat)
    requires
        all_big(d),
        m <= 64,
    ensures
        filter_below(pow2(m), free_pred(d, m, 0)).len() > 0,
{
    lemma_pow2_pos(m);
    lemma2_to64();
    lemma2_to64_rest();
    if m < 64 {
        lemma_pow2_strictly_increases(m, 64);
    }
    let p = free_pred(d, m, 0);
    assert forall|k: int| 0 <= k < d.len() implies !#[trigger] is_subset(d[k], 0) by {
        let x = d[k];
        if x & 0 == x {
            assert(x == 0) by (bit_vector)
                requires
                    x & 0 == x,
            ;
            assert(popcount(x) >= 3);
        }
    }
    assert(p(0));
    crate::set::lemma_filter_facts(pow2(m), p);
    assert(filter_below(pow2(m), p).contains(0));
}

/// What the iterative path guarantees of `r`, built from the source model
/// `m` with target rank `target`: the closure, started from the seed family,
/// run until the family's size stops changing (at most `2^64 - 1` rounds),
/// reaches a family `d` of sets of at least three elements; the bases are the
/// subsets of `r`'s rank avoiding `d`, there is at least one, and at every
/// higher rank up to the target every subset meets `d`.
pub open spec fn closure_result(r: CombinatorialDerived, m: RankModel, target: nat) -> bool {
    let n = r.spec_elements().len();
    &&& r.spec_rank() <= target
    &&& r.spec_bases().len() > 0
    &&& exists|d: Seq<u64>|
        {
            &&& d.to_set() == closure(
                seed_family(m, r.spec_elements(), target),
                target,
                0xFFFF_FFFF_FFFF_FFFF,
            )
            &&& all_big(d)
            &&& r.spec_bases() == filter_below(pow2(n), free_pred(d, n, r.spec_rank()))
            &&& forall|q: nat|
                r.spec_rank() < q <= target ==> #[trigger] filter_below(
                    pow2(n),
                    free_pred(d, n, q),
                ).len() == 0
        }
}

impl CombinatorialDerived {
    /// The derived matroid by iterative closure: seed with the genuinely
    /// dependent index subsets of sizes `3..=n-k`, then apply epsilon rounds
    /// followed by minimality until the family's size stops changing (or
    /// after `2^64 - 1` rounds), and take as bases the subsets of the target
    /// rank avoiding the family, lowering the rank while there are none. The
    /// family never holds an empty set, so rank 0 always has a basis.
    pub fn from_non_fast_matroid<M: Matroid>(matroid: &M) -> (r: Self)
        requires
            matroid.inv(),
            circuits_of(matroid.model()).len() <= 64,
        ensures
            r.wf(),
            r.spec_elements() == circuits_of(matroid.model()),
            closure_result(r, matroid.model(), (matroid.model().n - matroid.model().k) as nat),
    {
        proof {
            matroid.lemma_axioms();
        }
        let target = matroid.n() - matroid.k();
        let mut rank = target;
        let elements = matroid.circuits();
        let m = elements.len();
        proof {
            lemma_circuits_within(matroid.model());
        }
        let initial = initial_dependents_support_limit(matroid, &elements, rank);
        proof {
            lemma_initial_big(matroid.model(), patterns(elements@), rank as nat);
            lemma_minimal_antichain(patterns(initial@));
        }
        let ghost seed = seed_family(matroid.model(), patterns(elements@), target as nat);
        proof {
            lemma_minimal_set(patterns(initial@));
        }
        let mut dependents = inclusion_minimal(&initial);
        let mut cardinality = dependents.len();
        let mut rounds: u64 = u64::MAX;
        loop
            invariant_except_break
                antichain(patterns(dependents@)),
                cardinality == dependents@.len(),
                closure(patterns(dependents@).to_set(), rank as nat, rounds as nat) == closure(
                    seed,
                    rank as nat,
                    0xFFFF_FFFF_FFFF_FFFF,
                ),
            invariant
                all_big(patterns(dependents@)),
                patterns(dependents@).no_duplicates(),
                rank == target,
            ensures
                all_big(patterns(dependents@)),
                patterns(dependents@).to_set() == closure(seed, rank as nat, 0xFFFF_FFFF_FFFF_FFFF),
            decreases rounds,
        {
            if rounds == 0 {
                break;
            }
            let ghost cur = patterns(dependents@).to_set();
            proof {
                patterns(dependents@).unique_seq_to_set();
            }
            rounds = rounds - 1;
            let next = epsilon(&dependents, rank);
            proof {
                let d = patterns(dependents@);
                let e = patterns(next@);
                lemma_epsilon_big(d, rank as nat);
                assert forall|k: int| 0 <= k < e.len() implies popcount(#[trigger] e[k]) >= 3 by {
                    assert(e.contains(e[k]));
                    assert(epsilon_member(d, rank as nat, e[k]));
                }
                lemma_minimal_antichain(e);
                lemma_round_set(d, rank as nat);
                assert(e.to_set() =~= round_set(cur, rank as nat)) by {
                    assert forall|x: u64| e.to_set().contains(x) <==> round_set(cur, rank as nat).contains(x) by {
                        assert(e.contains(x) <==> epsilon_member(d, rank as nat, x));
                    }
                }
                lemma_minimal_set(e);
            }
            dependents = inclusion_minimal(&next);
            proof {
                patterns(dependents@).unique_seq_to_set();
                assert(patterns(dependents@).to_set() == next_family(cur, rank as nat));
            }
            if dependents.len() == cardinality {
                break;
            }
            cardinality = dependents.len();
        }
        let ghost d = patterns(dependents@);
        let mut bases = bases_from_dependents(&dependents, m, rank);
        while bases.len() == 0
            invariant
                d == patterns(dependents@),
                all_big(d),
                m <= 64,
                rank <= target,
                patterns(bases@) == filter_below(pow2(m as nat), free_pred(d, m as nat, rank as nat)),
                forall|q: nat|
                    rank < q <= target ==> #[trigger] filter_below(
                        pow2(m as nat),
                        free_pred(d, m as nat, q),
                    ).len() == 0,
            decreases rank,
        {
            proof {
                if rank == 0 {
                    lemma_rank_zero_free(d, m as nat);
                }
            }
            rank = rank - 1;
            bases = bases_from_dependents(&dependents, m, rank);
        }
        proof {
            let p = free_pred(d, m as nat, rank as nat);
            lemma2_to64();
            lemma2_to64_rest();
            if m < 64 {
                lemma_pow2_strictly_increases(m as nat, 64);
            }
            crate::set::lemma_filter_facts(pow2(m as nat), p);
            let b0 = patterns(bases@)[0];
            assert(p(b0));
            if m < 64 {
                crate::bits::lemma_popcount_bound(b0, m as nat);
            }
        }
        let r = Self { rank, elements, bases };
        proof {
            assert(all_big(d));
            assert(r.spec_elements() == patterns(elements@));
        }
        r
    }

    /// The combinatorial derived matroid of `matroid`: in closed form when
    /// the source is uniform or has at most three elements, by iterative
    /// closure otherwise.
    pub fn from_matroid<M: Matroid>(matroid: &M) -> (r: Self)
        requires
            matroid.inv(),
            circuits_of(matroid.model()).len() <= 64,
            matroid.model().n - matroid.model().k <= circuits_of(matroid.model()).len(),
        ensures
            r.wf(),
            r.spec_elements() == circuits_of(matroid.model()),
            if bases_of(matroid.model()).len() == binom(matroid.model().n, matroid.model().k)
                || matroid.model().n <= 3 {
                &&& r.spec_rank() == matroid.model().n - matroid.model().k
                &&& r.spec_bases() == filter_below(
                    pow2(circuits_of(matroid.model()).len()),
                    fast_pred(
                        matroid.model(),
                        circuits_of(matroid.model()),
                        (matroid.model().n - matroid.model().k) as nat,
                    ),
                )
            } else {
                closure_result(r, matroid.model(), (matroid.model().n - matroid.model().k) as nat)
            },
    {
        if matroid.is_uniform() || matroid.n() <= 3 {
            Self::from_fast_matroid(matroid)
        } else {
            Self::from_non_fast_matroid(matroid)
        }
    }
}

/// The combinatorial derived matroid, as a method of every matroid.
pub trait CombinatorialDerivation: Matroid {
    /// The combinatorial derived matroid of `self`.
    fn combinatorial_derived(&self) -> (r: CombinatorialDerived)
        requires
            self.inv(),
            circuits_of(self.model()).len() <= 64,
            self.model().n - self.model().k <= circuits_of(self.model()).len(),
        ensures
            r.wf(),
            r.spec_elements() == circuits_of(self.model()),
            if bases_of(self.model()).len() == binom(self.model().n, self.model().k)
                || self.model().n <= 3 {
                &&& r.spec_rank() == self.model().n - self.model().k
                &&& r.spec_bases() == filter_below(
                    pow2(circuits_of(self.model()).len()),
                    fast_pred(
                        self.model(),
                        circuits_of(self.model()),
                        (self.model().n - self.model().k) as nat,
                    ),
                )
            } else {
                closure_result(r, self.model(), (self.model().n - self.model().k) as nat)
            },
    ;
}

impl<M: Matroid> CombinatorialDerivation for M {
    fn combinatorial_derived(&self) -> (r: CombinatorialDerived) {
        CombinatorialDerived::from_matroid(self)
    }
}

/// The pair `(a, b)` of a family `d` is combined in a closure round.
pub open spec fn pair_ok_in(d: Set<u64>, a: u64, b: u64, rank: nat) -> bool {
    let t = a & b;
    &&& popcount(a) + popcount(b) - popcount(t) - 1 <= rank
    &&& (0 < popcount(t) < 3 || (popcount(t) >= 3 && !exists|e: u64|
        d.contains(e) && #[trigger] is_subset(e, t)))
}

/// What one closure round over the family `d` produces.
pub open spec fn round_set(d: Set<u64>, rank: nat) -> Set<u64> {
    Set::new(
        |x: u64|
            d.contains(x) || exists|a: u64, b: u64, c: nat|
                #![trigger merged(a, b, c), d.contains(a), d.contains(b)]
                d.contains(a) && d.contains(b) && a != b && pair_ok_in(d, a, b, rank) && c
                    < popcount(a & b) && x == merged(a, b, c) && popcount(x) <= rank,
    )
}

/// `s` has three elements, or no other member of `e` lies inside it.
pub open spec fn minimal_member(e: Set<u64>, s: u64) -> bool {
    popcount(s) == 3 || !exists|b: u64| e.contains(b) && b != s && #[trigger] is_subset(b, s)
}

/// The inclusion-minimal members of `e` (keeping those of three elements).
pub open spec fn minimal_of(e: Set<u64>) -> Set<u64> {
    Set::new(|s: u64| e.contains(s) && minimal_member(e, s))
}

/// The family after one more round: the minimal members of its round.
pub open spec fn next_family(d: Set<u64>, rank: nat) -> Set<u64> {
    minimal_of(round_set(d, rank))
}

/// Rounds until the family's size stops changing, at most `rounds` of them.
pub open spec fn closure(d: Set<u64>, rank: nat, rounds: nat) -> Set<u64>
    decreases rounds,
{
    if rounds == 0 {
        d
    } else {
        let next = next_family(d, rank);
        if next.len() == d.len() {
            next
        } else {
            closure(next, rank, (rounds - 1) as nat)
        }
    }
}

/// The family the closure starts from: the minimal initial dependent sets.
pub open spec fn seed_family(m: RankModel, points: Seq<u64>, rank: nat) -> Set<u64> {
    minimal_of(initial_dependents(m, points, rank).to_set())
}

/// A round over a sequence without duplicates depends only on its set.
proof fn lemma_round_set(deps: Seq<u64>, rank: nat)
    requires
        deps.no_duplicates(),
    ensures
        forall|x: u64| #[trigger] epsilon_member(deps, rank, x) <==> round_set(deps.to_set(), rank).contains(x),
{
    let d = deps.to_set();
    assert forall|i: int, j: int| 0 <= i < deps.len() && 0 <= j < deps.len() implies
        pair_ok(deps, i, j, rank) == pair_ok_in(d, deps[i], deps[j], rank) by {
        let t = deps[i] & deps[j];
        if exists|k: int| 0 <= k < deps.len() && #[trigger] is_subset(deps[k], t) {
            let k = choose|k: int| 0 <= k < deps.len() && #[trigger] is_subset(deps[k], t);
            assert(d.contains(deps[k]));
        }
        if exists|e: u64| d.contains(e) && #[trigger] is_subset(e, t) {
            let e = choose|e: u64| d.contains(e) && #[trigger] is_subset(e, t);
            assert(deps.contains(e));
        }
    }
    assert forall|x: u64| #[trigger] epsilon_member(deps, rank, x) implies round_set(d, rank).contains(x) by {
        if deps.contains(x) {
        } else {
            let (i, j, c) = choose|i: int, j: int, c: nat| #[trigger] from_pair(deps, rank, i, j, c, x);
            assert(d.contains(deps[i]) && d.contains(deps[j]));
            assert(deps[i] != deps[j]);
        }
    }
    assert forall|x: u64| round_set(d, rank).contains(x) implies #[trigger] epsilon_member(deps, rank, x) by {
        if d.contains(x) {
        } else {
            let (a, b, c) = choose|a: u64, b: u64, c: nat|
                #![trigger merged(a, b, c), d.contains(a), d.contains(b)]
                d.contains(a) && d.contains(b) && a != b && pair_ok_in(d, a, b, rank) && c
                    < popcount(a & b) && x == merged(a, b, c) && popcount(x) <= rank;
            let i = choose|i: int| 0 <= i < deps.len() && deps[i] == a;
            let j = choose|j: int| 0 <= j < deps.len() && deps[j] == b;
            assert(a & b == b & a && a | b == b | a) by (bit_vector);
            assert(popcount(a) + popcount(b) == popcount(b) + popcount(a));
            if i < j {
                assert(from_pair(deps, rank, i, j, c, x));
            } else {
                assert(pair_ok(deps, j, i, rank));
                assert(merged(b, a, c) == merged(a, b, c));
                assert(from_pair(deps, rank, j, i, c, x));
            }
        }
    }
}

/// The minimality filter of a sequence keeps exactly the minimal members of
/// its set.
proof fn lemma_minimal_set(all: Seq<u64>)
    ensures
        all.filter(|s: u64| minimal_in(all, s)).to_set() == minimal_of(all.to_set()),
{
    broadcast use vstd::seq_lib::group_filter_ensures;

    let p = |s: u64| minimal_in(all, s);
    let out = all.filter(p);
    lemma_filter_sub(all, p);
    let e = all.to_set();
    assert forall|s: u64| minimal_in(all, s) <==> minimal_member(e, s) by {
        if exists|k: int| 0 <= k < all.len() && all[k] != s && #[trigger] is_subset(all[k], s) {
            let k = choose|k: int| 0 <= k < all.len() && all[k] != s && #[trigger] is_subset(all[k], s);
            assert(e.contains(all[k]));
        }
        if exists|b: u64| e.contains(b) && b != s && #[trigger] is_subset(b, s) {
            let b = choose|b: u64| e.contains(b) && b != s && #[trigger] is_subset(b, s);
            let k = choose|k: int| 0 <= k < all.len() && all[k] == b;
            assert(is_subset(all[k], s));
        }
    }
    assert forall|s: u64| out.to_set().contains(s) <==> minimal_of(e).contains(s) by {
        if out.contains(s) {
            let i = choose|i: int| 0 <= i < out.len() && out[i] == s;
            assert(all.contains(out[i]));
            assert(p(out[i]));
        }
        if e.contains(s) && minimal_member(e, s) {
            let k = choose|k: int| 0 <= k < all.len() && all[k] == s;
            assert(p(all[k]));
            assert(out.contains(all[k]));
        }
    }
    assert(out.to_set() =~= minimal_of(e));
}

} // verus!
