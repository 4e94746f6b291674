use matroids::matroid::combinatorial_derived::{
    bases_from_dependents, epsilon, inclusion_minimal, initial_dependents_support_limit,
};
use matroids::matroid::examples::{matroid_1, matroid_2, non_fast_matroid};
use matroids::matroid::{
    CombinatorialDerivation, CombinatorialDerived, Matroid, MatroidEquality, UniformMatroid,
};
use matroids::set::BitSet;

fn contains_same_elems(a: &[BitSet], b: &[BitSet]) -> bool {
    a.len() == b.len() && a.iter().all(|x| b.contains(x)) && b.iter().all(|x| a.contains(x))
}

#[test]
fn uniform_3_6() {
    let matroid = UniformMatroid::new(3, 6);

    let derived = CombinatorialDerived::from_matroid(&matroid);

    let circuits = derived.circuits();

    for i in 0..10 {
        println!(
            "size {}: {}",
            i,
            circuits.iter().filter(|x| x.size() == i).count()
        );
    }

    // should be no circuits smaller than 3
    assert!(circuits.iter().all(|x| x.size() >= 3));

    // should be no circuits greater than 5
    assert!(circuits.iter().all(|x| x.size() < 5));

    // there should be 60 circuits of size 3
    assert_eq!(circuits.iter().filter(|x| x.size() == 3).count(), 60);

    // there should be 735 circuits of size 4
    assert_eq!(circuits.iter().filter(|x| x.size() == 4).count(), 735);
}

#[test]
fn known_derived() {
    let uniform = UniformMatroid::new(5, 6);
    let res = UniformMatroid::new(1, 1);

    let derived = CombinatorialDerived::from_matroid(&uniform);

    assert!(res.is_equal(&derived))
}

#[test]
fn uniform_general() {
    let matroid = UniformMatroid::new(2, 5);

    let derived = CombinatorialDerived::from_matroid(&matroid);
    let derived_uniform = CombinatorialDerived::from_matroid(&matroid);

    assert!(derived.is_equal(&derived_uniform));
}

#[test]
fn uniform_2_5_from_circuits() {
    let matroid = UniformMatroid::new(2, 5);

    let derived = CombinatorialDerived::from_matroid(&matroid);
    let derived_uniform = matroid.combinatorial_derived();

    assert!(derived.is_equal(&derived_uniform));
}

#[test]
fn inclusion_minimal_1() {
    let mut a: Vec<BitSet> = vec![0b0111.into(), 0b1111.into(), 0b1110.into()];
    a = inclusion_minimal(&a);

    let b: Vec<BitSet> = vec![0b0111.into(), 0b1110.into()];

    assert!(contains_same_elems(&a, &b))
}

#[test]
fn epsilon_1() {
    let dependents = vec![0b0111.into(), 0b1110.into()];
    let res = epsilon(&dependents, 3);

    let expected: Vec<BitSet> = vec![0b0111.into(), 0b1110.into(), 0b1101.into(), 0b1011.into()];

    assert!(contains_same_elems(&res, &expected))
}

#[test]
fn uniform_2_6() {
    // fast, but of nullity 4: some dependent sets are not among the initial
    // ones, while every circuit is, so both paths agree
    let matroid = UniformMatroid::new(2, 6);

    let fast_calculation = CombinatorialDerived::from_fast_matroid(&matroid);
    let non_fast_calculation = CombinatorialDerived::from_non_fast_matroid(&matroid);

    assert!(fast_calculation.is_equal(&non_fast_calculation));
}

#[test]
fn non_equal_derived() {
    let m1 = matroid_1().combinatorial_derived();
    let m2 = matroid_2().combinatorial_derived();

    assert!(!m1.is_equal(&m2));
    assert_ne!(m1.bases_series(), m2.bases_series());
}

// Further cases of the derived construction.

#[test]
fn epsilon_of_nothing_is_nothing() {
    assert!(epsilon(&[], 3).is_empty());
    let single = vec![BitSet::from(0b111)];
    assert_eq!(epsilon(&single, 3), single);
}

#[test]
fn epsilon_respects_rank_bound() {
    let dependents = vec![0b0111.into(), 0b1110.into()];
    let res = epsilon(&dependents, 2);
    let expected: Vec<BitSet> = vec![0b0111.into(), 0b1110.into()];
    assert!(contains_same_elems(&res, &expected));
}

#[test]
fn epsilon_skips_intersections_holding_a_dependent_set() {
    // every intersection is 0b00111, which is itself a member
    let dependents: Vec<BitSet> = vec![0b00111.into(), 0b01111.into(), 0b10111.into()];
    let res = epsilon(&dependents, 10);
    assert!(contains_same_elems(&res, &dependents));
}

#[test]
fn epsilon_merges_over_large_new_intersection() {
    let dependents: Vec<BitSet> = vec![0b01111.into(), 0b10111.into()];
    let res = epsilon(&dependents, 10);
    let expected: Vec<BitSet> =
        vec![0b01111.into(), 0b10111.into(), 0b11110.into(), 0b11101.into(), 0b11011.into()];
    assert!(contains_same_elems(&res, &expected));
}

#[test]
fn inclusion_minimal_keeps_size_three() {
    let a: Vec<BitSet> = vec![0b0111.into(), 0b0011.into(), 0b11110.into(), 0b0110.into()];
    let r = inclusion_minimal(&a);
    assert_eq!(r, vec![BitSet::from(0b0111), BitSet::from(0b0011), BitSet::from(0b0110)]);
}

#[test]
fn bases_from_dependents_avoids_family() {
    let deps: Vec<BitSet> = vec![0b0111.into()];
    let bases = bases_from_dependents(&deps, 4, 3);
    assert_eq!(bases, vec![BitSet::from(0b1011), BitSet::from(0b1101), BitSet::from(0b1110)]);
    assert_eq!(bases_from_dependents(&deps, 4, 0), vec![BitSet::empty()]);
}

#[test]
fn initial_dependents_of_uniform() {
    let m = UniformMatroid::new(2, 4);
    let circuits = m.circuits();
    assert_eq!(circuits.len(), 4);
    let init = initial_dependents_support_limit(&m, &circuits, 2);
    assert!(init.is_empty());
    let init = initial_dependents_support_limit(&m, &circuits, 4);
    assert!(init.iter().all(|x| x.size() >= 3));
    assert_eq!(init.len(), 5);
}

#[test]
fn derived_of_non_fast_example() {
    let m = non_fast_matroid();
    let d = CombinatorialDerived::from_matroid(&m);
    assert_eq!(d.n(), m.circuits().len());
    assert!(d.k() <= m.n() - m.k());
    assert!(!d.bases().is_empty());
    assert!(d.circuits().iter().all(|c| c.size() >= 3));
}

#[test]
fn circuit_union_and_redundancy() {
    let m = UniformMatroid::new(1, 3);
    let d = CombinatorialDerived::from_matroid(&m);
    // circuits of U(1,3): {0,1}, {0,2}, {1,2}
    assert_eq!(d.circuit_union(&BitSet::from(0b011)), BitSet::from(0b111));
    assert_eq!(d.circuit_union(&BitSet::from(0b001)), BitSet::from(0b011));
    assert!(d.completly_redundant(&BitSet::from(0b111)));
    assert!(!d.completly_redundant(&BitSet::from(0b011)));
}
