use matroids::matroid::examples::{matroid_1, matroid_2, non_fast_matroid};
use matroids::matroid::{
    BasesMatroid, Dual, Matroid, MatroidEquality, StoredMatroid, UniformMatroid, Vamos,
};
use matroids::set::{BitSet, SetIterator};

fn binomial(n: usize, k: usize) -> usize {
    if k > n {
        return 0;
    }
    let mut r: usize = 1;
    for i in 0..k {
        r = r * (n - i) / (i + 1);
    }
    r
}

#[test]
fn u14() {
    let matroid = UniformMatroid::new(1, 4);

    // number of bases should be 4 choose 1
    assert_eq!(matroid.bases().len(), 4);

    // number of circuits should be 4 choose 2
    assert_eq!(matroid.circuits().len(), 6);
}

#[test]
fn u36() {
    let matroid = UniformMatroid::new(3, 6);

    // number of bases should be 6 choose 3
    assert_eq!(matroid.bases().len(), 20);

    // number of circuits should be 6 choose 4
    assert_eq!(matroid.circuits().len(), 15);
}

#[test]
fn correct_number_of_bases() {
    assert_eq!(Vamos::new().bases().len(), 65);
}

#[test]
fn double_dual() {
    let matroid = UniformMatroid::new(2, 6);
    let dual = Dual::from(&matroid);
    let double_dual = Dual::from(&dual);

    assert!(matroid.is_equal(&double_dual));
}

#[test]
fn u26dual() {
    let matroid = UniformMatroid::new(2, 6);
    let dual = Dual::from(&matroid);

    let u46 = UniformMatroid::new(4, 6);

    assert!(dual.is_equal(&u46));
}

#[test]
fn uniformity() {
    let u37 = UniformMatroid::new(3, 7);
    let m = matroid_1();

    assert!(u37.is_uniform());
    assert!(!m.is_uniform());
}

#[test]
fn restrict() {
    let u36 = UniformMatroid::new(3, 6);
    let u34 = UniformMatroid::new(3, 4);
    let u33 = UniformMatroid::new(3, 3);
    let u22 = UniformMatroid::new(2, 2);

    let restricted = u36.restrict(&0b111010.into());
    assert!(restricted.is_equal(&u34));

    let restricted = u36.restrict(&0b101001.into());
    assert!(restricted.is_equal(&u33));

    let restricted = u36.restrict(&0b001010.into());
    assert!(restricted.is_equal(&u22));
}

#[test]
fn corank() {
    let matroid = UniformMatroid::new(3, 7);
    let set = 0b1110100.into();

    assert_eq!(matroid.corank(&set), 4);
}

#[test]
fn generalized_hamming_distance() {
    let matroid = UniformMatroid::new(3, 7);

    assert_eq!(matroid.generalized_hamming_distance(1), Some(5));
    assert_eq!(matroid.generalized_hamming_distance(2), Some(6));
    assert_eq!(matroid.generalized_hamming_distance(3), Some(7));
    assert_eq!(matroid.generalized_hamming_distance(4), None);
}

#[test]
fn non_equal_matroids() {
    let m1 = matroid_1();
    let m2 = matroid_2();

    assert!(!m1.is_equal(&m2));
    assert_ne!(m1.bases_series(), m2.bases_series());
}

// Further cases of the generic algorithms and the variants.

#[test]
fn uniform_counts_match_binomials() {
    for n in 0..=9 {
        for k in 0..=n {
            let m = UniformMatroid::new(k, n);
            assert_eq!(m.bases().len(), binomial(n, k));
            assert_eq!(m.circuits().len(), binomial(n, k + 1));
            assert_eq!(m.par_circuits().len(), binomial(n, k + 1));
        }
    }
}

#[test]
fn uniform_counts_at_twenty_elements() {
    let m = UniformMatroid::new(18, 20);
    assert_eq!(m.bases().len(), binomial(20, 18));
    assert_eq!(m.circuits().len(), binomial(20, 19));
    let m = UniformMatroid::new(1, 20);
    assert_eq!(m.bases().len(), 20);
    assert_eq!(m.circuits().len(), binomial(20, 2));
}

#[test]
fn vamos_shape() {
    let v = Vamos::new();
    assert_eq!(v.k(), 4);
    assert_eq!(v.n(), 8);
    assert!(!v.is_uniform());
    assert!(!v.is_independent(&BitSet::from(0b00001111)));
    assert!(v.is_independent(&BitSet::from(0b00010111)));
    assert_eq!(v.rank(&BitSet::from(0b00001111)), 3);
    assert_eq!(v.rank(&BitSet::from(0xFF)), 4);
    assert_eq!(Vamos::default().bases().len(), 65);
}

#[test]
fn nullity_special_case_for_full_set() {
    let m = UniformMatroid::new(2, 5);
    assert_eq!(m.nullity(&BitSet::of_size(5)), 3);
    assert_eq!(m.nullity(&BitSet::from(0b111)), 1);
    assert_eq!(m.nullity(&BitSet::from(0b11)), 0);
}

#[test]
fn cycles_and_circuits() {
    let m = UniformMatroid::new(2, 4);
    assert!(!m.is_cycle(&BitSet::empty()));
    assert!(m.is_cycle(&BitSet::from(0b111)));
    assert!(m.is_cycle(&BitSet::from(0b1111)));
    assert!(!m.is_cycle(&BitSet::from(0b11)));
    assert!(m.is_circuit(&BitSet::from(0b111)));
    assert!(!m.is_circuit(&BitSet::from(0b1111)));
    assert!(m.is_independent(&BitSet::from(0b1010)));
    assert!(!m.is_independent(&BitSet::from(0b1011)));
}

#[test]
fn circuit_listings_agree_as_sets() {
    for m in [matroid_1(), matroid_2(), non_fast_matroid()] {
        let mut a: Vec<usize> = m.circuits().into_iter().map(usize::from).collect();
        let b: Vec<usize> = m.par_circuits().into_iter().map(usize::from).collect();
        assert!(b.windows(2).all(|w| w[0].count_ones() <= w[1].count_ones()));
        let mut b_sorted = b.clone();
        a.sort();
        b_sorted.sort();
        assert_eq!(a, b_sorted);
    }
}

#[test]
fn rank_axioms_on_examples() {
    let m = matroid_1();
    let all: Vec<BitSet> = {
        let mut it = SetIterator::new(8);
        let mut v = Vec::new();
        while let Some(s) = it.next() {
            v.push(s);
        }
        v
    };
    for x in all.iter().step_by(7) {
        let rx = m.rank(x);
        assert!(rx <= x.size());
        for y in all.iter().step_by(5) {
            let ry = m.rank(y);
            assert!(m.rank(&x.union(y)) + m.rank(&x.intersect(y)) <= rx + ry);
            if x.is_subset_of(y) {
                assert!(rx <= ry);
            }
        }
    }
}

#[test]
fn dual_of_dual_examples() {
    let m = matroid_2();
    let d = m.dual();
    assert_eq!(d.k(), 3);
    let dd = Dual::from(&d);
    assert!(m.is_equal(&dd));
    let v = Vamos::new();
    let vd = v.dual();
    assert!(v.is_equal(&Dual::from(&vd)));
}

#[test]
fn fundamental_circuit_in_uniform() {
    let m = UniformMatroid::new(2, 4);
    assert_eq!(m.fundamental_circuit(2, &BitSet::from(0b0011)), Some(BitSet::from(0b0111)));
    assert_eq!(m.fundamental_circuit(0, &BitSet::from(0b0011)), None);
}

#[test]
fn hamming_distance_of_vamos() {
    let v = Vamos::new();
    assert_eq!(v.generalized_hamming_distance(1), Some(4));
    assert_eq!(v.generalized_hamming_distance(2), Some(6));
    assert_eq!(v.generalized_hamming_distance(4), Some(8));
    assert_eq!(v.generalized_hamming_distance(5), None);
}

#[test]
fn elongation_raises_rank() {
    let m = UniformMatroid::new(2, 5);
    let e = m.elongate(1);
    assert_eq!(e.k(), 3);
    assert!(e.is_equal(&UniformMatroid::new(3, 5)));
    assert_eq!(e.rank(&BitSet::from(0b11111)), 3);
}

#[test]
fn independents_of_uniform() {
    let m = UniformMatroid::new(2, 4);
    assert_eq!(m.independents().len(), 1 + 4 + 6);
}

#[test]
fn restrict_keeps_rank_of_the_set() {
    let m = matroid_1();
    let r = m.restrict(&BitSet::from(0b1111));
    assert_eq!(r.n(), 4);
    assert_eq!(r.k(), m.rank(&BitSet::from(0b1111)));
}

#[test]
fn bases_table_rank() {
    let bases = vec![BitSet::from(0b011), BitSet::from(0b101)];
    assert_eq!(BasesMatroid::rank_of_subset_given_bases(&BitSet::from(0b110), &bases), 1);
    assert_eq!(BasesMatroid::rank_of_subset_given_bases(&BitSet::from(0b111), &bases), 2);
    assert_eq!(BasesMatroid::rank_of_subset_given_bases(&BitSet::from(0b111), &[]), 0);
    let m = BasesMatroid::new(bases, 3, 2);
    assert_eq!(m.rank(&BitSet::from(0b110)), 1);
    assert!(!m.is_uniform());
}

#[test]
fn stored_round_trip() {
    let m = UniformMatroid::new(3, 6);
    let stored = StoredMatroid::from_matroid(&m);
    assert_eq!(stored.n, 6);
    assert_eq!(stored.k, 3);
    assert_eq!(stored.bases.len(), 20);
    let loaded = BasesMatroid::from(stored);
    assert_eq!(m.independents(), loaded.independents());
}

#[test]
fn non_fast_example_shape() {
    let m = non_fast_matroid();
    assert_eq!(m.n(), 6);
    assert_eq!(m.k(), 2);
    assert_eq!(m.bases().len(), 12);
    assert!(!m.is_uniform());
}
