use matroids::set::{BitSet, SetIterator};

#[test]
fn equal() {
    let a = BitSet::from(0b101);
    let b = BitSet::from(0b101);

    assert_eq!(a, b);
}

#[test]
fn ordering() {
    let a = BitSet::from(0b11101);
    let b = BitSet::from(0b00101);
    let c = BitSet::from(0b10011);

    assert!(b < a);
    assert!(b <= a);
    assert!(!(a > c));
    assert!(!(a < c));
    assert!(!(b < c));
    assert!(!(b > c));
}

#[test]
fn intersect() {
    let a = BitSet::from(0b101);
    let b = BitSet::from(0b110);
    let c = BitSet::from(0b100);

    assert_eq!(a.intersect(&b), c);
}

#[test]
fn union() {
    let a = BitSet::from(0b101);
    let b = BitSet::from(0b110);
    let c = BitSet::from(0b111);

    assert_eq!(a.union(&b), c);
}

#[test]
fn leftmost() {
    let a = BitSet::from(0b101);
    let b = BitSet::from(0b001);
    let c = BitSet::from(0b1000);

    assert_eq!(a.leftmost_element(), 2);
    assert_eq!(b.leftmost_element(), 0);
    assert_eq!(c.leftmost_element(), 3);
}

#[test]
fn extend() {
    let a = BitSet::from(0b11101);
    let b = BitSet::from(0b00101);
    let c = BitSet::from(0b01001);

    assert_eq!(b.extend(&a), c);
}

#[test]
fn extend_single_elem() {
    let a = BitSet::from(0b11101);
    let b = BitSet::from(0b00100);
    let c = BitSet::from(0b01000);

    assert_eq!(b.extend(&a), c);
}

#[test]
fn extend_single_elem_base() {
    let a = BitSet::from(0b10000);
    let b = BitSet::from(0b00001);
    let c = BitSet::from(0b10000);

    assert_eq!(b.extend(&a), c);
}

#[test]
fn iterator_all() {
    let mut iter = SetIterator::new(3);
    assert_eq!(iter.next(), Some(BitSet::from(0b000)));
    assert_eq!(iter.next(), Some(BitSet::from(0b001)));
    assert_eq!(iter.next(), Some(BitSet::from(0b010)));
    assert_eq!(iter.next(), Some(BitSet::from(0b011)));
    assert_eq!(iter.next(), Some(BitSet::from(0b100)));
    assert_eq!(iter.next(), Some(BitSet::from(0b101)));
    assert_eq!(iter.next(), Some(BitSet::from(0b110)));
    assert_eq!(iter.next(), Some(BitSet::from(0b111)));
    assert_eq!(iter.next(), None);
}

#[test]
fn iterator_equal() {
    let mut iter = SetIterator::new(6).size_limit(3).equal();
    assert_eq!(iter.next(), Some(BitSet::from(0b000111)));
    assert_eq!(iter.next(), Some(BitSet::from(0b001011)));
    assert_eq!(iter.next(), Some(BitSet::from(0b001101)));
    assert_eq!(iter.next(), Some(BitSet::from(0b001110)));
    assert_eq!(iter.next(), Some(BitSet::from(0b010011)));
    assert_eq!(iter.next(), Some(BitSet::from(0b010101)));
    assert_eq!(iter.next(), Some(BitSet::from(0b010110)));
    assert_eq!(iter.next(), Some(BitSet::from(0b011001)));
    assert_eq!(iter.next(), Some(BitSet::from(0b011010)));
    assert_eq!(iter.next(), Some(BitSet::from(0b011100)));
    assert_eq!(iter.next(), Some(BitSet::from(0b100011)));
    assert_eq!(iter.next(), Some(BitSet::from(0b100101)));
    assert_eq!(iter.next(), Some(BitSet::from(0b100110)));
    assert_eq!(iter.next(), Some(BitSet::from(0b101001)));
    assert_eq!(iter.next(), Some(BitSet::from(0b101010)));
    assert_eq!(iter.next(), Some(BitSet::from(0b101100)));
    assert_eq!(iter.next(), Some(BitSet::from(0b110001)));
    assert_eq!(iter.next(), Some(BitSet::from(0b110010)));
    assert_eq!(iter.next(), Some(BitSet::from(0b110100)));
    assert_eq!(iter.next(), Some(BitSet::from(0b111000)));
    assert_eq!(iter.next(), None);
}

#[test]
fn size() {
    let count = SetIterator::new(41).size_limit(4).equal().count();

    // this should be equal to 41 choose 4
    assert_eq!(count, 101270);
}

// Further cases of the subset representation and the enumerator.

#[test]
fn of_size_and_empty() {
    assert_eq!(BitSet::of_size(5).size(), 5);
    assert_eq!(BitSet::of_size(0), BitSet::empty());
    assert_eq!(usize::from(BitSet::of_size(64)), usize::MAX);
    assert!(BitSet::empty().is_empty());
    assert_eq!(BitSet::empty().leftmost_element(), 0);
}

#[test]
fn element_operations() {
    let a = BitSet::from(0b1001);
    assert!(a.contains_element(3));
    assert!(!a.contains_element(1));
    assert_eq!(a.add_element(1), BitSet::from(0b1011));
    assert_eq!(a.remove_element(0), BitSet::from(0b1000));
    assert_eq!(a.remove_element(2), a);
    assert_eq!(a.difference(&BitSet::from(0b0011)), BitSet::from(0b1000));
    assert_eq!(a.size(), 2);
}

#[test]
fn symmetric_difference_matches_union_minus_intersection() {
    let set1 = BitSet::from(0b1001);
    let set2 = BitSet::from(0b0111);
    assert_eq!(
        set1.symmetric_difference(&set2),
        set1.union(&set2).difference(&set1.intersect(&set2))
    );
    assert_eq!(set1.symmetric_difference(&set2), BitSet::from(0b1110));
}

#[test]
fn leftmost_of_high_bits() {
    assert_eq!(BitSet::from(0xFF_FFFF).leftmost_element(), 23);
    assert_eq!(BitSet::from(1usize << 40).leftmost_element(), 40);
}

#[test]
fn extend_oversized_selection_drops_extra_bits() {
    let t = BitSet::from(0b0110);
    assert_eq!(BitSet::from(0b111).extend(&t), BitSet::from(0b0110));
    assert_eq!(BitSet::from(0b10).extend(&t), BitSet::from(0b0100));
}

#[test]
fn union_of_selected_sets() {
    let sets = vec![BitSet::from(0b0001), BitSet::from(0b0110), BitSet::from(0b1000)];
    assert_eq!(BitSet::from(0b101).union_of_sets(&sets), BitSet::from(0b1001));
    assert_eq!(BitSet::from(0b010).union_of_sets(&sets), BitSet::from(0b0110));
    assert_eq!(BitSet::empty().union_of_sets(&[]), BitSet::empty());
}

#[test]
fn inclusion_order_partial() {
    let a = BitSet::from(0b0110);
    let b = BitSet::from(0b0011);
    assert_eq!(a.partial_cmp(&b), None);
    assert_eq!(a.partial_cmp(&a), Some(std::cmp::Ordering::Equal));
    assert_eq!(BitSet::from(0b0010).partial_cmp(&a), Some(std::cmp::Ordering::Less));
    assert_eq!(a.partial_cmp(&BitSet::from(0b0010)), Some(std::cmp::Ordering::Greater));
    assert!(BitSet::from(0b0010).is_subset_of(&a));
    assert!(!b.is_subset_of(&a));
}

#[test]
fn equal_policy_on_six_elements() {
    let mut iter = SetIterator::new(6).size_limit(3).equal();
    let mut all = Vec::new();
    while let Some(s) = iter.next() {
        all.push(usize::from(s));
    }
    assert_eq!(all.len(), 20);
    assert!(all.iter().all(|&x| x.count_ones() == 3));
    assert!(all.windows(2).all(|w| w[0] < w[1]));
    assert_eq!(all[0], 0b000111);
    assert_eq!(all[19], 0b111000);
}

#[test]
fn equal_policy_with_zero_limit_yields_empty_set_once() {
    let mut iter = SetIterator::new(4).size_limit(0).equal();
    assert_eq!(iter.next(), Some(BitSet::empty()));
    assert_eq!(iter.next(), None);
}

#[test]
fn equal_policy_beyond_ground_set_yields_nothing() {
    assert_eq!(SetIterator::new(3).size_limit(5).equal().count(), 0);
    assert_eq!(SetIterator::new(3).size_limit(3).equal().count(), 1);
}

#[test]
fn equal_policy_on_full_width_ground_set() {
    let mut iter = SetIterator::new(64).size_limit(63).equal();
    assert_eq!(iter.next(), Some(BitSet::from(usize::MAX >> 1)));
    assert_eq!(iter.count(), 63);
}

#[test]
fn other_policies_filter_by_size() {
    assert_eq!(SetIterator::new(5).size_limit(2).smaller().count(), 1 + 5);
    assert_eq!(SetIterator::new(5).size_limit(2).smaller_equal().count(), 1 + 5 + 10);
    assert_eq!(SetIterator::new(5).size_limit(2).greater().count(), 10 + 5 + 1);
    assert_eq!(SetIterator::new(5).size_limit(2).greater_equal().count(), 10 + 10 + 5 + 1);
    assert_eq!(SetIterator::new(5).count(), 32);
    assert_eq!(SetIterator::new(0).count(), 1);
    let mut iter = SetIterator::new(4).size_limit(3).greater_equal();
    assert_eq!(iter.next(), Some(BitSet::from(0b0111)));
    assert_eq!(iter.next(), Some(BitSet::from(0b1011)));
}

// Matrices.

use matroids::matrix::DynMatrix;

#[test]
fn matrix_from_rows_and_columns() {
    let a = DynMatrix::from_rows(&[&[1.0, 2.0, 3.0], &[4.0, 5.0, 6.0]]).unwrap();
    assert_eq!(a.num_rows(), 2);
    assert_eq!(a.num_cols(), 3);
    assert_eq!(a.get(1, 2), 6.0);
    let b = DynMatrix::from_columns(&[&[1.0, 4.0], &[2.0, 5.0], &[3.0, 6.0]]).unwrap();
    for i in 0..2 {
        for j in 0..3 {
            assert_eq!(a.get(i, j), b.get(i, j));
        }
    }
    assert!(DynMatrix::from_rows(&[&[1.0, 2.0], &[3.0]]).is_none());
    assert!(DynMatrix::from_columns(&[&[1.0, 2.0], &[3.0]]).is_none());
}

#[test]
fn matrix_remove_zero_rows() {
    let a = DynMatrix::from_rows(&[&[0u64, 0], &[1, 0], &[0, 0], &[0, 2]]).unwrap();
    let b = a.remove_zero_rows();
    assert_eq!(b.num_rows(), 2);
    assert_eq!(b.num_cols(), 2);
    assert_eq!(b.get(0, 0), 1);
    assert_eq!(b.get(1, 1), 2);
    let mut z: DynMatrix<u64> = DynMatrix::new(2, 3);
    assert_eq!(z.remove_zero_rows().num_rows(), 0);
    z.set(1, 2, 7);
    assert_eq!(z.get(1, 2), 7);
    assert_eq!(z.remove_zero_rows().num_rows(), 1);
}

#[test]
fn element_lists() {
    assert_eq!(BitSet::from(0b1011).elements(), vec![0, 1, 3]);
    assert_eq!(BitSet::empty().elements(), Vec::<usize>::new());
    assert_eq!(BitSet::from_elements(&[0, 2, 5]), BitSet::from(0b100101));
    assert_eq!(BitSet::from_elements(&[63]).elements(), vec![63]);
    let s = BitSet::from(0b110010);
    assert_eq!(BitSet::from_elements(&s.elements()), s);
}
