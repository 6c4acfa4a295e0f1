use triangular_lattice::ks::{binomial, compose, permute, sz_basis};
use triangular_lattice::params::Dim;

#[test]
fn binomial_small_values() {
    let d4 = Dim::new(4).unwrap();
    assert_eq!(binomial(d4, 0), 1);
    assert_eq!(binomial(d4, 1), 4);
    assert_eq!(binomial(d4, 2), 6);
    assert_eq!(binomial(d4, 3), 4);
    assert_eq!(binomial(d4, 4), 1);
}

#[test]
fn binomial_largest_supported_value() {
    // the central coefficient of the widest supported lattice still fits
    let d62 = Dim::new(62).unwrap();
    assert_eq!(binomial(d62, 31), 465428353255261088);
}

#[test]
fn compose_sets_exactly_the_listed_bits() {
    assert_eq!(compose(&vec![0, 2]).0, 0b101);
    assert_eq!(compose(&vec![1, 2, 3]).0, 0b1110);
    assert_eq!(compose(&vec![0]).0, 1);
}

#[test]
fn permute_decrements_a_movable_first_entry() {
    assert_eq!(permute(vec![2, 3], 3), vec![1, 3]);
}

#[test]
fn permute_cascades_at_the_first_gap() {
    // the gap entry is decremented and the prefix packed right under it
    assert_eq!(permute(vec![0, 1, 3], 3), vec![0, 1, 2]);
    assert_eq!(permute(vec![0, 3], 3), vec![1, 2]);
}

#[test]
fn permute_wraps_the_least_combination() {
    assert_eq!(permute(vec![0, 1], 3), vec![2, 3]);
    assert_eq!(permute(vec![0, 1, 2], 4), vec![2, 3, 4]);
}

#[test]
fn permute_cycles_through_every_combination_once() {
    // starting from {0,1}, C(4,2)-1 = 5 steps visit every 2-subset of
    // {0..3} exactly once, and one more step returns to the start
    let mut v = vec![0, 1];
    let mut seen: Vec<Vec<i32>> = vec![v.clone()];
    for _ in 0..5 {
        v = permute(v, 3);
        assert!(!seen.contains(&v));
        seen.push(v.clone());
    }
    assert_eq!(seen.len(), 6);
    v = permute(v, 3);
    assert_eq!(v, vec![0, 1]);
}

#[test]
fn sz_basis_enumerates_the_sector_exactly_once() {
    // C(4,2) = 6 configurations with two of four bits set: no duplicates,
    // correct population count on every entry
    let d4 = Dim::new(4).unwrap();
    let states = sz_basis(d4, 2);
    assert_eq!(states.len(), 6);
    let mut values: Vec<u64> = states.iter().map(|b| b.0).collect();
    for &v in values.iter() {
        assert_eq!(v.count_ones(), 2);
    }
    values.sort();
    values.dedup();
    assert_eq!(values.len(), 6);
}

#[test]
fn sz_basis_empty_sector_holds_only_zero() {
    // zero up spins is a legitimate sector: the single all-down configuration
    let d4 = Dim::new(4).unwrap();
    let states = sz_basis(d4, 0);
    assert_eq!(states.len(), 1);
    assert_eq!(states[0].0, 0);
}

#[test]
fn sz_basis_enumerates_in_descending_order() {
    // the reverse-lexicographic enumeration is exactly the descending list
    // of all sector bitmasks
    let d4 = Dim::new(4).unwrap();
    let states: Vec<u64> = sz_basis(d4, 2).iter().map(|b| b.0).collect();
    assert_eq!(states, vec![12, 10, 9, 6, 5, 3]);
}

#[test]
fn sz_basis_single_up_spin() {
    let d3 = Dim::new(3).unwrap();
    let states = sz_basis(d3, 1);
    let mut values: Vec<u64> = states.iter().map(|b| b.0).collect();
    values.sort();
    assert_eq!(values, vec![1, 2, 4]);
}
