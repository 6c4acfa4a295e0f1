use triangular_lattice::params::{Dim, K};

#[test]
fn dim_accepts_only_supported_sizes() {
    assert!(Dim::new(0).is_none());
    assert!(Dim::new(1).is_some());
    assert!(Dim::new(62).is_some());
    assert!(Dim::new(63).is_none());
    assert_eq!(Dim::new(4).unwrap().raw_int(), 4);
}

#[test]
fn momentum_is_validated_against_its_dimension() {
    let d = Dim::new(4).unwrap();
    assert!(K::new(0, d).is_some());
    assert!(K::new(3, d).is_some());
    assert!(K::new(4, d).is_none());
    assert_eq!(K::new(2, d).unwrap().raw_int(), 2);
}
