use triangular_lattice::basis::BinaryBasis;
use triangular_lattice::bloch::BlochFuncSet;
use triangular_lattice::lookup::{coeff, dec_to_ind, find_leading_state, gen_ind_dec_conv_dicts};
use triangular_lattice::params::{Dim, K};
use triangular_lattice::sites::{all_sites, generate_bonds, interacting_sites, triangular_vert_sites, SiteVector};
use triangular_lattice::k;

fn full_basis(nx: u32, ny: u32, kx: u32, ky: u32) -> BlochFuncSet {
    let dx = Dim::new(nx).unwrap();
    let dy = Dim::new(ny).unwrap();
    let mx = K::new(kx, dx).unwrap();
    let my = K::new(ky, dy).unwrap();
    k::bloch_states(dx, dy, mx, my)
}

#[test]
fn ind_dec_conversion_round_trips() {
    // for every registered representative, looking its index up and
    // resolving the index back yields the same representative
    let set = full_basis(2, 2, 0, 0);
    let ind_to_dec = gen_ind_dec_conv_dicts(&set);
    assert_eq!(ind_to_dec.len(), set.len());
    for (i, lead) in ind_to_dec.iter().enumerate() {
        let back = dec_to_ind(&ind_to_dec, *lead).expect("registered representative not found");
        assert_eq!(back as usize, i);
        assert_eq!(ind_to_dec[back as usize].0, set.funcs[i].lead.0);
    }
}

#[test]
fn dec_to_ind_misses_unregistered_configurations() {
    let set = full_basis(3, 1, 1, 0);
    let ind_to_dec = gen_ind_dec_conv_dicts(&set);
    // the all-zeros configuration was discarded at this momentum
    assert!(dec_to_ind(&ind_to_dec, BinaryBasis(0)).is_none());
}

#[test]
fn find_leading_state_resolves_members_with_conjugated_phase() {
    // nx=4, ny=1, kx=1: the orbit of configuration 1 is 1,2,4,8 with
    // phase exponents 0,1,2,3; member 2 resolves to that orbit with the
    // conjugated unit phase exponent (4-1)%4 = 3
    let set = full_basis(4, 1, 1, 0);
    let (i, phase) = find_leading_state(BinaryBasis(2), &set).expect("member not resolved");
    assert_eq!(set.funcs[i].lead.0, 1);
    assert_eq!(phase, 3);
    // the representative itself carries phase 0
    let (j, phase0) = find_leading_state(BinaryBasis(1), &set).expect("lead not resolved");
    assert_eq!(j, i);
    assert_eq!(phase0, 0);
}

#[test]
fn find_leading_state_misses_absent_configurations() {
    let set = full_basis(3, 1, 1, 0);
    assert!(find_leading_state(BinaryBasis(0), &set).is_none());
}

#[test]
fn coeff_returns_exact_squared_norm_ratio() {
    let set = full_basis(2, 2, 0, 0);
    let a = &set.funcs[0];
    let b = &set.funcs[1];
    assert_eq!(coeff(a, b), (b.norm_sqr, a.norm_sqr));
    assert_eq!(coeff(a, a), (a.norm_sqr, a.norm_sqr));
}

#[test]
fn site_vector_hops_wrap_around() {
    let v = SiteVector::new((2, 1), 3, 3);
    assert_eq!(v.lattice_index(), 5);
    assert_eq!(v.xhop(1).lattice_index(), 3);
    assert_eq!(v.yhop(2).lattice_index(), 2);
}

#[test]
fn generate_bonds_lists_three_ranges() {
    let bonds = generate_bonds(3, 3);
    assert_eq!(bonds.len(), 3);
    for range in bonds.iter() {
        assert_eq!(range.len(), 27);
    }
}

#[test]
fn interacting_sites_are_parallel_and_never_self_paired() {
    for l in 1..=3u32 {
        let (s1, s2) = interacting_sites(3, 3, l);
        assert_eq!(s1.len(), 27);
        assert_eq!(s2.len(), 27);
        for (a, b) in s1.iter().zip(s2.iter()) {
            assert_eq!(a.0.count_ones(), 1);
            assert_eq!(b.0.count_ones(), 1);
            assert_ne!(a.0, b.0);
        }
    }
}

#[test]
fn interacting_sites_nearest_neighbors_of_origin() {
    // site 0 of a 3x3 torus bonds to sites 1 (x-step), 3 (y-step) and
    // 4 (diagonal step) at range 1
    let (s1, s2) = interacting_sites(3, 3, 1);
    assert_eq!(s1[0].0, 1 << 0);
    assert_eq!(s2[0].0, 1 << 1);
    assert_eq!(s1[1].0, 1 << 0);
    assert_eq!(s2[1].0, 1 << 3);
    assert_eq!(s1[2].0, 1 << 0);
    assert_eq!(s2[2].0, 1 << 4);
}

#[test]
fn all_sites_pairs_every_site_with_its_stride_partner() {
    let (s1, s2) = all_sites(3, 3, 1);
    assert_eq!(s1.len(), 9);
    assert_eq!(s2.len(), 9);
    for (k, (a, b)) in s1.iter().zip(s2.iter()).enumerate() {
        assert_eq!(a.0, 1u64 << k);
        assert_ne!(a.0, b.0);
    }
    // site 0 pairs with site 1 under stride 1
    assert_eq!(s2[0].0, 1 << 1);
}

#[test]
fn triangular_vert_sites_lists_both_orientations() {
    let (s1, s2, s3) = triangular_vert_sites(3, 3);
    assert_eq!(s1.len(), 18);
    assert_eq!(s2.len(), 18);
    assert_eq!(s3.len(), 18);
    // upright triangle at site 0: vertices 0, 1, 4
    assert_eq!(s1[0].0, 1 << 0);
    assert_eq!(s2[0].0, 1 << 1);
    assert_eq!(s3[0].0, 1 << 4);
    // inverted triangle at site 0: vertices 0, 1, 7 (one row down wraps)
    assert_eq!(s1[1].0, 1 << 0);
    assert_eq!(s2[1].0, 1 << 1);
    assert_eq!(s3[1].0, 1 << 7);
}
