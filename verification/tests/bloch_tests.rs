use triangular_lattice::bloch::{BlochFunc, BlochFuncSet};
use triangular_lattice::params::{Dim, K};
use triangular_lattice::{k, ks};

fn full_basis(nx: u32, ny: u32, kx: u32, ky: u32) -> BlochFuncSet {
    let dx = Dim::new(nx).unwrap();
    let dy = Dim::new(ny).unwrap();
    let mx = K::new(kx, dx).unwrap();
    let my = K::new(ky, dy).unwrap();
    k::bloch_states(dx, dy, mx, my)
}

fn sector_basis(nx: u32, ny: u32, kx: u32, ky: u32, nup: u32) -> BlochFuncSet {
    let dx = Dim::new(nx).unwrap();
    let dy = Dim::new(ny).unwrap();
    let mx = K::new(kx, dx).unwrap();
    let my = K::new(ky, dy).unwrap();
    ks::bloch_states(dx, dy, mx, my, nup)
}

fn func_with_lead(set: &BlochFuncSet, lead: u64) -> Option<&BlochFunc> {
    set.funcs.iter().find(|f| f.lead.0 == lead)
}

#[test]
fn zero_momentum_2x2_has_singleton_extremal_orbits() {
    // the all-zeros and all-ones configurations each form their own
    // singleton orbit; all four phases are 1, so the coefficient is 4 and
    // the squared norm is 16 (the exact phase-sum value)
    let set = full_basis(2, 2, 0, 0);
    for lead in [0u64, 15u64] {
        let f = func_with_lead(&set, lead).expect("extremal orbit missing");
        assert_eq!(f.decs.len(), 1);
        assert_eq!(f.decs[0].dec.0, lead);
        assert_eq!(f.decs[0].phase, 0);
        assert_eq!(f.decs[0].mult, 4);
        assert_eq!(f.norm_sqr, 16);
    }
}

#[test]
fn zero_momentum_2x2_partitions_the_whole_space() {
    // at zero momentum no orbit is discarded: every one of the 16
    // configurations appears in exactly one Bloch function
    let set = full_basis(2, 2, 0, 0);
    let mut owners = [0u32; 16];
    for f in set.funcs.iter() {
        for e in f.decs.iter() {
            owners[e.dec.0 as usize] += 1;
        }
    }
    assert!(owners.iter().all(|&c| c == 1));
    let total: usize = set.funcs.iter().map(|f| f.decs.len()).sum();
    assert_eq!(total, 16);
}

#[test]
fn membership_counts_add_up_with_discarded_orbits() {
    // nx=3, ny=1, kx=1: the translation-invariant configurations (all
    // zeros, all ones) interfere destructively and are discarded; the sum
    // of emitted orbit sizes plus the discarded orbit sizes is exactly 8
    let set = full_basis(3, 1, 1, 0);
    let mut covered = [false; 8];
    let mut emitted_total = 0usize;
    for f in set.funcs.iter() {
        for e in f.decs.iter() {
            assert!(!covered[e.dec.0 as usize]);
            covered[e.dec.0 as usize] = true;
            emitted_total += 1;
        }
    }
    let discarded: usize = covered.iter().filter(|&&c| !c).count();
    assert_eq!(emitted_total + discarded, 8);
    // exactly the two translation-invariant configurations are discarded
    assert!(!covered[0]);
    assert!(!covered[7]);
    assert_eq!(discarded, 2);
}

#[test]
fn three_cycle_orbit_cancels_at_nontrivial_momentum() {
    // nx=3, ny=1, kx=1: a configuration fixed by every translation gets
    // the three phase contributions 1, w, w^2, which cancel, so neither
    // the all-zeros nor the all-ones configuration yields a Bloch function
    let set = full_basis(3, 1, 1, 0);
    assert!(func_with_lead(&set, 0).is_none());
    assert!(func_with_lead(&set, 7).is_none());
    // a free 3-cycle orbit survives: each member once, unit coefficients
    let f = func_with_lead(&set, 1).expect("orbit of configuration 1 missing");
    assert_eq!(f.decs.len(), 3);
    assert_eq!(f.norm_sqr, 3);
    let mut members: Vec<u64> = f.decs.iter().map(|e| e.dec.0).collect();
    members.sort();
    assert_eq!(members, vec![1, 2, 4]);
}

#[test]
fn full_basis_is_sorted_by_lead() {
    let set = full_basis(2, 2, 1, 1);
    for w in set.funcs.windows(2) {
        assert!(w[0].lead.0 < w[1].lead.0);
    }
}

#[test]
fn full_basis_leads_are_orbit_minima() {
    // the full-space scan runs in increasing value order, so every
    // representative is the numerically smallest member of its orbit
    let set = full_basis(2, 2, 1, 0);
    for f in set.funcs.iter() {
        for e in f.decs.iter() {
            assert!(e.dec.0 >= f.lead.0);
        }
    }
}

#[test]
fn sector_basis_leads_are_orbit_maxima() {
    // the sector scan runs down the descending enumeration, so every
    // representative is the numerically largest member of its orbit
    let set = sector_basis(2, 2, 1, 0, 2);
    for f in set.funcs.iter() {
        for e in f.decs.iter() {
            assert!(e.dec.0 <= f.lead.0);
        }
    }
}

#[test]
fn sector_basis_conserves_magnetization() {
    // nx=2, ny=2, two up spins, zero momentum: every emitted orbit member
    // has exactly two bits set, and the set is sorted by representative
    let set = sector_basis(2, 2, 0, 0, 2);
    assert!(set.funcs.len() > 0);
    for f in set.funcs.iter() {
        for e in f.decs.iter() {
            assert_eq!(e.dec.0.count_ones(), 2);
        }
    }
    for w in set.funcs.windows(2) {
        assert!(w[0].lead.0 < w[1].lead.0);
    }
}

#[test]
fn sector_basis_all_spins_down() {
    // the zero-magnetization-end sector holds only the all-down
    // configuration, a singleton orbit with coefficient 4 at zero momentum
    let set = sector_basis(2, 2, 0, 0, 0);
    assert_eq!(set.funcs.len(), 1);
    assert_eq!(set.funcs[0].lead.0, 0);
    assert_eq!(set.funcs[0].norm_sqr, 16);
}

#[test]
fn sector_basis_matches_full_basis_at_fixed_magnetization() {
    // the two-up-spin orbits of the full 2x2 basis at zero momentum are
    // exactly the orbits the sector scan finds
    let full = full_basis(2, 2, 0, 0);
    let sector = sector_basis(2, 2, 0, 0, 2);
    let full_sector_norms: Vec<u64> = full
        .funcs
        .iter()
        .filter(|f| f.lead.0.count_ones() == 2)
        .map(|f| f.norm_sqr)
        .collect();
    let sector_norms: Vec<u64> = sector.funcs.iter().map(|f| f.norm_sqr).collect();
    assert_eq!(full_sector_norms, sector_norms);
    let total_members: usize = sector.funcs.iter().map(|f| f.decs.len()).sum();
    assert_eq!(total_members, 6);
}
