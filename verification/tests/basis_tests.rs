use triangular_lattice::basis::{
    translate_x, translate_y, exchange_spin_flips, repeated_spins, pow2u64, BinaryBasis,
};

#[test]
fn as_u64_returns_raw_value() {
    assert_eq!(BinaryBasis(37).as_u64(), 37);
}

#[test]
fn pow2u64_values() {
    assert_eq!(pow2u64(0), 1);
    assert_eq!(pow2u64(5), 32);
    assert_eq!(pow2u64(62), 4611686018427387904);
}

#[test]
fn translate_x_moves_one_column() {
    // 2x2 lattice: site (0,0) moves to (1,0), i.e. bit 0 to bit 1
    assert_eq!(translate_x(BinaryBasis(1), 2, 2).0, 2);
    // bit 1 wraps back to bit 0 within its row
    assert_eq!(translate_x(BinaryBasis(2), 2, 2).0, 1);
    // rows rotate independently
    assert_eq!(translate_x(BinaryBasis(0b0110), 2, 2).0, 0b1001);
}

#[test]
fn translate_y_moves_one_row() {
    // 2x2 lattice: the bottom row moves to the top
    assert_eq!(translate_y(BinaryBasis(0b0010), 2, 2).0, 0b1000);
    assert_eq!(translate_y(BinaryBasis(0b1000), 2, 2).0, 0b0010);
    assert_eq!(translate_y(BinaryBasis(0b0011), 2, 2).0, 0b1100);
}

#[test]
fn translate_x_has_order_nx_on_3x2() {
    // applying translate_x nx times returns every configuration
    let nx = 3;
    let ny = 2;
    for dec in 0..64u64 {
        let mut cur = BinaryBasis(dec);
        for _ in 0..nx {
            cur = translate_x(cur, nx, ny);
        }
        assert_eq!(cur.0, dec);
    }
}

#[test]
fn translate_y_has_order_ny_on_2x3() {
    let nx = 2;
    let ny = 3;
    for dec in 0..64u64 {
        let mut cur = BinaryBasis(dec);
        for _ in 0..ny {
            cur = translate_y(cur, nx, ny);
        }
        assert_eq!(cur.0, dec);
    }
}

#[test]
fn translations_are_bijections_on_2x2() {
    // both translations permute the 16 configurations
    let mut seen_x = [false; 16];
    let mut seen_y = [false; 16];
    for dec in 0..16u64 {
        let tx = translate_x(BinaryBasis(dec), 2, 2).0 as usize;
        let ty = translate_y(BinaryBasis(dec), 2, 2).0 as usize;
        assert!(!seen_x[tx]);
        assert!(!seen_y[ty]);
        seen_x[tx] = true;
        seen_y[ty] = true;
    }
}

#[test]
fn exchange_spin_flips_cases() {
    // dec = 0b01: site 1 up, site 2 down
    assert_eq!(exchange_spin_flips(BinaryBasis(0b01), BinaryBasis(0b01), BinaryBasis(0b10)), (true, false));
    assert_eq!(exchange_spin_flips(BinaryBasis(0b10), BinaryBasis(0b01), BinaryBasis(0b10)), (false, true));
    assert_eq!(exchange_spin_flips(BinaryBasis(0b11), BinaryBasis(0b01), BinaryBasis(0b10)), (false, false));
    assert_eq!(exchange_spin_flips(BinaryBasis(0b00), BinaryBasis(0b01), BinaryBasis(0b10)), (false, false));
}

#[test]
fn repeated_spins_cases() {
    assert_eq!(repeated_spins(BinaryBasis(0b11), BinaryBasis(0b01), BinaryBasis(0b10)), (true, false));
    assert_eq!(repeated_spins(BinaryBasis(0b00), BinaryBasis(0b01), BinaryBasis(0b10)), (false, true));
    assert_eq!(repeated_spins(BinaryBasis(0b01), BinaryBasis(0b01), BinaryBasis(0b10)), (false, false));
}
