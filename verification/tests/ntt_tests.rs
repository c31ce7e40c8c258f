use kibeurre::math_utils::{Vector, square_and_mult};
use kibeurre::ntt::{
    ZETA_0, ZETA_INV_TABLE, ZETA_TABLE, compute_inv_zeta_table, compute_zeta_table, intt, ntt,
    poly_mult,
};

const NB_TESTS: usize = 100;

fn next_random(seed: &mut u64) -> i32 {
    // xorshift64*
    *seed ^= *seed << 13;
    *seed ^= *seed >> 7;
    *seed ^= *seed << 17;

    (*seed % 3329) as i32
}

#[test]
fn print_zeta_tables() {
    let zeta_table = compute_zeta_table();
    let zeta_inv_table = compute_inv_zeta_table();
    println!("ZETA_TABLE: {:?}", zeta_table);
    println!("ZETA_INV_TABLE: {:?}", zeta_inv_table);
}

#[test]
fn computed_zeta_tables_match_the_constants() {
    assert_eq!(compute_zeta_table(), ZETA_TABLE);
    assert_eq!(compute_inv_zeta_table(), ZETA_INV_TABLE);
}

#[test]
fn test_ntt_constant_one() {
    // NTT of f(x) = 1 should result in [1, 0, 1, 0, 1, 0...]
    // because we split into degree-1 polynomials (a + bx)
    let mut coefficients = [0i32; 256];
    coefficients[0] = 1;
    let p = Vector::new(&coefficients, 3329);

    let ntt_p = ntt(p);

    for i in (0..256).step_by(2) {
        assert_eq!(ntt_p.c[i], 1, "Even index {} should be 1", i);
        assert_eq!(ntt_p.c[i + 1], 0, "Odd index {} should be 0", i + 1);
    }
}

#[test]
fn test_ntt_constant() {
    let mut coefficients = [0i32; 256];
    coefficients[0] = 1325;
    let p = Vector::new(&coefficients, 3329);

    let ntt_p = ntt(p);

    for i in (0..256).step_by(2) {
        assert_eq!(ntt_p.c[i], 1325, "Even index {} should be 1325", i);
        assert_eq!(ntt_p.c[i + 1], 0, "Odd index {} should be 0", i + 1);
    }
}

#[test]
fn test_square_and_mult() {
    let mut tmp: u32;

    for i in 0..31 {
        tmp = square_and_mult(17, i, 3329);
        let real_result = (ZETA_0 as u128).pow(i) % 3329;
        assert_eq!(tmp, real_result as u32);
    }
}

#[test]
fn test_ntt_intt_random_polynomials() {
    // Deterministic PRNG so failures are reproducible.
    let mut seed: u64 = 0x1234_5678_9ABC_DEF0;

    for test_number in 0..NB_TESTS {
        let mut coefficients = [0i32; 256];

        for coefficient in coefficients.iter_mut() {
            *coefficient = next_random(&mut seed);
        }

        let p = Vector::new(&coefficients, 3329);

        let ntt_p = ntt(p);
        let back_p = intt(ntt_p);

        for i in 0..256 {
            assert_eq!(
                back_p.c[i],
                coefficients[i],
                "NTT/INTT roundtrip failed: test {}, coefficient {}, expected {}, got {}",
                test_number,
                i,
                coefficients[i],
                back_p.c[i]
            );
        }
    }
}

#[test]
fn ntt_intt_roundtrip_reduces_large_inputs() {
    // the roundtrip gives every coefficient back reduced modulo 3329
    let mut coefficients = [0i32; 256];
    for (i, c) in coefficients.iter_mut().enumerate() {
        *c = (i as i32) * 2000 + 4000;
    }
    let back = intt(ntt(Vector::new(&coefficients, 3329)));
    for i in 0..256 {
        assert_eq!(back.c[i], coefficients[i] % 3329);
    }
}

/// Product of two polynomials modulo X^256 + 1 and 3329, the schoolbook way.
fn schoolbook(a: &[i32; 256], b: &[i32; 256]) -> [i32; 256] {
    let mut r = [0i64; 256];
    for i in 0..256 {
        for j in 0..256 {
            let p = a[i] as i64 * b[j] as i64;
            if i + j < 256 {
                r[i + j] += p;
            } else {
                r[i + j - 256] -= p;
            }
        }
    }
    let mut out = [0i32; 256];
    for i in 0..256 {
        out[i] = r[i].rem_euclid(3329) as i32;
    }
    out
}

#[test]
fn poly_mult_is_the_product_of_polynomials() {
    let mut seed: u64 = 42;
    let mut a = [0i32; 256];
    let mut b = [0i32; 256];
    for i in 0..256 {
        a[i] = next_random(&mut seed);
        b[i] = next_random(&mut seed);
    }
    let prod = intt(poly_mult(ntt(Vector::new(&a, 3329)), ntt(Vector::new(&b, 3329))));
    assert_eq!(prod.c, schoolbook(&a, &b));
}

#[test]
fn product_wraps_around_x_to_the_256() {
    // X * X^255 = X^256 = -1 in Z_q[X]/(X^256 + 1)
    let mut a = [0i32; 256];
    let mut b = [0i32; 256];
    a[1] = 1;
    b[255] = 1;
    let prod = intt(poly_mult(ntt(Vector::new(&a, 3329)), ntt(Vector::new(&b, 3329))));
    let mut expected = [0i32; 256];
    expected[0] = 3328;
    assert_eq!(prod.c, expected);
    // 3 X^2 * (2 + X^254) = 6 X^2 + 3 X^256 = -3 + 6 X^2
    let mut a = [0i32; 256];
    let mut b = [0i32; 256];
    a[2] = 3;
    b[0] = 2;
    b[254] = 1;
    let prod = intt(poly_mult(ntt(Vector::new(&a, 3329)), ntt(Vector::new(&b, 3329))));
    let mut expected = [0i32; 256];
    expected[0] = 3326;
    expected[2] = 6;
    assert_eq!(prod.c, expected);
}
