use kibeurre::math_utils::{
    Matrix, MontgomeryForm, PolyMatrix, PolyVector, Vector, empty_polymatrix, empty_polyvector,
    empty_vector, mod_inv, square_and_mult,
};
use kibeurre::parameters::{K, N, Q};
use kibeurre::ntt::ZETA_0;
use rand::RngCore;

#[test]
fn test_vector_add_with_modulo() {
    // (2000 + 1500) % 3329 = 3500 % 3329 = 171
    // (3328 + 1) % 3329 = 0
    let mut v1 = Vector::new(&[2000, 3328], 3329);
    let v2 = Vector::new(&[1500, 1], 3329);
    v1.add(v2);

    assert_eq!(v1.c, [171, 0], "L'addition modulaire a échoué");
}

#[test]
fn test_vector_dot_product_with_modulo() {
    // (1000 * 4 % 3329) + (2 * 500 % 3329)
    // (4000 % 3329) + (1000 % 3329) = 671 + 1000 = 1671
    let mut v1 = Vector::new(&[1000, 2], 3329);
    let v2 = Vector::new(&[4, 500], 3329);
    let result = v1.dot(v2);

    assert_eq!(result, 1671, "Le produit scalaire est faux !");
}

#[test]
fn test_vector_scalar_mult_modulo() {
    // (2000 * 2) % 3329 = 4000 % 3329 = 671
    // (3000 * 2) % 3329 = 6000 % 3329 = 2671
    let mut v = Vector::new(&[2000, 3000], 3329);
    v.scalar_mult(2);

    assert_eq!(v.c, [671, 2671], "La multiplication par un scalaire n'applique pas encore le modulo");
}

#[test]
fn test_matrix_matmul_modulo() {
    // Row 0, Col 0: (2000*2 + 1000*1) % 3329 = 5000 % 3329 = 1671
    // Row 0, Col 1: (2000*1 + 1000*2) % 3329 = 4000 % 3329 = 671
    let mut m1 = Matrix::new([[2000, 1000], [0, 1]], 3329);
    let m2 = Matrix::new([[2, 1], [1, 2]], 3329);
    let res = m1.matmul(m2);

    assert_eq!(res.row_vecs[0].c[0], 1671, "Matmul R0C0 incorrect");
    assert_eq!(res.row_vecs[0].c[1], 671, "Matmul R0C1 incorrect");
    assert_eq!(res.row_vecs[1].c[0], 1, "Matmul R1C0 incorrect");
    assert_eq!(res.row_vecs[1].c[1], 2, "Matmul R1C1 incorrect");
}

#[test]
fn test_montgomery_form() {
    let mut rng = rand::rng();
    for _ in 0..1000 {
        let a: i32 = (rng.next_u32() % (1 << 14)).try_into().unwrap();
        let _m: i32 = (rng.next_u32() % (1 << 14)).try_into().unwrap();

        let mtg = MontgomeryForm::new(a);
        let res = mtg.mult(_m).to_standard();
        let true_res = (a * _m) % 3329;
        assert_eq!(res, true_res, "reduction failed : {res} != {true_res}");
    }
}

#[test]
fn montgomery_product_law_on_edge_values() {
    for a in [0i32, 1, 2, 3328, 3329, 4095, 4096, 100000, 524287] {
        for b in [0i32, 1, 1665, 3328, 524287] {
            let mut m = MontgomeryForm::new(a).mult(b);
            let expected = ((a as i64 * b as i64) % 3329) as i32;
            assert_eq!(m.to_standard(), expected);
        }
    }
}

#[test]
fn montgomery_getters_and_setters() {
    let mut m = MontgomeryForm::new(5);
    m.set_n(7);
    m.set_a(9);
    assert_eq!(m.get_a(), 9);
    let mut r = MontgomeryForm::new(10);
    // reduction of the representative brings the standard value back
    assert_eq!(r.reduction(), 10);
}

#[test]
fn vector_sub_is_modular() {
    let mut v1 = Vector::new(&[5, 0, 3328], 3329);
    let v2 = Vector::new(&[7, 1, 3328], 3329);
    v1.sub(v2);
    assert_eq!(v1.c, [3327, 3328, 0]);
}

#[test]
fn vector_get_set_and_bytes() {
    let mut v = Vector::new(&[1, -1], 3329);
    v.set(0, 258);
    assert_eq!(v.get(0), 258);
    assert_eq!(v.get_bytes(), vec![2, 1, 0, 0, 255, 255, 255, 255]);
}

#[test]
fn empty_constructors_are_zero() {
    let v = empty_vector();
    assert!(v.c.iter().all(|&x| x == 0));
    assert_eq!(v.m, Q);
    let pv = empty_polyvector();
    assert!(pv.c.iter().all(|p| p.c.iter().all(|&x| x == 0)));
    let pm = empty_polymatrix();
    assert!(pm.row_vecs.iter().all(|r| r.c.iter().all(|p| p.c.iter().all(|&x| x == 0))));
    assert_eq!(pv.c.len(), K);
    assert_eq!(v.c.len(), N);
}

#[test]
fn polyvector_add_and_scalar_mult() {
    let mut a = empty_polyvector();
    let mut b = empty_polyvector();
    a.c[0].c[0] = 3000;
    b.c[0].c[0] = 400;
    b.c[2].c[5] = 7;
    a.add(b);
    assert_eq!(a.c[0].c[0], 71);
    assert_eq!(a.c[2].c[5], 7);
    a.scalar_mult(2);
    assert_eq!(a.c[0].c[0], 142);
    assert_eq!(a.c[2].c[5], 14);
    a.set(1, Vector::new(&[9; 256], Q));
    assert_eq!(a.get(1).c[3], 9);
}

#[test]
fn polyvector_ntt_dot_of_constants() {
    // in the transformed domain the constant polynomial 1 is (1, 0) in every pair
    let mut one = [0i32; 256];
    for i in (0..256).step_by(2) {
        one[i] = 1;
    }
    let mut three = [0i32; 256];
    for i in (0..256).step_by(2) {
        three[i] = 3;
    }
    let a = PolyVector::new(&[Vector::new(&one, Q); 3], Q);
    let b = PolyVector::new(&[Vector::new(&three, Q); 3], Q);
    let d = a.ntt_dot(b);
    for i in (0..256).step_by(2) {
        assert_eq!(d.c[i], 9);
        assert_eq!(d.c[i + 1], 0);
    }
}

#[test]
fn polymatrix_transpose_twice_is_identity() {
    let mut m = empty_polymatrix();
    let mut p = empty_vector();
    p.c[0] = 5;
    m.set_coef(2, 0, p);
    let t = m.transpose();
    assert_eq!(t.row_vecs[2].c[0].c[0], 5);
    let back = t.transpose();
    assert_eq!(back.row_vecs[0].c[2].c[0], 5);
    assert_eq!(back.col_vecs[2].c[0].c[0], 5);
}

#[test]
fn polymatrix_rows_and_columns() {
    let mut m: PolyMatrix<3, 3> = empty_polymatrix();
    let row = PolyVector::new(&[Vector::new(&[4; 256], Q); 3], Q);
    m.set_row(1, row);
    assert_eq!(m.get_row(1).c[2].c[7], 4);
    assert_eq!(m.col_vecs[2].c[1].c[7], 4);
    let col = PolyVector::new(&[Vector::new(&[6; 256], Q); 3], Q);
    m.set_col(0, col);
    assert_eq!(m.col_vecs[0].c[2].c[0], 6);
}

#[test]
fn matrix_mult_vec_rows_cols() {
    let mut m = Matrix::new([[1, 2], [3, 4]], 3329);
    let r = m.mult_vec(Vector::new(&[10, 100], 3329));
    assert_eq!(r.c, [210, 430]);
    m.set_row(0, Vector::new(&[5, 6], 3329));
    assert_eq!(m.get_row(0).c, [5, 6]);
    assert_eq!(m.col_vecs[1].c[0], 6);
    m.set_coef(1, 1, 9);
    assert_eq!(m.row_vecs[1].c[1], 9);
    m.set_col(1, Vector::new(&[7, 8], 3329));
    assert_eq!(m.col_vecs[1].c, [7, 8]);
}

#[test]
fn square_and_mult_small_exponents() {
    assert_eq!(square_and_mult(17, 0, 3329), 1);
    assert_eq!(square_and_mult(17, 1, 3329), 17);
    // 17 is a primitive 256th root of unity modulo 3329
    assert_eq!(square_and_mult(17, 128, 3329), 3328);
    assert_eq!(square_and_mult(ZETA_0 as u32, 256, 3329), 1);
}

#[test]
fn mod_inv_gives_the_modular_inverse() {
    // 17 * 1175 = 1 (mod 3329): the two roots of unity of the transform
    assert_eq!(mod_inv(17, 3329), 1175);
    assert_eq!(mod_inv(1175, 3329), 17);
    assert_eq!(mod_inv(3, 7), 5);
    assert_eq!(mod_inv(-3, 7), 2);
    assert_eq!(mod_inv(1729, 3329), 1600);
    // no inverse: 2 and 4 share the factor 2
    let r = mod_inv(2, 4);
    assert!((0..4).contains(&r) && (2 * r) % 4 != 1);
}

#[test]
fn set_col_updates_every_row() {
    let mut m = Matrix::<2, 2>::new([[1, 2], [3, 4]], 3329);
    m.set_col(0, Vector::new(&[5, 6], 3329));
    assert_eq!(m.get_row(0).c, [5, 2]);
    assert_eq!(m.get_row(1).c, [6, 4]);
    assert_eq!(m.col_vecs[0].c, [5, 6]);
    assert_eq!(m.col_vecs[1].c, [2, 4]);
}

#[test]
fn matrices_of_any_shape() {
    let m = Matrix::<1, 3>::new([[1, 2, 3]], 3329);
    assert_eq!(m.get_row(0).c, [1, 2, 3]);
    for j in 0..3 {
        assert_eq!(m.col_vecs[j].c, [j as i32 + 1]);
    }
}
