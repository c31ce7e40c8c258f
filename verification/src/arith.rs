//! Integer facts shared by the arithmetic of the library: Rust's truncating
//! remainder, and Montgomery reduction modulo 3329 with radix 2^12.
use vstd::prelude::*;
use vstd::arithmetic::div_mod::*;
use vstd::arithmetic::mul::*;

verus! {

/// Absolute value.
pub open spec fn abs(a: int) -> int {
    if a >= 0 { a } else { -a }
}

/// Remainder of the division truncated toward zero: what Rust's `%` computes
/// on signed integers (the sign follows the dividend).
pub open spec fn trunc_rem(a: int, b: int) -> int {
    if a >= 0 { abs(a) % abs(b) } else { -(abs(a) % abs(b)) }
}

/// Quotient of the division truncated toward zero: what Rust's `/` computes on
/// signed integers.
pub open spec fn trunc_div(a: int, b: int) -> int {
    if (a >= 0) == (b >= 0) { abs(a) / abs(b) } else { -(abs(a) / abs(b)) }
}

/// The coefficient modulus.
pub open spec fn q() -> int {
    3329
}

/// Standard value in `[0, q)` of an integer.
pub open spec fn mod_q(a: int) -> int {
    a % 3329
}

/// Rust's `<<` by 12 on an `i32` (bits shifted out are lost).
pub open spec fn shl12(v: i32) -> i32 {
    v << 12u32
}

/// Montgomery representative that `MontgomeryForm::new(v)` stores: `(v << 12) % 3329`.
pub open spec fn mont_encode(v: i32) -> int {
    trunc_rem(shl12(v) as int, 3329)
}

/// Montgomery reduction of `a` with `q = 3329`, `R = 4096` and `k = -q^-1 mod R = 3327`:
/// `s = a*k rem R`, `t = a + s*q`, `u = t / R`, and `u - q` when `u >= q`.
pub open spec fn mont_reduce(a: int) -> int {
    let u = (a + trunc_rem(a * 3327, 4096) * 3329) / 4096;
    if u < 3329 { u } else { u - 3329 }
}

/// The sum `a + s*q` computed by Montgomery reduction fits in an `i32`.
pub open spec fn reduce_fits(a: int) -> bool {
    i32::MIN <= a + trunc_rem(a * 3327, 4096) * 3329 <= i32::MAX
}

/// `(a * 2704) % 3329` as Rust computes it: leaves the Montgomery domain (2704 = 4096^-1 mod 3329).
pub open spec fn mont_to_standard(a: int) -> int {
    trunc_rem(a * 2704, 3329)
}

pub proof fn lemma_trunc_rem_nonneg(a: int, b: int)
    requires
        a >= 0,
        b > 0,
    ensures
        trunc_rem(a, b) == a % b,
        0 <= trunc_rem(a, b) < b,
{
    lemma_mod_bound(a, b);
}

/// The truncated remainder differs from the dividend by a multiple of the divisor,
/// and is smaller than the divisor in absolute value, with the dividend's sign.
pub proof fn lemma_trunc_rem(a: int, b: int) -> (w: int)
    requires
        b > 0,
    ensures
        a - trunc_rem(a, b) == b * w,
        a >= 0 ==> 0 <= trunc_rem(a, b) < b && w == a / b,
        a < 0 ==> -b < trunc_rem(a, b) <= 0,
        abs(trunc_rem(a, b)) < b,
{
    lemma_mod_bound(abs(a), b);
    lemma_fundamental_div_mod(abs(a), b);
    if a >= 0 {
        a / b
    } else {
        let w = -(abs(a) / b);
        assert(a - trunc_rem(a, b) == -(abs(a) - abs(a) % b));
        assert(b * (abs(a) / b) == abs(a) - abs(a) % b);
        assert(b * w == -(b * (abs(a) / b))) by {
            lemma_mul_unary_negation(b, abs(a) / b);
        }
        w
    }
}

/// A value in `[0, m)` congruent to `x` is `x % m`.
pub proof fn lemma_mod_unique(r: int, x: int, m: int)
    requires
        m > 0,
        0 <= r < m,
        (r - x) % m == 0,
    ensures
        r == x % m,
{
    lemma_mod_equivalence(r, x, m);
    lemma_small_mod(r as nat, m as nat);
}

/// `(a + m * k) % m == a % m`.
pub proof fn lemma_mod_add_multiple(a: int, k: int, m: int)
    requires
        m > 0,
    ensures
        (a + m * k) % m == a % m,
{
    lemma_mod_multiples_vanish(k, a, m);
}

/// Montgomery reduction: the result is `a * 4096^-1` modulo 3329; it lies in
/// `[0, 3329)` for `0 <= a < 3329 * 4096` and in `(-2 * 3329, 0]` for negative
/// `a > -3329 * 4096`; the intermediate sum is a multiple of 4096.
pub proof fn lemma_mont_reduce(a: int)
    ensures
        (a + trunc_rem(a * 3327, 4096) * 3329) % 4096 == 0,
        (mont_reduce(a) - 2704 * a) % 3329 == 0,
        mont_reduce(a) % 3329 == (2704 * a) % 3329,
        0 <= a < 3329 * 4096 ==> 0 <= mont_reduce(a) < 3329,
        0 <= a < 3329 * 4096 ==> mont_reduce(a) == (2704 * a) % 3329,
        -3329 * 4096 < a < 0 ==> -2 * 3329 < mont_reduce(a) <= 0,
{
    let x = a * 3327;
    let s = trunc_rem(x, 4096);
    let w = lemma_trunc_rem(x, 4096);
    let t = a + s * 3329;
    assert(t == 4096 * (2704 * a - 3329 * w)) by (nonlinear_arith)
        requires
            x == a * 3327,
            x - s == 4096 * w,
            t == a + s * 3329;
    let y = 2704 * a - 3329 * w;
    lemma_mod_multiples_basic(y, 4096);
    assert(t % 4096 == 0) by {
        lemma_mul_is_commutative(4096, y);
    }
    lemma_div_multiples_vanish(y, 4096);
    assert(t / 4096 == y);
    let u = y;
    if u < 3329 {
        assert(mont_reduce(a) == y);
        assert(mont_reduce(a) - 2704 * a == 3329 * (-w));
        lemma_mod_multiples_basic(-w, 3329);
        lemma_mul_is_commutative(3329, -w);
    } else {
        assert(mont_reduce(a) == y - 3329);
        assert(mont_reduce(a) - 2704 * a == 3329 * (-w - 1));
        lemma_mod_multiples_basic(-w - 1, 3329);
        lemma_mul_is_commutative(3329, -w - 1);
    }
    lemma_mod_equivalence(mont_reduce(a), 2704 * a, 3329);
    if 0 <= a < 3329 * 4096 {
        assert(0 <= s < 4096);
        assert(0 <= t < 2 * 3329 * 4096);
        assert(0 <= u < 2 * 3329) by {
            lemma_div_is_ordered(t, 2 * 3329 * 4096 - 1, 4096);
            lemma_div_pos_is_pos(t, 4096);
        }
        lemma_mod_unique(mont_reduce(a), 2704 * a, 3329);
    }
    if -3329 * 4096 < a < 0 {
        assert(x < 0);
        assert(-4096 < s <= 0);
        assert(-2 * 3329 * 4096 < t <= 0);
        assert(-2 * 3329 < u <= 0) by {
            lemma_div_is_ordered(-2 * 3329 * 4096 + 1, t, 4096);
            lemma_div_is_ordered(t, 0, 4096);
        }
    }
}

/// Shifting left by 12 multiplies by 4096 when nothing is shifted out.
pub proof fn lemma_shl12(v: i32)
    requires
        -524288 <= v < 524288,
    ensures
        shl12(v) == v * 4096,
{
    assert((v << 12u32) == v * 4096) by (bit_vector)
        requires
            -524288 <= v < 524288,
    ;
}

/// An arithmetic shift right by 12 divides a multiple of 4096 exactly.
pub proof fn lemma_shr12(t: i32)
    requires
        (t as int) % 4096 == 0,
    ensures
        (t >> 12u32) as int == (t as int) / 4096,
{
    let y = (t as int) / 4096;
    lemma_fundamental_div_mod(t as int, 4096);
    assert(t == 4096 * y);
    assert(-524288 <= y < 524288);
    let yy = y as i32;
    assert((t >> 12u32) == yy) by (bit_vector)
        requires
            t == 4096 * yy,
            -524288 <= yy < 524288,
    ;
}

/// The Montgomery representative of `0 <= v < 2^19` is `4096 * v % 3329`, in `[0, 3329)`.
pub proof fn lemma_mont_encode(v: i32)
    requires
        0 <= v < 524288,
    ensures
        mont_encode(v) == (4096 * v) % 3329,
        0 <= mont_encode(v) < 3329,
{
    lemma_shl12(v);
    lemma_trunc_rem_nonneg(4096 * v, 3329);
}

/// Leaving the Montgomery domain from a nonnegative representative gives `2704 * a % 3329`.
pub proof fn lemma_mont_to_standard(a: int)
    requires
        0 <= a,
    ensures
        mont_to_standard(a) == (2704 * a) % 3329,
        0 <= mont_to_standard(a) < 3329,
{
    lemma_trunc_rem_nonneg(a * 2704, 3329);
}

/// 2704 is the inverse of 4096 modulo 3329: `(2704 * 4096 * x) % 3329 == x % 3329`.
pub proof fn lemma_r_inverse(x: int)
    ensures
        (2704 * (4096 * x)) % 3329 == x % 3329,
{
    assert(2704 * (4096 * x) == x + 3329 * (3327 * x)) by (nonlinear_arith);
    lemma_mod_add_multiple(x, 3327 * x, 3329);
}

/// Multiplying two values through Montgomery form and leaving it gives their product
/// modulo 3329, for `0 <= a, b < 2^19`.
pub proof fn lemma_mont_mul_standard(a: i32, b: i32)
    requires
        0 <= a < 524288,
        0 <= b < 524288,
    ensures
        0 <= mont_encode(a) * mont_encode(b) < 3329 * 3329,
        reduce_fits(mont_encode(a) * mont_encode(b)),
        0 <= mont_reduce(mont_encode(a) * mont_encode(b)) < 3329,
        mont_to_standard(mont_reduce(mont_encode(a) * mont_encode(b))) == (a * b) % 3329,
{
    lemma_mont_encode(a);
    lemma_mont_encode(b);
    let ea = mont_encode(a);
    let eb = mont_encode(b);
    let p = ea * eb;
    assert(0 <= p < 3329 * 3329) by (nonlinear_arith)
        requires
            0 <= ea < 3329,
            0 <= eb < 3329,
            p == ea * eb;
    lemma_trunc_rem_nonneg(p * 3327, 4096);
    lemma_mont_reduce(p);
    let r = mont_reduce(p);
    lemma_mont_to_standard(r);
    // r == 2704 * p % q, and the result is 2704 * r % q
    assert((2704 * r) % 3329 == (2704 * (2704 * p)) % 3329) by {
        lemma_mul_mod_noop_right(2704, 2704 * p, 3329);
    }
    // ea == 4096 a mod q, eb == 4096 b mod q
    assert(p % 3329 == ((4096 * a) * (4096 * b)) % 3329) by {
        lemma_mul_mod_noop_general(4096 * a, 4096 * b, 3329);
    }
    assert((2704 * (2704 * p)) % 3329 == (2704 * (2704 * ((4096 * a) * (4096 * b)))) % 3329) by {
        lemma_mul_mod_noop_right(2704int * 2704, p, 3329);
        lemma_mul_mod_noop_right(2704int * 2704, (4096 * a) * (4096 * b), 3329);
        lemma_mul_is_associative(2704, 2704, p);
        lemma_mul_is_associative(2704, 2704, (4096 * a) * (4096 * b));
    }
    assert(2704 * (2704 * ((4096 * a) * (4096 * b))) == 2704 * (4096 * (2704 * (4096 * (a * b)))))
        by (nonlinear_arith);
    lemma_r_inverse(2704 * (4096 * (a * b)));
    lemma_r_inverse(a * b);
}

/// The product computed by `MontgomeryForm::new(x).mult(y).to_standard()`.
pub open spec fn mont_product(x: i32, y: i32) -> int {
    mont_to_standard(mont_reduce(mont_encode(x) * mont_encode(y)))
}

/// Standard value, in `[0, 3329)`, of a Montgomery representative: `a * 4096^-1 mod 3329`.
pub open spec fn mval(a: int) -> int {
    (2704 * a) % 3329
}

pub proof fn lemma_mont_encode_bound(v: i32)
    ensures
        -3329 < mont_encode(v) < 3329,
{
    lemma_trunc_rem(shl12(v) as int, 3329);
}

/// Montgomery reduction of an input smaller than `3329^2` in absolute value:
/// the intermediate sum fits, and the result is in `(-2 * 3329, 3329)`.
pub proof fn lemma_mont_reduce_small(p: int)
    requires
        -3329 * 3329 < p < 3329 * 3329,
    ensures
        reduce_fits(p),
        -2 * 3329 < mont_reduce(p) < 3329,
        p >= 0 ==> 0 <= mont_reduce(p) && mont_reduce(p) == mval(p),
{
    lemma_trunc_rem(p * 3327, 4096);
    lemma_mont_reduce(p);
}

/// `new(x).mult(y).to_standard()` never overflows, whatever `x` and `y`, and gives
/// `x * y mod 3329` for `0 <= x, y < 2^19`.
pub proof fn lemma_mont_product(x: i32, y: i32)
    ensures
        mult_fits_spec(mont_encode(x), y),
        i32::MIN <= mont_reduce(mont_encode(x) * mont_encode(y)) * 2704 <= i32::MAX,
        -3329 < mont_product(x, y) < 3329,
        0 <= x < 524288 && 0 <= y < 524288 ==> mont_product(x, y) == (x * y) % 3329,
{
    lemma_mont_encode_bound(x);
    lemma_mont_encode_bound(y);
    let ex = mont_encode(x);
    let ey = mont_encode(y);
    assert(-3329 * 3329 < ex * ey < 3329 * 3329) by (nonlinear_arith)
        requires
            -3329 < ex < 3329,
            -3329 < ey < 3329;
    lemma_mont_reduce_small(ex * ey);
    lemma_trunc_rem(mont_reduce(ex * ey) * 2704, 3329);
    if 0 <= x < 524288 && 0 <= y < 524288 {
        lemma_mont_mul_standard(x, y);
    }
}

/// The product of a representative and an encoded value fits, and so does its reduction.
pub open spec fn mult_fits_spec(a: int, b: i32) -> bool {
    &&& i32::MIN <= a * mont_encode(b) <= i32::MAX
    &&& reduce_fits(a * mont_encode(b))
}

/// Standard values of sums and differences of representatives.
pub proof fn lemma_mval_linear(a: int, b: int)
    ensures
        mval(a + b) == (mval(a) + mval(b)) % 3329,
        mval(a + b - 3329) == (mval(a) + mval(b)) % 3329,
        mval(a - b) == (mval(a) - mval(b)) % 3329,
        mval(a - b + 3329) == (mval(a) - mval(b)) % 3329,
{
    lemma_add_mod_noop(2704 * a, 2704 * b, 3329);
    lemma_sub_mod_noop(2704 * a, 2704 * b, 3329);
    assert(2704 * (a + b - 3329) == (2704 * a + 2704 * b) + 3329 * (-2704));
    lemma_mod_add_multiple(2704 * a + 2704 * b, -2704, 3329);
    assert(2704 * (a - b + 3329) == (2704 * a - 2704 * b) + 3329 * 2704);
    lemma_mod_add_multiple(2704 * a - 2704 * b, 2704, 3329);
}

/// Putting `0 <= v < 2^19` in Montgomery form keeps its value modulo 3329.
pub proof fn lemma_mval_encode(v: i32)
    requires
        0 <= v < 524288,
    ensures
        0 <= mont_encode(v) < 3329,
        mval(mont_encode(v)) == v % 3329,
{
    lemma_mont_encode(v);
    lemma_mul_mod_noop_right(2704, 4096 * v, 3329);
    lemma_r_inverse(v as int);
}

/// `2704 * (2704 * a * e) == z * 2704 * a` modulo 3329 when `e == 4096 * z` modulo 3329.
proof fn lemma_mval_mult_value(a: int, z: int, e: int, r: int)
    requires
        e == (4096 * z) % 3329,
        r == (2704 * (a * e)) % 3329,
    ensures
        (2704 * r) % 3329 == (z * ((2704 * a) % 3329)) % 3329,
{
    let x = 2704 * (2704 * a);
    assert((2704 * r) % 3329 == (x * e) % 3329) by {
        lemma_mul_mod_noop_right(2704, 2704 * (a * e), 3329);
        assert(2704 * (2704 * (a * e)) == x * e) by (nonlinear_arith)
            requires
                x == 2704 * (2704 * a),
        ;
    }
    assert((x * e) % 3329 == (x * (4096 * z)) % 3329) by {
        lemma_mul_mod_noop_right(x, 4096 * z, 3329);
    }
    assert((x * (4096 * z)) % 3329 == (z * (2704 * a)) % 3329) by {
        assert(x * (4096 * z) == 2704 * (4096 * (z * (2704 * a)))) by (nonlinear_arith)
            requires
                x == 2704 * (2704 * a),
        ;
        lemma_r_inverse(z * (2704 * a));
    }
    lemma_mul_mod_noop_right(z, 2704 * a, 3329);
}

/// A Montgomery product of a representative in `[0, 3329]` by a standard value
/// `z` in `[0, 3329)`: it fits, lies in `[0, 3329)`, and stands for `z` times the value.
pub proof fn lemma_mval_mult(a: int, z: i32)
    requires
        0 <= a <= 3329,
        0 <= z < 3329,
    ensures
        mult_fits_spec(a, z),
        0 <= mont_reduce(a * mont_encode(z)) < 3329,
        mval(mont_reduce(a * mont_encode(z))) == (z * mval(a)) % 3329,
{
    lemma_mont_encode(z);
    let e = mont_encode(z);
    assert(0 <= a * e < 3329 * 3329) by (nonlinear_arith)
        requires
            0 <= a <= 3329,
            0 <= e < 3329,
    ;
    lemma_mont_reduce_small(a * e);
    lemma_mval_mult_value(a, z as int, e, mont_reduce(a * e));
}

/// Reducing a representative in `[0, 3329]` gives its standard value.
pub proof fn lemma_mval_reduce(a: int)
    requires
        0 <= a <= 3329,
    ensures
        reduce_fits(a),
        mont_reduce(a) == mval(a),
        0 <= mval(a) < 3329,
{
    lemma_mont_reduce_small(a);
    lemma_mod_bound(2704 * a, 3329);
}

} // verus!
