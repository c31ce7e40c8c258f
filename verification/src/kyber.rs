//! Kyber itself: noise sampling, compression, and the CPA encryption scheme
//! (key pair from `A`, `s`, `e`; encryption; decryption).
use vstd::prelude::*;
use vstd::arithmetic::power2::{pow2, lemma_pow2_strictly_increases, lemma2_to64};
use vstd::arithmetic::div_mod::*;
use vstd::bits::lemma_u32_shl_is_mul;
use crate::parameters::{N, K, Q, ETA_1, ETA_2, D_U, D_V};
use crate::math_utils::{
    Vector, PolyVector, PolyMatrix, coeffs, pv_model, ntt_dot_coef, all_reduced, rows_reduced,
    cols_reduced, lemma_ntt_dot_coef_bound, rem_defined, lemma_signed_rem,
};
use crate::ntt::{ntt, intt, ntt_input, is_reduced};
use crate::ntt_spec::{ntt_spec, intt_spec};
use crate::primitives::{shake256, shake256_bytes};
use crate::arith::{trunc_rem, trunc_div, lemma_trunc_rem, mont_product};

verus! {

/// Bit `i` of a byte string read least significant bit first.
pub open spec fn bit_at(bytes: Seq<u8>, i: int) -> int {
    ((bytes[i / 8] >> ((i % 8) as u8)) & 1u8) as int
}

/// Number of set bits among the `count` bits starting at bit `start`.
pub open spec fn bits_sum(bytes: Seq<u8>, start: int, count: int) -> int
    decreases count,
{
    if count <= 0 {
        0
    } else {
        bits_sum(bytes, start, count - 1) + bit_at(bytes, start + count - 1)
    }
}

/// Centered binomial sample `i`: the bits `2*eta*i .. 2*eta*i + eta` minus the
/// next `eta` bits.
pub open spec fn cbd_spec(bytes: Seq<u8>, eta: int, i: int) -> int {
    bits_sum(bytes, 2 * eta * i, eta) - bits_sum(bytes, 2 * eta * i + eta, eta)
}

/// A sum of bits only depends on the bits it covers.
proof fn lemma_bits_sum_local(b1: Seq<u8>, b2: Seq<u8>, start: int, count: int)
    requires
        forall|q: int| start <= q < start + count ==> #[trigger] bit_at(b1, q) == bit_at(b2, q),
    ensures
        bits_sum(b1, start, count) == bits_sum(b2, start, count),
    decreases count,
{
    if count > 0 {
        lemma_bits_sum_local(b1, b2, start, count - 1);
        assert(bit_at(b1, start + count - 1) == bit_at(b2, start + count - 1));
    }
}

/// Setting one bit that a sum covers adds one to the sum.
proof fn lemma_bits_sum_flip(b1: Seq<u8>, b2: Seq<u8>, start: int, count: int, p: int)
    requires
        start <= p < start + count,
        bit_at(b1, p) == 0,
        bit_at(b2, p) == 1,
        forall|q: int| start <= q < start + count && q != p ==> #[trigger] bit_at(b1, q) == bit_at(b2, q),
    ensures
        bits_sum(b2, start, count) == bits_sum(b1, start, count) + 1,
    decreases count,
{
    if p == start + count - 1 {
        lemma_bits_sum_local(b1, b2, start, count - 1);
    } else {
        lemma_bits_sum_flip(b1, b2, start, count - 1, p);
        assert(bit_at(b1, start + count - 1) == bit_at(b2, start + count - 1));
    }
}

/// A sum of zero bits is zero.
proof fn lemma_bits_sum_zero(b: Seq<u8>, start: int, count: int)
    requires
        forall|q: int| start <= q < start + count ==> #[trigger] bit_at(b, q) == 0,
    ensures
        bits_sum(b, start, count) == 0,
    decreases count,
{
    if count > 0 {
        lemma_bits_sum_zero(b, start, count - 1);
        assert(bit_at(b, start + count - 1) == 0);
    }
}

/// Centered binomial sample `i` of parameter `eta` only depends on the `2 eta` bits
/// `2 eta i .. 2 eta (i + 1)` of the bytes.
pub proof fn lemma_cbd_local(b1: Seq<u8>, b2: Seq<u8>, eta: int, i: int)
    requires
        eta >= 0,
        forall|q: int| 2 * eta * i <= q < 2 * eta * i + 2 * eta ==> #[trigger] bit_at(b1, q) == bit_at(b2, q),
    ensures
        cbd_spec(b1, eta, i) == cbd_spec(b2, eta, i),
{
    lemma_bits_sum_local(b1, b2, 2 * eta * i, eta);
    lemma_bits_sum_local(b1, b2, 2 * eta * i + eta, eta);
}

/// A centered binomial sample whose `2 eta` bits are all zero is 0.
pub proof fn lemma_cbd_zero_bits(b: Seq<u8>, eta: int, i: int)
    requires
        eta >= 0,
        forall|q: int| 2 * eta * i <= q < 2 * eta * i + 2 * eta ==> #[trigger] bit_at(b, q) == 0,
    ensures
        cbd_spec(b, eta, i) == 0,
{
    lemma_bits_sum_zero(b, 2 * eta * i, eta);
    lemma_bits_sum_zero(b, 2 * eta * i + eta, eta);
}

/// Setting one of the first `eta` bits of centered binomial sample `i` adds one to the
/// sample; setting one of its last `eta` bits takes one from it. With the zero sample
/// of zero bits, this fixes every sample: the first `eta` bits counted positively, the
/// last `eta` negatively.
pub proof fn lemma_cbd_bit(b1: Seq<u8>, b2: Seq<u8>, eta: int, i: int, p: int)
    requires
        eta >= 0,
        2 * eta * i <= p < 2 * eta * i + 2 * eta,
        bit_at(b1, p) == 0,
        bit_at(b2, p) == 1,
        forall|q: int|
            2 * eta * i <= q < 2 * eta * i + 2 * eta && q != p ==> #[trigger] bit_at(b1, q) == bit_at(b2, q),
    ensures
        p < 2 * eta * i + eta ==> cbd_spec(b2, eta, i) == cbd_spec(b1, eta, i) + 1,
        p >= 2 * eta * i + eta ==> cbd_spec(b2, eta, i) == cbd_spec(b1, eta, i) - 1,
{
    let s = 2 * eta * i;
    if p < s + eta {
        lemma_bits_sum_flip(b1, b2, s, eta, p);
        lemma_bits_sum_local(b1, b2, s + eta, eta);
    } else {
        lemma_bits_sum_local(b1, b2, s, eta);
        lemma_bits_sum_flip(b1, b2, s + eta, eta, p);
    }
}

pub proof fn lemma_bit_at(bytes: Seq<u8>, i: int)
    ensures
        0 <= bit_at(bytes, i) <= 1,
{
    let b = bytes[i / 8];
    let s = (i % 8) as u8;
    assert((b >> s) & 1u8 <= 1u8) by (bit_vector);
}

pub proof fn lemma_bits_sum_bound(bytes: Seq<u8>, start: int, count: int)
    requires
        count >= 0,
    ensures
        0 <= bits_sum(bytes, start, count) <= count,
    decreases count,
{
    if count > 0 {
        lemma_bits_sum_bound(bytes, start, count - 1);
        lemma_bit_at(bytes, start + count - 1);
    }
}

/// Bit `bit_index` of `bytes`, least significant bit of each byte first.
fn extract_bit(bytes: &[u8], bit_index: usize) -> (res: u8)
    requires
        bit_index / 8 < bytes@.len(),
    ensures
        res as int == bit_at(bytes@, bit_index as int),
        res <= 1,
{
    proof {
        lemma_bit_at(bytes@, bit_index as int);
    }
    (bytes[bit_index / 8] >> ((bit_index % 8) as u8)) & 1
}

/// Coefficient `coeff_index` sampled from the centered binomial distribution of
/// parameter `eta`: `2 * eta` bits per coefficient, LSB first.
fn cbd_sample_from_bits(bytes: &[u8], eta: usize, coeff_index: usize) -> (res: i32)
    requires
        eta <= 1024,
        coeff_index < 256,
        2 * eta * (coeff_index + 1) <= 8 * bytes@.len(),
    ensures
        res == cbd_spec(bytes@, eta as int, coeff_index as int),
        -eta <= res <= eta,
{
    let mut a = 0i32;
    let mut b = 0i32;
    proof {
        assert(coeff_index * 2 * eta <= 255 * 2 * 1024 && coeff_index * 2 * eta == 2 * eta
            * coeff_index) by (nonlinear_arith)
            requires coeff_index < 256, eta <= 1024;
        assert(2 * eta * (coeff_index + 1) == 2 * eta * coeff_index + 2 * eta) by (nonlinear_arith);
    }
    let base = coeff_index * 2 * eta;
    let mut i: usize = 0;
    while i < eta
        invariant
            0 <= i <= eta <= 1024,
            base == 2 * eta * coeff_index,
            base <= 522240,
            base + 2 * eta <= 8 * bytes@.len(),
            a == bits_sum(bytes@, base as int, i as int),
            0 <= a <= i,
        decreases eta - i,
    {
        let bit = extract_bit(bytes, base + i);
        a += bit as i32;
        i += 1;
    }
    let mut i: usize = 0;
    while i < eta
        invariant
            0 <= i <= eta <= 1024,
            base == 2 * eta * coeff_index,
            base <= 522240,
            base + 2 * eta <= 8 * bytes@.len(),
            b == bits_sum(bytes@, base + eta, i as int),
            0 <= b <= i,
        decreases eta - i,
    {
        let bit = extract_bit(bytes, base + eta + i);
        b += bit as i32;
        i += 1;
    }
    a - b
}

/// `output_len` bytes of the pseudorandom function of ML-KEM: SHAKE256 of the seed
/// followed by the nonce byte.
pub open spec fn prf_spec(seed: Seq<u8>, nonce: u8, output_len: nat) -> Seq<u8> {
    shake256_bytes(seed.push(nonce), output_len)
}

/// The pseudorandom function: `output_len` bytes of SHAKE256(seed || nonce).
#[allow(non_snake_case)]
pub fn PRF(sigma_or_r: &Vec<u8>, nonce: u8, output_len: usize) -> (res: Vec<u8>)
    ensures
        res@ == prf_spec(sigma_or_r@, nonce, output_len as nat),
        res@.len() == output_len,
{
    let mut input: Vec<u8> = Vec::new();
    let mut i: usize = 0;
    while i < sigma_or_r.len()
        invariant
            0 <= i <= sigma_or_r@.len(),
            input@ == sigma_or_r@.subrange(0, i as int),
        decreases sigma_or_r@.len() - i,
    {
        input.push(sigma_or_r[i]);
        i += 1;
    }
    input.push(nonce);
    assert(input@ =~= sigma_or_r@.push(nonce));
    shake256(input.as_slice(), output_len)
}

/// A noise polynomial: its coefficients are centered binomial samples of parameter
/// `eta` drawn from `PRF(seed, nonce, 64 * eta)`, reduced into `[0, 3329)`.
pub open spec fn noise_poly(eta: int, seed: Seq<u8>, nonce: int) -> Seq<int> {
    Seq::new(256, |i: int| cbd_spec(prf_spec(seed, nonce as u8, (64 * eta) as nat), eta, i) % 3329)
}

/// Noise is small: every coefficient of a noise polynomial is, modulo `Q`, between
/// `-eta` and `eta`.
pub proof fn lemma_noise_is_small(eta: int, seed: Seq<u8>, nonce: int, i: int)
    requires
        0 <= eta <= 1664,
        0 <= i < 256,
    ensures
        0 <= noise_poly(eta, seed, nonce)[i] <= eta || 3329 - eta <= noise_poly(eta, seed, nonce)[i] < 3329,
{
    let bytes = prf_spec(seed, nonce as u8, (64 * eta) as nat);
    lemma_bits_sum_bound(bytes, 2 * eta * i, eta);
    lemma_bits_sum_bound(bytes, 2 * eta * i + eta, eta);
    let x = cbd_spec(bytes, eta, i);
    assert(-eta <= x <= eta);
    if x >= 0 {
        lemma_small_mod(x as nat, 3329);
    } else {
        lemma_fundamental_div_mod_converse(x, 3329, -1, x + 3329);
    }
}

/// `K` noise polynomials drawn with the nonces `nonce, nonce + 1, ...`.
pub open spec fn noise_polyvec(eta: int, seed: Seq<u8>, nonce: int) -> Seq<Seq<int>> {
    Seq::new(K as nat, |i: int| noise_poly(eta, seed, nonce + i))
}

/// Samples a "small" polynomial: coefficients from the centered binomial
/// distribution of parameter `eta` over `PRF(sigma_or_r, nonce, 64 * eta)`, reduced
/// into `[0, Q)`. Returns it with the next nonce.
pub fn generate_noise_vector(eta: i16, nonce: u8, sigma_or_r: &Vec<u8>) -> (res: (Vector<N>, u8))
    requires
        0 <= eta <= 511,
        nonce < 255,
    ensures
        res.1 == nonce + 1,
        res.0.m == Q,
        coeffs(res.0) == noise_poly(eta as int, sigma_or_r@, nonce as int),
        forall|i: int| 0 <= i < 256 ==> 0 <= #[trigger] res.0.c[i] < 3329,
{
    // eta * 64 bytes = 2 * eta * 256 bits
    let random_bytes = PRF(sigma_or_r, nonce, eta.wrapping_mul(64) as usize);
    proof {
        assert(eta.wrapping_mul(64) as usize == 64 * eta);
    }
    let mut random_vector: Vector<N> = Vector::new(&[0i32;256], Q);
    let mut i: usize = 0;
    while i < N
        invariant
            0 <= i <= N,
            0 <= eta <= 511,
            random_bytes@ == prf_spec(sigma_or_r@, nonce, (64 * eta) as nat),
            random_bytes@.len() == 64 * eta,
            random_vector.m == Q,
            forall|j: int|
                0 <= j < i ==> #[trigger] random_vector.c[j] == noise_poly(
                    eta as int,
                    sigma_or_r@,
                    nonce as int,
                )[j],
            forall|j: int| 0 <= j < i ==> 0 <= #[trigger] random_vector.c[j] < 3329,
        decreases N - i,
    {
        proof {
            assert(2 * (eta as int) * (i + 1) <= 8 * (64 * eta)) by (nonlinear_arith)
                requires 0 <= eta, i < 256;
        }
        let mut sample = cbd_sample_from_bits(random_bytes.as_slice(), eta as usize, i);
        // reduced modulo Q into [0, Q)
        let r = sample % Q;
        proof {
            lemma_mod_bound(sample as int, 3329);
            if sample >= 0 {
                lemma_small_mod(sample as nat, 3329);
            } else {
                lemma_fundamental_div_mod_converse(sample as int, 3329, -1, sample + 3329);
            }
        }
        sample = if r < 0 { r + Q } else { r };
        random_vector.set(i, sample);
        i += 1;
    }
    assert(coeffs(random_vector) =~= noise_poly(eta as int, sigma_or_r@, nonce as int));
    (random_vector, nonce + 1)
}

/// Samples `K` small polynomials with consecutive nonces, starting at `nonce`;
/// returns them with the nonce that follows.
pub fn generate_noise_polyvector(eta: i16, nonce: u8, sigma_or_r: &Vec<u8>) -> (res: (
    PolyVector<K>,
    u8,
))
    requires
        0 <= eta <= 511,
        nonce + K < 256,
    ensures
        res.1 == nonce + K,
        res.0.m == Q,
        forall|i: int| 0 <= i < K ==> #[trigger] res.0.c[i].m == Q,
        pv_model(res.0) == noise_polyvec(eta as int, sigma_or_r@, nonce as int),
        forall|i: int, j: int| 0 <= i < K && 0 <= j < 256 ==> 0 <= #[trigger] res.0.c[i].c[j] < 3329,
{
    let mut random_polyvector: PolyVector<K> = PolyVector::new(
        &[Vector::new(&[0i32;256], Q);3],
        Q,
    );
    let mut nonce = nonce;
    let ghost nonce0 = nonce as int;
    let mut i: usize = 0;
    while i < K
        invariant
            0 <= i <= K,
            0 <= eta <= 511,
            nonce == nonce0 + i,
            nonce0 + K < 256,
            random_polyvector.m == Q,
            forall|t: int| 0 <= t < K ==> #[trigger] random_polyvector.c[t].m == Q,
            forall|t: int|
                0 <= t < i ==> #[trigger] coeffs(random_polyvector.c[t]) == noise_poly(
                    eta as int,
                    sigma_or_r@,
                    nonce0 + t,
                ),
            forall|t: int, j: int|
                0 <= t < i && 0 <= j < 256 ==> 0 <= #[trigger] random_polyvector.c[t].c[j] < 3329,
        decreases K - i,
    {
        let (coef, next) = generate_noise_vector(eta, nonce, sigma_or_r);
        random_polyvector.set(i, coef);
        nonce = next;
        i += 1;
    }
    assert(pv_model(random_polyvector) =~= noise_polyvec(eta as int, sigma_or_r@, nonce0));
    (random_polyvector, nonce)
}

/// `1 << d` is `2^d` for `0 <= d < 31`.
pub proof fn lemma_shl_one(d: i32)
    requires
        0 <= d < 31,
    ensures
        (1i32 << (d as u32)) as int == pow2(d as nat),
        1 <= pow2(d as nat) <= 0x4000_0000,
{
    let du = d as u32;
    assert((1i32 << du) == (1u32 << du) as i32) by (bit_vector)
        requires du < 31;
    vstd::arithmetic::power2::lemma_pow2_pos(d as nat);
    if d < 30 {
        lemma_pow2_strictly_increases(d as nat, 30);
    }
    lemma2_to64();
    lemma_u32_shl_is_mul(1, du);
}

/// `Compress_d` of one coefficient as Rust computes it:
/// `((x * 2^d + 1664) / 3329) % 2^d`, moved into `[0, 2^d)` when negative.
pub open spec fn compress_coef(x: int, d: nat) -> int {
    let r = trunc_rem(trunc_div(x * pow2(d) + 1664, 3329), pow2(d) as int);
    if r < 0 {
        r + pow2(d)
    } else {
        r
    }
}

/// `Decompress_d` of one coefficient as Rust computes it: `(x * 3329 + 2^(d-1)) / 2^d`.
pub open spec fn decompress_coef(x: int, d: nat) -> int {
    trunc_div(x * 3329 + pow2((d - 1) as nat), pow2(d) as int)
}

/// Compresses every coefficient to `d` bits: `round(x * 2^d / Q) mod 2^d`.
pub fn compress(u: Vector<N>, d: i32) -> (res: Vector<N>)
    requires
        0 <= d < 31,
        forall|i: int|
            0 <= i < 256 ==> i32::MIN <= #[trigger] u.c[i] * pow2(d as nat) && u.c[i] * pow2(d as nat) + 1664
                <= i32::MAX,
    ensures
        res.m == u.m,
        forall|i: int| 0 <= i < 256 ==> #[trigger] res.c[i] == compress_coef(u.c[i] as int, d as nat),
        forall|i: int| 0 <= i < 256 ==> 0 <= #[trigger] res.c[i] < pow2(d as nat),
{
    let mut u = u;
    let ghost u0 = u;
    proof {
        lemma_shl_one(d);
    }
    let mut i: usize = 0;
    while i < u.c.len()
        invariant
            0 <= i <= 256,
            0 <= d < 31,
            (1i32 << (d as u32)) as int == pow2(d as nat),
            1 <= pow2(d as nat) <= 0x4000_0000,
            u.m == u0.m,
            forall|j: int|
                0 <= j < 256 ==> i32::MIN <= #[trigger] u0.c[j] * pow2(d as nat) && u0.c[j] * pow2(d as nat)
                    + 1664 <= i32::MAX,
            forall|j: int| i <= j < 256 ==> #[trigger] u.c[j] == u0.c[j],
            forall|j: int| 0 <= j < i ==> #[trigger] u.c[j] == compress_coef(u0.c[j] as int, d as nat),
            forall|j: int| 0 <= j < i ==> 0 <= #[trigger] u.c[j] < pow2(d as nat),
        decreases 256 - i,
    {
        proof {
            assert(i32::MIN <= u0.c[i as int] * pow2(d as nat));
            assert(u0.c[i as int] * pow2(d as nat) + 1664 <= i32::MAX);
            assert(u.c[i as int] == u0.c[i as int]);
        }
        u.c[i] = ((u.c[i] * (1i32 << (d as u32)) + Q / 2) / Q) % (1i32 << (d as u32));
        proof {
            let p = pow2(d as nat) as int;
            lemma_trunc_rem(trunc_div(u0.c[i as int] * p + 1664, 3329), p);
        }
        // positive symmetric modulus
        if u.c[i] < 0 {
            u.c[i] += 1i32 << (d as u32);
        }
        i += 1;
    }
    u
}

/// Decompresses every coefficient from `d` bits: `round(x * Q / 2^d)`.
pub fn decompress(u: Vector<N>, d: i32) -> (res: Vector<N>)
    requires
        1 <= d < 31,
        forall|i: int|
            0 <= i < 256 ==> i32::MIN <= #[trigger] u.c[i] * 3329 && u.c[i] * 3329 + pow2((d - 1) as nat)
                <= i32::MAX,
    ensures
        res.m == u.m,
        forall|i: int| 0 <= i < 256 ==> #[trigger] res.c[i] == decompress_coef(u.c[i] as int, d as nat),
{
    let mut u = u;
    let ghost u0 = u;
    proof {
        lemma_shl_one(d);
        lemma_shl_one((d - 1) as i32);
    }
    let mut i: usize = 0;
    while i < u.c.len()
        invariant
            0 <= i <= 256,
            1 <= d < 31,
            (1i32 << (d as u32)) as int == pow2(d as nat),
            (1i32 << ((d - 1) as u32)) as int == pow2((d - 1) as nat),
            1 <= pow2(d as nat) <= 0x4000_0000,
            u.m == u0.m,
            forall|j: int|
                0 <= j < 256 ==> i32::MIN <= #[trigger] u0.c[j] * 3329 && u0.c[j] * 3329 + pow2(
                    (d - 1) as nat,
                ) <= i32::MAX,
            forall|j: int| i <= j < 256 ==> #[trigger] u.c[j] == u0.c[j],
            forall|j: int| 0 <= j < i ==> #[trigger] u.c[j] == decompress_coef(u0.c[j] as int, d as nat),
        decreases 256 - i,
    {
        proof {
            assert(i32::MIN <= u0.c[i as int] * 3329);
            assert(u0.c[i as int] * 3329 + pow2((d - 1) as nat) <= i32::MAX);
            assert(u.c[i as int] == u0.c[i as int]);
        }
        u.c[i] = (u.c[i] * Q + (1i32 << ((d - 1) as u32))) / (1i32 << (d as u32));
        i += 1;
    }
    u
}

/// The transform applied to every polynomial of a vector.
pub open spec fn ntt_pv(x: Seq<Seq<int>>) -> Seq<Seq<int>> {
    Seq::new(x.len(), |i: int| ntt_spec(x[i]))
}

/// The transformed dot product of two vectors of transformed polynomials.
pub open spec fn dotvec(a: Seq<Seq<int>>, b: Seq<Seq<int>>) -> Seq<int> {
    Seq::new(256, |j: int| ntt_dot_coef(a, b, a.len() as int, j))
}

/// `t = A s + e` in the transformed domain (`e` is transformed here): polynomial `i`
/// adds `row_i . s` and `ntt(e_i)` modulo the modulus of row `i`.
pub open spec fn compute_t_spec(a: PolyMatrix<K, K>, s: PolyVector<K>, e: Seq<Seq<int>>) -> Seq<Seq<int>> {
    Seq::new(
        K as nat,
        |i: int|
            Seq::new(
                256,
                |j: int|
                    (dotvec(pv_model(a.row_vecs[i]), pv_model(s))[j] + ntt_spec(e[i])[j])
                        % (a.row_vecs[i].m as int),
            ),
    )
}

/// Every coefficient of every polynomial of `e` is in `[0, 2^19)`.
pub open spec fn pv_ntt_input<const S: usize>(e: PolyVector<S>) -> bool {
    forall|i: int| 0 <= i < S ==> #[trigger] ntt_input(e.c[i])
}

/// `t = A s + e`, with `A` and `s` in the transformed domain and `e` not: `e` is
/// transformed first, and `t` is in the transformed domain.
#[allow(non_snake_case)]
pub fn compute_t(A: PolyMatrix<K, K>, s: PolyVector<K>, e: PolyVector<K>) -> (t: PolyVector<K>)
    requires
        rows_reduced(A),
        all_reduced(s),
        pv_ntt_input(e),
        forall|i: int| 0 <= i < K ==> #[trigger] A.row_vecs[i].m != 0,
    ensures
        t.m == A.m,
        forall|i: int| 0 <= i < K ==> #[trigger] t.c[i].m == A.row_vecs[i].m,
        pv_model(t) == compute_t_spec(A, s, pv_model(e)),
{
    let mut A = A;
    let mut e = e;
    let ghost e0 = e;
    let mut t: PolyVector<K> = A.ntt_mult_vec(s);
    // as e is not in the transformed domain
    let mut i: usize = 0;
    while i < K
        invariant
            0 <= i <= K,
            pv_ntt_input(e0),
            e.m == e0.m,
            forall|j: int| i <= j < K ==> #[trigger] e.c[j] == e0.c[j],
            forall|j: int| 0 <= j < i ==> #[trigger] coeffs(e.c[j]) == ntt_spec(coeffs(e0.c[j])),
            forall|j: int| 0 <= j < i ==> #[trigger] is_reduced(e.c[j]),
        decreases K - i,
    {
        proof {
            assert(ntt_input(e0.c[i as int]));
        }
        e.c[i] = ntt(e.c[i]);
        i += 1;
    }
    proof {
        assert forall|a: int, b: int| 0 <= a < K && 0 <= b < 256 implies i32::MIN <= #[trigger] t.c[a].c[b]
            + #[trigger] e.c[a].c[b] <= i32::MAX && rem_defined(t.c[a].c[b] + e.c[a].c[b], t.c[a].m as int) by {
            assert(is_reduced(t.c[a]));
            assert(is_reduced(e.c[a]));
        }
    }
    t.add(e);
    proof {
        assert forall|a: int| 0 <= a < K implies #[trigger] pv_model(t)[a] == compute_t_spec(A, s, pv_model(e0))[a] by {
            assert(pv_model(e0)[a] == coeffs(e0.c[a]));
            assert forall|b: int| 0 <= b < 256 implies #[trigger] pv_model(t)[a][b] == compute_t_spec(
                A,
                s,
                pv_model(e0),
            )[a][b] by {
                assert(is_reduced(e.c[a]));
                assert(coeffs(e.c[a])[b] == e.c[a].c[b]);
                lemma_ntt_dot_coef_bound(pv_model(A.row_vecs[a]), pv_model(s), K as int, b);
                let x = ntt_dot_coef(pv_model(A.row_vecs[a]), pv_model(s), K as int, b) + e.c[a].c[b];
                let m = A.row_vecs[a].m as int;
                lemma_signed_rem(x, m);
            }
            assert(pv_model(t)[a] =~= compute_t_spec(A, s, pv_model(e0))[a]);
        }
        assert(pv_model(t) =~= compute_t_spec(A, s, pv_model(e0)));
    }
    t
}

/// Compresses every polynomial of the vector to `d` bits per coefficient.
fn compress_polyvector(u: PolyVector<K>, d: i32) -> (res: PolyVector<K>)
    requires
        0 <= d < 31,
        forall|i: int, j: int|
            0 <= i < K && 0 <= j < 256 ==> i32::MIN <= #[trigger] u.c[i].c[j] * pow2(d as nat) && u.c[i].c[j]
                * pow2(d as nat) + 1664 <= i32::MAX,
    ensures
        res.m == u.m,
        forall|i: int| 0 <= i < K ==> #[trigger] res.c[i].m == u.c[i].m,
        forall|i: int, j: int|
            0 <= i < K && 0 <= j < 256 ==> #[trigger] res.c[i].c[j] == compress_coef(
                u.c[i].c[j] as int,
                d as nat,
            ),
{
    let mut u = u;
    let ghost u0 = u;
    let mut i: usize = 0;
    while i < K
        invariant
            0 <= i <= K,
            0 <= d < 31,
            u.m == u0.m,
            forall|a: int, j: int|
                0 <= a < K && 0 <= j < 256 ==> i32::MIN <= #[trigger] u0.c[a].c[j] * pow2(d as nat)
                    && u0.c[a].c[j] * pow2(d as nat) + 1664 <= i32::MAX,
            forall|a: int| i <= a < K ==> #[trigger] u.c[a] == u0.c[a],
            forall|a: int| 0 <= a < i ==> #[trigger] u.c[a].m == u0.c[a].m,
            forall|a: int, j: int|
                0 <= a < i && 0 <= j < 256 ==> #[trigger] u.c[a].c[j] == compress_coef(
                    u0.c[a].c[j] as int,
                    d as nat,
                ),
        decreases K - i,
    {
        proof {
            assert(u.c[i as int] == u0.c[i as int]);
            assert forall|j: int| 0 <= j < 256 implies i32::MIN <= #[trigger] u.c[i as int].c[j] * pow2(d as nat)
                && u.c[i as int].c[j] * pow2(d as nat) + 1664 <= i32::MAX by {
                assert(i32::MIN <= u0.c[i as int].c[j] * pow2(d as nat));
                assert(u0.c[i as int].c[j] * pow2(d as nat) + 1664 <= i32::MAX);
            }
        }
        u.c[i] = compress(u.c[i], d);
        i += 1;
    }
    u
}

/// Decompresses every polynomial of the vector from `d` bits per coefficient.
fn decompress_polyvector(u: PolyVector<K>, d: i32) -> (res: PolyVector<K>)
    requires
        1 <= d < 31,
        forall|i: int, j: int|
            0 <= i < K && 0 <= j < 256 ==> i32::MIN <= #[trigger] u.c[i].c[j] * 3329 && u.c[i].c[j] * 3329
                + pow2((d - 1) as nat) <= i32::MAX,
    ensures
        res.m == u.m,
        forall|i: int| 0 <= i < K ==> #[trigger] res.c[i].m == u.c[i].m,
        forall|i: int, j: int|
            0 <= i < K && 0 <= j < 256 ==> #[trigger] res.c[i].c[j] == decompress_coef(
                u.c[i].c[j] as int,
                d as nat,
            ),
{
    let mut u = u;
    let ghost u0 = u;
    let mut i: usize = 0;
    while i < K
        invariant
            0 <= i <= K,
            1 <= d < 31,
            u.m == u0.m,
            forall|a: int, j: int|
                0 <= a < K && 0 <= j < 256 ==> i32::MIN <= #[trigger] u0.c[a].c[j] * 3329 && u0.c[a].c[j]
                    * 3329 + pow2((d - 1) as nat) <= i32::MAX,
            forall|a: int| i <= a < K ==> #[trigger] u.c[a] == u0.c[a],
            forall|a: int| 0 <= a < i ==> #[trigger] u.c[a].m == u0.c[a].m,
            forall|a: int, j: int|
                0 <= a < i && 0 <= j < 256 ==> #[trigger] u.c[a].c[j] == decompress_coef(
                    u0.c[a].c[j] as int,
                    d as nat,
                ),
        decreases K - i,
    {
        proof {
            assert(u.c[i as int] == u0.c[i as int]);
            assert forall|j: int| 0 <= j < 256 implies i32::MIN <= #[trigger] u.c[i as int].c[j] * 3329
                && u.c[i as int].c[j] * 3329 + pow2((d - 1) as nat) <= i32::MAX by {
                assert(i32::MIN <= u0.c[i as int].c[j] * 3329);
                assert(u0.c[i as int].c[j] * 3329 + pow2((d - 1) as nat) <= i32::MAX);
            }
        }
        u.c[i] = decompress(u.c[i], d);
        i += 1;
    }
    u
}

/// Decoding of one coefficient: 1 when it is nearer `Q/2` than 0 modulo `Q`, that is
/// when it lies in `833..=2496`, else 0.
pub open spec fn round_coef(x: int) -> int {
    if 833 <= x <= 2496 {
        1
    } else {
        0
    }
}

/// Maps the coefficients near `Q/2` to 1 and the others to 0.
fn round(v: Vector<N>) -> (r: Vector<N>)
    ensures
        r.m == Q,
        forall|i: int| 0 <= i < 256 ==> #[trigger] r.c[i] == round_coef(v.c[i] as int),
{
    let mut r = Vector::new(&[0i32;256], Q);
    let mut i: usize = 0;
    while i < N
        invariant
            0 <= i <= N,
            r.m == Q,
            forall|j: int| 0 <= j < i ==> #[trigger] r.c[j] == round_coef(v.c[j] as int),
        decreases N - i,
    {
        let val = v.c[i];
        if val > Q / 4 && val <= 3 * Q / 4 {
            r.set(i, 1);
        } else {
            r.set(i, 0);
        }
        i += 1;
    }
    r
}

/// A ciphertext: the compressed vector `u` and the compressed polynomial `v`.
#[derive(Debug, Clone, PartialEq)]
pub struct EncryptedMessage {
    pub u: PolyVector<K>,
    pub v: Vector<N>,
}

/// The transformed noise vector `r` that encryption draws from its coins (nonces 0, 1, 2).
pub open spec fn r_hat(coins: Seq<u8>) -> Seq<Seq<int>> {
    ntt_pv(noise_polyvec(ETA_1 as int, coins, 0))
}

/// `u = Compress_10(NTT^-1(A^T r) + e1)`, polynomial by polynomial, where `e1` is drawn
/// with the nonces 3, 4, 5.
pub open spec fn encrypt_u_spec(a: PolyMatrix<K, K>, coins: Seq<u8>) -> Seq<Seq<int>> {
    Seq::new(
        K as nat,
        |i: int|
            Seq::new(
                256,
                |j: int|
                    compress_coef(
                        trunc_rem(
                            intt_spec(dotvec(pv_model(a.col_vecs[i]), r_hat(coins)))[j]
                                + noise_polyvec(ETA_2 as int, coins, K as int)[i][j],
                            3329,
                        ),
                        10,
                    ),
            ),
    )
}

/// `v = Compress_4(NTT^-1(t . r) + e2 + 1665 * m)`, where `e2` is drawn with the nonce 6
/// and each message coefficient is multiplied by 1665 through Montgomery form.
pub open spec fn encrypt_v_spec(t: PolyVector<K>, msg: Seq<i32>, coins: Seq<u8>) -> Seq<int> {
    Seq::new(
        256,
        |j: int|
            compress_coef(
                trunc_rem(
                    trunc_rem(
                        intt_spec(dotvec(pv_model(t), r_hat(coins)))[j] + noise_poly(
                            ETA_2 as int,
                            coins,
                            2 * K,
                        )[j],
                        3329,
                    ) + mont_product(1665, msg[j]),
                    3329,
                ),
                4,
            ),
    )
}

/// Kyber's CPA encryption of the message polynomial `msg` (coefficients 0 or 1) under
/// the public key `(A, t)`, both in the transformed domain, with the 32 coins `r`:
/// `u = Compress(NTT^-1(A^T r) + e1)`, `v = Compress(NTT^-1(t . r) + e2 + round(Q/2) m)`.
#[allow(non_snake_case)]
pub fn encrypt(A: PolyMatrix<K, K>, t: PolyVector<K>, msg: Vector<N>, r: Vec<u8>) -> (res: EncryptedMessage)
    requires
        cols_reduced(A),
        all_reduced(t),
    ensures
        res.u.m == A.m,
        forall|i: int| 0 <= i < K ==> #[trigger] res.u.c[i].m == Q,
        res.v.m == Q,
        pv_model(res.u) == encrypt_u_spec(A, r@),
        coeffs(res.v) == encrypt_v_spec(t, msg.c@, r@),
        ciphertext_in_range(res),
{
    // generation order matters because of the nonces
    let nonce: u8 = 0;
    let (mut r_ntt, nonce) = generate_noise_polyvector(ETA_1, nonce, &r);
    let ghost r0 = r_ntt;
    let mut i: usize = 0;
    while i < K
        invariant
            0 <= i <= K,
            forall|a: int, j: int| 0 <= a < K && 0 <= j < 256 ==> 0 <= #[trigger] r0.c[a].c[j] < 3329,
            pv_model(r0) == noise_polyvec(ETA_1 as int, r@, 0),
            forall|a: int| i <= a < K ==> #[trigger] r_ntt.c[a] == r0.c[a],
            forall|a: int| 0 <= a < i ==> #[trigger] coeffs(r_ntt.c[a]) == ntt_spec(coeffs(r0.c[a])),
            forall|a: int| 0 <= a < i ==> #[trigger] is_reduced(r_ntt.c[a]),
        decreases K - i,
    {
        proof {
            assert forall|j: int| 0 <= j < 256 implies 0 <= #[trigger] r_ntt.c[i as int].c[j] < 524288 by {
                assert(r_ntt.c[i as int] == r0.c[i as int]);
                assert(0 <= r0.c[i as int].c[j] < 3329);
            }
        }
        r_ntt.c[i] = ntt(r_ntt.c[i]);
        i += 1;
    }
    proof {
        assert forall|a: int| 0 <= a < K implies #[trigger] pv_model(r_ntt)[a] == r_hat(r@)[a] by {
            assert(pv_model(r0)[a] == coeffs(r0.c[a]));
        }
        assert(pv_model(r_ntt) =~= r_hat(r@));
        assert forall|a: int| 0 <= a < K implies #[trigger] is_reduced(r_ntt.c[a]) by {}
    }
    let (e1, nonce) = generate_noise_polyvector(ETA_2, nonce, &r);
    let (e2, _nonce) = generate_noise_vector(ETA_2, nonce, &r);
    let mut v: Vector<N> = t.ntt_dot(r_ntt);
    proof {
        assert(coeffs(v) =~= dotvec(pv_model(t), r_hat(r@)));
    }
    v = intt(v);
    let ghost v0 = v;
    proof {
        assert forall|j: int| 0 <= j < 256 implies i32::MIN <= #[trigger] v.c[j] + e2.c[j] <= i32::MAX by {
            assert(0 <= v.c[j] < 3329);
        }
    }
    v.add(e2);
    let ghost v1 = v;
    let mut tmp = msg;
    tmp.scalar_mult((Q + 1) / 2);
    proof {
        assert forall|j: int| 0 <= j < 256 implies i32::MIN <= #[trigger] v.c[j] + tmp.c[j] <= i32::MAX by {
            lemma_trunc_rem(v0.c[j] + e2.c[j], 3329);
        }
    }
    v.add(tmp);
    let mut u: PolyVector<K> = A.transpose().ntt_mult_vec(r_ntt);
    let ghost u0 = u;
    let mut i: usize = 0;
    while i < K
        invariant
            0 <= i <= K,
            u.m == u0.m,
            forall|a: int| 0 <= a < K ==> #[trigger] is_reduced(u0.c[a]),
            forall|a: int| i <= a < K ==> #[trigger] u.c[a] == u0.c[a],
            forall|a: int| 0 <= a < i ==> #[trigger] coeffs(u.c[a]) == intt_spec(coeffs(u0.c[a])),
            forall|a: int| 0 <= a < i ==> #[trigger] is_reduced(u.c[a]),
            forall|a: int| 0 <= a < i ==> #[trigger] u.c[a].m == Q,
        decreases K - i,
    {
        proof {
            assert(u.c[i as int] == u0.c[i as int]);
            assert(is_reduced(u0.c[i as int]));
        }
        u.c[i] = intt(u.c[i]);
        i += 1;
    }
    let ghost u1 = u;
    proof {
        assert forall|a: int, b: int| 0 <= a < K && 0 <= b < 256 implies i32::MIN <= #[trigger] u.c[a].c[b]
            + #[trigger] e1.c[a].c[b] <= i32::MAX by {
            assert(is_reduced(u.c[a]));
        }
        assert forall|a: int| 0 <= a < K implies #[trigger] u.c[a].m > 0 by {}
    }
    u.add(e1);
    proof {
        lemma_shl_pow2_facts();
        assert forall|a: int, b: int| 0 <= a < K && 0 <= b < 256 implies i32::MIN <= #[trigger] u.c[a].c[b]
            * pow2(10) && u.c[a].c[b] * pow2(10) + 1664 <= i32::MAX by {
            assert(is_reduced(u1.c[a]));
            lemma_trunc_rem(u1.c[a].c[b] + e1.c[a].c[b], 3329);
        }
        assert forall|b: int| 0 <= b < 256 implies i32::MIN <= #[trigger] v.c[b] * pow2(4) && v.c[b] * pow2(4)
            + 1664 <= i32::MAX by {
            lemma_trunc_rem(v1.c[b] + tmp.c[b], 3329);
        }
    }
    let res = EncryptedMessage { u: compress_polyvector(u, D_U), v: compress(v, D_V) };
    proof {
        // u
        assert forall|a: int| 0 <= a < K implies #[trigger] pv_model(res.u)[a] == encrypt_u_spec(A, r@)[a] by {
            assert(coeffs(u0.c[a]) =~= dotvec(pv_model(A.col_vecs[a]), r_hat(r@)));
            assert(pv_model(e1)[a] == coeffs(e1.c[a]));
            assert(u1.c[a].m == Q);
            assert forall|b: int| 0 <= b < 256 implies #[trigger] pv_model(res.u)[a][b] == encrypt_u_spec(
                A,
                r@,
            )[a][b] by {
                assert(coeffs(u1.c[a])[b] == u1.c[a].c[b]);
                assert(coeffs(e1.c[a])[b] == e1.c[a].c[b]);
                assert(u.c[a].c[b] == trunc_rem(u1.c[a].c[b] + e1.c[a].c[b], 3329));
            }
            assert(pv_model(res.u)[a] =~= encrypt_u_spec(A, r@)[a]);
        }
        assert(pv_model(res.u) =~= encrypt_u_spec(A, r@));
        // v
        assert forall|b: int| 0 <= b < 256 implies #[trigger] coeffs(res.v)[b] == encrypt_v_spec(t, msg.c@, r@)[b] by {
            assert(coeffs(v0)[b] == v0.c[b]);
            assert(coeffs(e2)[b] == e2.c[b]);
        }
        assert(coeffs(res.v) =~= encrypt_v_spec(t, msg.c@, r@));
        assert forall|a: int, b: int| 0 <= a < K && 0 <= b < 256 implies 0 <= #[trigger] res.u.c[a].c[b] < 1024 by {
            lemma_compress_range(u.c[a].c[b] as int, 10);
        }
        assert forall|b: int| 0 <= b < 256 implies 0 <= #[trigger] res.v.c[b] < 16 by {
            lemma_compress_range(v.c[b] as int, 4);
        }
    }
    res
}

/// A compressed coefficient fits in `d` bits.
pub proof fn lemma_compress_range(x: int, d: nat)
    requires
        d == 4 || d == 10,
    ensures
        0 <= compress_coef(x, d) < pow2(d),
{
    lemma_shl_pow2_facts();
    lemma_trunc_rem(trunc_div(x * pow2(d) + 1664, 3329), pow2(d) as int);
}

/// The powers of two the ciphertext compression uses.
proof fn lemma_shl_pow2_facts()
    ensures
        pow2(3) == 8,
        pow2(4) == 16,
        pow2(9) == 512,
        pow2(10) == 1024,
{
    lemma2_to64();
}

/// A compressed coefficient of `d` bits (`d` = 4 or 10) decompresses into `[0, 3329)`.
proof fn lemma_decompress_range(x: int, d: nat)
    requires
        d == 4 || d == 10,
        0 <= x < pow2(d),
    ensures
        0 <= decompress_coef(x, d) < 3329,
        i32::MIN <= x * 3329 && x * 3329 + pow2((d - 1) as nat) <= i32::MAX,
{
    lemma_shl_pow2_facts();
    let p = pow2(d) as int;
    let h = pow2((d - 1) as nat) as int;
    assert(d == 4 ==> h == 8);
    assert(d == 10 ==> h == 512);
    let n = x * 3329 + h;
    assert(0 <= n < 3329 * p) by (nonlinear_arith)
        requires 0 <= x < p, 0 <= h < 3329, n == x * 3329 + h;
    lemma_div_pos_is_pos(n, p);
    lemma_div_by_multiple_is_strongly_ordered(n, 3329 * p, 3329, p);
    lemma_div_multiples_vanish(3329, p);
    assert(p * 3329 == 3329 * p) by (nonlinear_arith);
    assert(decompress_coef(x, d) == n / p);
}

/// `round(3329 / 2^(d+1))`: how far decompressing a compressed coefficient can land
/// from it.
pub open spec fn compress_error_bound(d: nat) -> int {
    (3329 + pow2(d)) as int / (2 * pow2(d)) as int
}

/// The powers of two of compression to `d` bits, `1 <= d <= 11`: `p = 2^d` and
/// `h = 2^(d-1) = p / 2`, with `2 <= p <= 2048`.
proof fn lemma_compress_powers(d: nat)
    requires
        1 <= d <= 11,
    ensures
        pow2(d) == 2 * pow2((d - 1) as nat),
        2 <= pow2(d) <= 2048,
{
    vstd::arithmetic::power2::lemma_pow2_unfold(d);
    lemma2_to64();
    if d < 11 {
        lemma_pow2_strictly_increases(d, 11);
    }
    lemma_pow2_strictly_increases(0, d);
}

/// Compression loses little: for `x` in `[0, 3329)` and `1 <= d <= 11`,
/// `Decompress_d(Compress_d(x))` is within `round(3329 / 2^(d+1))` of `x` modulo 3329
/// (104 for `d = 4`, 2 for `d = 10`).
pub proof fn lemma_compression_error(x: int, d: nat)
    requires
        1 <= d <= 11,
        0 <= x < 3329,
    ensures
        d == 4 ==> compress_error_bound(d) == 104,
        d == 10 ==> compress_error_bound(d) == 2,
        0 <= decompress_coef(compress_coef(x, d), d) < 3329,
        ({
            let e = decompress_coef(compress_coef(x, d), d) - x;
            let b = compress_error_bound(d);
            (-b <= e <= b) || (-b <= e + 3329 <= b)
        }),
{
    lemma_compress_powers(d);
    lemma_shl_pow2_facts();
    let p = pow2(d) as int;
    let h = pow2((d - 1) as nat) as int;
    assert(3345int / 32 == 104 && 4353int / 2048 == 2);
    assert(d == 4 ==> compress_error_bound(d) == 3345int / 32);
    assert(d == 10 ==> compress_error_bound(d) == 4353int / 2048);
    let b = compress_error_bound(d);
    let w = 3329 + p;
    assert(b == w / (2 * p));
    lemma_fundamental_div_mod(w, 2 * p);
    lemma_mod_bound(w, 2 * p);
    let rw = w % (2 * p);
    assert(w == (2 * p) * b + rw);
    let n = x * p + 1664;
    let y0 = n / 3329;
    lemma_fundamental_div_mod(n, 3329);
    lemma_mod_bound(n, 3329);
    assert(trunc_div(n, 3329) == y0);
    assert(0 <= y0 <= p) by (nonlinear_arith)
        requires n == x * p + 1664, 0 <= x < 3329, 3329 * y0 <= n, n < 3329 * y0 + 3329, p >= 2;
    lemma_trunc_rem(y0, p);
    let c = compress_coef(x, d);
    assert(c == y0 % p);
    let xd = decompress_coef(c, d);
    if y0 < p {
        lemma_small_mod(y0 as nat, p as nat);
        let m = y0 * 3329 + h;
        assert(0 <= m);
        assert(xd == m / p);
        lemma_fundamental_div_mod(m, p);
        lemma_mod_bound(m, p);
        let e = xd - x;
        assert(m < 3329 * p) by (nonlinear_arith)
            requires m == y0 * 3329 + h, 0 <= y0 < p, 0 <= h < 3329;
        lemma_div_pos_is_pos(m, p);
        assert(xd < 3329) by (nonlinear_arith)
            requires p * xd <= m, m < 3329 * p, p > 0;
        assert(2 * p * e <= 3328 + p) by (nonlinear_arith)
            requires p * xd <= m, m == y0 * 3329 + h, 3329 * y0 <= x * p + 1664, e == xd - x, p == 2 * h;
        assert(2 * p * e >= -(3328 + p) + 2) by (nonlinear_arith)
            requires m < p * xd + p, m == y0 * 3329 + h, x * p + 1664 < 3329 * y0 + 3329, e == xd - x,
                p == 2 * h;
        assert(-b <= e <= b) by (nonlinear_arith)
            requires 2 * p * e <= 3328 + p, 2 * p * e >= -(3328 + p) + 2, w == (2 * p) * b + rw, 0 <= rw < 2 * p,
                w == 3329 + p, p >= 2;
    } else {
        lemma_mod_self_0(p);
        assert(c == 0);
        assert(xd == trunc_div(h, p));
        lemma_basic_div(h, p);
        assert(xd == 0);
        assert(2 * p * (3329 - x) <= 3328) by (nonlinear_arith)
            requires 3329 * y0 <= x * p + 1664, y0 == p;
        assert(0 <= xd - x + 3329 <= b) by (nonlinear_arith)
            requires 2 * p * (3329 - x) <= 3328, w == (2 * p) * b + rw, 0 <= rw < 2 * p, w == 3329 + p, p >= 2,
                xd == 0, x < 3329;
        assert(b >= 0) by (nonlinear_arith)
            requires w == (2 * p) * b + rw, 0 <= rw < 2 * p, w == 3329 + p, p >= 2;
    }
}

/// Decompressing then compressing gives the compressed value back: for `1 <= d <= 11`
/// and `y` in `[0, 2^d)`, `Compress_d(Decompress_d(y)) = y`, and the decompressed value
/// lies in `[0, 3329)`.
pub proof fn lemma_decompress_compress(y: int, d: nat)
    requires
        1 <= d <= 11,
        0 <= y < pow2(d),
    ensures
        0 <= decompress_coef(y, d) < 3329,
        compress_coef(decompress_coef(y, d), d) == y,
{
    lemma_compress_powers(d);
    let p = pow2(d) as int;
    let h = pow2((d - 1) as nat) as int;
    let m = y * 3329 + h;
    assert(0 <= m);
    let x = m / p;
    lemma_fundamental_div_mod(m, p);
    lemma_mod_bound(m, p);
    assert(decompress_coef(y, d) == x);
    assert(m < 3329 * p) by (nonlinear_arith)
        requires m == y * 3329 + h, 0 <= y < p, 0 <= h < 3329;
    lemma_div_pos_is_pos(m, p);
    assert(x < 3329) by (nonlinear_arith)
        requires p * x <= m, m < 3329 * p, p > 0, m == p * x + m % p, 0 <= m % p;
    let n = x * p + 1664;
    assert(3329 * y <= n < 3329 * y + 3329) by (nonlinear_arith)
        requires m == p * x + m % p, 0 <= m % p < p, m == y * 3329 + h, p == 2 * h, h <= 1024, n == x * p + 1664;
    assert(n >= 0);
    lemma_fundamental_div_mod_converse(n, 3329, y, n - 3329 * y);
    assert(trunc_div(n, 3329) == y);
    lemma_trunc_rem(y, p);
    lemma_small_mod(y as nat, p as nat);
}

/// The coefficients of a ciphertext fit in `D_U` bits (for `u`) and `D_V` bits (for `v`).
pub open spec fn ciphertext_in_range(c: EncryptedMessage) -> bool {
    &&& forall|i: int, j: int| 0 <= i < K && 0 <= j < 256 ==> 0 <= #[trigger] c.u.c[i].c[j] < 1024
    &&& forall|j: int| 0 <= j < 256 ==> 0 <= #[trigger] c.v.c[j] < 16
}

/// The decompressed vector `u` of a ciphertext, polynomial by polynomial.
pub open spec fn decompressed_u(c: EncryptedMessage) -> Seq<Seq<int>> {
    Seq::new(
        K as nat,
        |i: int| Seq::new(256, |j: int| decompress_coef(c.u.c[i].c[j] as int, D_U as nat)),
    )
}

/// The decompressed polynomial `v` of a ciphertext.
pub open spec fn decompressed_v(c: EncryptedMessage) -> Seq<int> {
    Seq::new(256, |j: int| decompress_coef(c.v.c[j] as int, D_V as nat))
}

/// `v - s^T u` before rounding: `NTT^-1(NTT(v) - s . NTT(u))`.
pub open spec fn decrypt_noisy(c: EncryptedMessage, s: PolyVector<K>) -> Seq<int> {
    intt_spec(
        Seq::new(
            256,
            |k: int|
                (ntt_spec(decompressed_v(c))[k] - dotvec(pv_model(s), ntt_pv(decompressed_u(c)))[k]) % 3329,
        ),
    )
}

/// The message that decryption recovers: every coefficient of `v - s^T u` rounded.
pub open spec fn decrypt_spec(c: EncryptedMessage, s: PolyVector<K>) -> Seq<i32> {
    Seq::new(256, |j: int| round_coef(decrypt_noisy(c, s)[j]) as i32)
}

/// Kyber's CPA decryption with the secret `s` (in the transformed domain):
/// `m = round(v - s^T u)` after decompressing `u` and `v`.
pub fn decrypt(c: &EncryptedMessage, s: PolyVector<K>) -> (res: Vector<N>)
    requires
        ciphertext_in_range(*c),
        all_reduced(s),
    ensures
        res.m == Q,
        forall|j: int| 0 <= j < 256 ==> #[trigger] res.c[j] == round_coef(decrypt_noisy(*c, s)[j]),
        res.c@ == decrypt_spec(*c, s),
{
    // s is left untouched, it can serve for more decryptions
    let s_copy = s;
    proof {
        lemma_shl_pow2_facts();
        assert forall|i: int, j: int| 0 <= i < K && 0 <= j < 256 implies i32::MIN <= #[trigger] c.u.c[i].c[j]
            * 3329 && c.u.c[i].c[j] * 3329 + pow2((D_U - 1) as nat) <= i32::MAX by {
            lemma_decompress_range(c.u.c[i].c[j] as int, 10);
        }
        assert forall|j: int| 0 <= j < 256 implies i32::MIN <= #[trigger] c.v.c[j] * 3329 && c.v.c[j] * 3329
            + pow2((D_V - 1) as nat) <= i32::MAX by {
            lemma_decompress_range(c.v.c[j] as int, 4);
        }
    }
    let mut u_decompressed = decompress_polyvector(c.u, D_U);
    let mut v_decompressed = decompress(c.v, D_V);
    proof {
        assert forall|j: int| 0 <= j < 256 implies 0 <= #[trigger] v_decompressed.c[j] < 524288 by {
            lemma_decompress_range(c.v.c[j] as int, 4);
        }
        assert(coeffs(v_decompressed) =~= decompressed_v(*c));
    }
    v_decompressed = ntt(v_decompressed);
    let ghost u0 = u_decompressed;
    proof {
        assert forall|a: int, j: int| 0 <= a < K && 0 <= j < 256 implies 0 <= #[trigger] u0.c[a].c[j] < 3329 by {
            lemma_decompress_range(c.u.c[a].c[j] as int, 10);
        }
    }
    let mut i: usize = 0;
    while i < K
        invariant
            0 <= i <= K,
            forall|a: int, j: int| 0 <= a < K && 0 <= j < 256 ==> 0 <= #[trigger] u0.c[a].c[j] < 3329,
            forall|a: int| i <= a < K ==> #[trigger] u_decompressed.c[a] == u0.c[a],
            forall|a: int| 0 <= a < i ==> #[trigger] coeffs(u_decompressed.c[a]) == ntt_spec(coeffs(u0.c[a])),
            forall|a: int| 0 <= a < i ==> #[trigger] is_reduced(u_decompressed.c[a]),
        decreases K - i,
    {
        proof {
            assert forall|j: int| 0 <= j < 256 implies 0 <= #[trigger] u_decompressed.c[i as int].c[j] < 524288 by {
                assert(u_decompressed.c[i as int] == u0.c[i as int]);
            }
        }
        u_decompressed.c[i] = ntt(u_decompressed.c[i]);
        i += 1;
    }
    proof {
        assert forall|a: int| 0 <= a < K implies #[trigger] pv_model(u_decompressed)[a] == ntt_pv(
            decompressed_u(*c),
        )[a] by {
            assert(coeffs(u0.c[a]) =~= decompressed_u(*c)[a]);
        }
        assert(pv_model(u_decompressed) =~= ntt_pv(decompressed_u(*c)));
        assert forall|a: int| 0 <= a < K implies #[trigger] is_reduced(u_decompressed.c[a]) by {}
    }
    let w = s_copy.ntt_dot(u_decompressed);
    let ghost vh = v_decompressed;
    proof {
        assert forall|j: int| 0 <= j < 256 implies i32::MIN <= #[trigger] v_decompressed.c[j] - w.c[j]
            <= i32::MAX by {
            assert(0 <= v_decompressed.c[j] < 3329);
            assert(0 <= w.c[j] < 3329);
        }
    }
    v_decompressed.sub(w);
    proof {
        assert forall|j: int| 0 <= j < 256 implies 0 <= #[trigger] v_decompressed.c[j] < 524288 by {
            lemma_mod_bound(vh.c[j] - w.c[j], 3329);
        }
        assert forall|k: int| 0 <= k < 256 implies #[trigger] coeffs(v_decompressed)[k] == (ntt_spec(
            decompressed_v(*c),
        )[k] - dotvec(pv_model(s), ntt_pv(decompressed_u(*c)))[k]) % 3329 by {
            assert(coeffs(vh)[k] == vh.c[k]);
        }
        assert(coeffs(v_decompressed) =~= Seq::new(
            256,
            |k: int|
                (ntt_spec(decompressed_v(*c))[k] - dotvec(pv_model(s), ntt_pv(decompressed_u(*c)))[k])
                    % 3329,
        ));
    }
    v_decompressed = intt(v_decompressed);
    proof {
        assert forall|j: int| 0 <= j < 256 implies #[trigger] v_decompressed.c[j] == decrypt_noisy(*c, s)[j] by {
            assert(coeffs(v_decompressed)[j] == v_decompressed.c[j]);
        }
    }
    let res = round(v_decompressed);
    assert(res.c@ =~= decrypt_spec(*c, s));
    res
}

} // verus!
