//! Why decryption works: the transforms are linear, the product of transformed
//! polynomials is a commutative and associative product that distributes over
//! sums, and so decrypting an encryption gives the message scaled by `(Q+1)/2`
//! plus a noise term made of the small error polynomials. Whenever rounding absorbs
//! that noise, decryption gives back the message, decapsulation the encapsulated key,
//! and the decryption of an encrypted text the text.
use vstd::prelude::*;
use vstd::arithmetic::div_mod::*;
use vstd::arithmetic::mul::*;
use crate::ntt::{ZETA_TABLE, ZETA_INV_TABLE, basemul_spec, basemul_coef, gamma};
use crate::math_utils::{ntt_dot_coef, PolyMatrix, PolyVector, Vector, pv_model, coeffs};
use crate::kyber::{
    dotvec, compute_t_spec, compress_coef, decompress_coef, r_hat, ntt_pv, noise_polyvec, noise_poly,
    encrypt_u_spec, encrypt_v_spec, decrypt_noisy, decrypt_spec, decompressed_u, decompressed_v, round_coef,
    EncryptedMessage, lemma_bit_at,
};
use crate::kem::{
    is_encryption, PublicKey, PrivateKey, h_pk, g_halves, encapsulate_spec, decapsulate_spec,
    lemma_decapsulate_recovers_key, is_key_pair, chunk_msg, encrypts_chunk, decrypted_chunks,
};
use crate::format_utils::{chunk_count, chunk_poly, decoded_bytes, text_of_bytes, is_chunk_coeffs, lemma_bytes_roundtrip};
use vstd::utf8::{encode_utf8_valid_utf8, encode_utf8_decode_utf8};
use vstd::string::StringSliceAdditionalSpecFns;
use crate::encoding::byte_encode;
use crate::arith::{trunc_rem, mont_product, lemma_mont_product};
use crate::ntt_spec::lemma_intt_ntt_roundtrip;
use crate::parameters::{Q, K, N, ETA_1, ETA_2};
use crate::ntt_spec::{
    norm, scale, is_layer_len, layer_k, ntt_layer, intt_layer, ntt_from, intt_to, ntt_spec, intt_spec,
    is_reduced_poly, lemma_zeta_inverse, lemma_pair_index, lemma_scale_scale, lemma_scale_one,
    lemma_intt_to_len, lemma_norm_reduced, lemma_intt_spec_reduced, lemma_ntt_spec_reduced,
    lemma_scale_reduced,
};

verus! {

/// `c * x + d * y` coefficient by coefficient, modulo 3329.
pub open spec fn pcomb(x: Seq<int>, y: Seq<int>, c: int, d: int) -> Seq<int> {
    Seq::new(256, |i: int| (c * x[i] + d * y[i]) % 3329)
}

/// Replacing `x` by its remainder in `(c * x + k) % q` changes nothing.
pub proof fn lemma_mod_in(x: int, c: int, k: int)
    ensures
        (c * (x % 3329) + k) % 3329 == (c * x + k) % 3329,
        ((x % 3329) * c + k) % 3329 == (x * c + k) % 3329,
{
    lemma_fundamental_div_mod(x, 3329);
    let w = x / 3329;
    assert(c * (x % 3329) + k == (c * x + k) + 3329 * (-(c * w))) by (nonlinear_arith)
        requires x == 3329 * w + x % 3329;
    assert((x % 3329) * c + k == (x * c + k) + 3329 * (-(c * w))) by (nonlinear_arith)
        requires x == 3329 * w + x % 3329;
    lemma_mod_add_multiple_int(c * x + k, -(c * w));
    lemma_mod_add_multiple_int(x * c + k, -(c * w));
}

/// Adding a multiple of 3329 does not change the remainder.
pub proof fn lemma_mod_add_multiple_int(a: int, k: int)
    ensures
        (a + 3329 * k) % 3329 == a % 3329,
{
    lemma_mod_multiples_vanish(k, a, 3329);
}

/// Two numbers whose difference is a multiple of 3329 have the same remainder.
pub proof fn lemma_mod_diff(a: int, b: int, k: int)
    requires
        a == b + 3329 * k,
    ensures
        a % 3329 == b % 3329,
{
    lemma_mod_add_multiple_int(b, k);
}

/// `c (a1 + z a2) + d (b1 + z b2) = (c a1 + d b1) + z (c a2 + d b2)`.
proof fn lemma_lin_step(c: int, d: int, z: int, a1: int, a2: int, b1: int, b2: int)
    ensures
        c * (a1 + z * a2) + d * (b1 + z * b2) == (c * a1 + d * b1) + z * (c * a2 + d * b2),
{
    lemma_mul_is_distributive_add(c, a1, z * a2);
    lemma_mul_is_distributive_add(d, b1, z * b2);
    lemma_mul_is_distributive_add(z, c * a2, d * b2);
    lemma_mul_is_associative(c, z, a2);
    lemma_mul_is_associative(z, c, a2);
    lemma_mul_is_commutative(c, z);
    lemma_mul_is_associative(d, z, b2);
    lemma_mul_is_associative(z, d, b2);
    lemma_mul_is_commutative(d, z);
}

/// `c ((a1 - a2) zi) + d ((b1 - b2) zi) = zi (c a1 + d b1) + (-zi) (c a2 + d b2)`.
proof fn lemma_lin_step_scaled(c: int, d: int, zi: int, a1: int, a2: int, b1: int, b2: int)
    ensures
        c * ((a1 - a2) * zi) + d * ((b1 - b2) * zi) == zi * (c * a1 + d * b1) + (-zi) * (c * a2 + d * b2),
{
    assert(c * ((a1 - a2) * zi) == zi * (c * a1) - zi * (c * a2)) by (nonlinear_arith);
    assert(d * ((b1 - b2) * zi) == zi * (d * b1) - zi * (d * b2)) by (nonlinear_arith);
    lemma_mul_is_distributive_add(zi, c * a1, d * b1);
    lemma_mul_is_distributive_add(-zi, c * a2, d * b2);
    assert((-zi) * (c * a2) == -(zi * (c * a2))) by (nonlinear_arith);
    assert((-zi) * (d * b2) == -(zi * (d * b2))) by (nonlinear_arith);
}

/// A forward layer is linear.
pub proof fn lemma_ntt_layer_comb(x: Seq<int>, y: Seq<int>, c: int, d: int, len: int)
    requires
        is_layer_len(len),
    ensures
        ntt_layer(pcomb(x, y, c, d), len) =~= pcomb(ntt_layer(x, len), ntt_layer(y, len), c, d),
{
    let p = pcomb(x, y, c, d);
    assert forall|i: int| 0 <= i < 256 implies #[trigger] ntt_layer(p, len)[i] == pcomb(
        ntt_layer(x, len),
        ntt_layer(y, len),
        c,
        d,
    )[i] by {
        lemma_pair_index(len, i);
        let z = ZETA_TABLE[layer_k(len, i)] as int;
        if i % (2 * len) < len {
            let j = i + len;
            let u = c * x[i] + d * y[i];
            let w = c * x[j] + d * y[j];
            // left: (u % q + z * (w % q)) % q
            lemma_mod_in(w, z, u % 3329);
            lemma_mod_in(u, 1, z * w);
            assert(1 * (u % 3329) + z * w == u % 3329 + z * w);
            assert(1 * u + z * w == u + z * w);
            let px = x[i] + z * x[j];
            let py = y[i] + z * y[j];
            lemma_mod_in(px, c, d * (py % 3329));
            lemma_mod_in(py, d, c * px);
            lemma_lin_step(c, d, z, x[i], x[j], y[i], y[j]);
        } else {
            let j = i - len;
            let u = c * x[j] + d * y[j];
            let w = c * x[i] + d * y[i];
            lemma_mod_in(w, -z, u % 3329);
            lemma_mod_in(u, 1, -z * w);
            assert((u % 3329) - z * (w % 3329) == 1 * (u % 3329) + (-z) * (w % 3329)) by (nonlinear_arith);
            assert(u % 3329 + (-z) * w == 1 * (u % 3329) + (-z) * w);
            assert(1 * u + (-z) * w == u - z * w) by (nonlinear_arith);
            let px = x[j] - z * x[i];
            let py = y[j] - z * y[i];
            lemma_mod_in(px, c, d * (py % 3329));
            lemma_mod_in(py, d, c * px);
            lemma_lin_step(c, d, -z, x[j], x[i], y[j], y[i]);
            assert((-z) * x[i] == -(z * x[i])) by (nonlinear_arith);
            assert((-z) * y[i] == -(z * y[i])) by (nonlinear_arith);
            assert((-z) * w == -(z * w)) by (nonlinear_arith);
        }
    }
}

/// An inverse layer is linear.
pub proof fn lemma_intt_layer_comb(x: Seq<int>, y: Seq<int>, c: int, d: int, len: int)
    requires
        is_layer_len(len),
    ensures
        intt_layer(pcomb(x, y, c, d), len) =~= pcomb(intt_layer(x, len), intt_layer(y, len), c, d),
{
    let p = pcomb(x, y, c, d);
    assert forall|i: int| 0 <= i < 256 implies #[trigger] intt_layer(p, len)[i] == pcomb(
        intt_layer(x, len),
        intt_layer(y, len),
        c,
        d,
    )[i] by {
        lemma_pair_index(len, i);
        let zi = ZETA_INV_TABLE[layer_k(len, i)] as int;
        if i % (2 * len) < len {
            let j = i + len;
            let u = c * x[i] + d * y[i];
            let w = c * x[j] + d * y[j];
            lemma_mod_in(w, 1, u % 3329);
            lemma_mod_in(u, 1, w);
            assert(1 * (u % 3329) + 1 * (w % 3329) == u % 3329 + w % 3329);
            assert(1 * (w % 3329) + u % 3329 == u % 3329 + w % 3329);
            assert(1 * w + u % 3329 == 1 * (u % 3329) + w);
            assert(1 * u + w == u + w);
            let px = x[i] + x[j];
            let py = y[i] + y[j];
            lemma_mod_in(px, c, d * (py % 3329));
            lemma_mod_in(py, d, c * px);
            assert(c * px + d * py == u + w) by (nonlinear_arith)
                requires px == x[i] + x[j], py == y[i] + y[j], u == c * x[i] + d * y[i], w == c * x[j] + d * y[j];
        } else {
            let j = i - len;
            let u = c * x[j] + d * y[j];
            let w = c * x[i] + d * y[i];
            // left: ((u % q - w % q) * zi) % q
            assert((u % 3329 - w % 3329) * zi == zi * (u % 3329) + (-zi) * (w % 3329)) by (nonlinear_arith);
            lemma_mod_in(w, -zi, zi * (u % 3329));
            assert((-zi) * (w % 3329) + zi * (u % 3329) == zi * (u % 3329) + (-zi) * (w % 3329));
            lemma_mod_in(u, zi, (-zi) * w);
            assert((-zi) * w + zi * (u % 3329) == zi * (u % 3329) + (-zi) * w);
            let px = (x[j] - x[i]) * zi;
            let py = (y[j] - y[i]) * zi;
            lemma_mod_in(px, c, d * (py % 3329));
            lemma_mod_in(py, d, c * px);
            lemma_lin_step_scaled(c, d, zi, x[j], x[i], y[j], y[i]);
        }
    }
}

/// The forward layers are linear.
pub proof fn lemma_ntt_from_comb(x: Seq<int>, y: Seq<int>, c: int, d: int, len: nat)
    requires
        len == 1 || is_layer_len(len as int),
    ensures
        ntt_from(pcomb(x, y, c, d), len) == pcomb(ntt_from(x, len), ntt_from(y, len), c, d),
    decreases len,
{
    if len > 1 {
        lemma_ntt_layer_comb(x, y, c, d, len as int);
        lemma_ntt_from_comb(ntt_layer(x, len as int), ntt_layer(y, len as int), c, d, len / 2);
    }
}

/// The inverse layers are linear.
pub proof fn lemma_intt_to_comb(x: Seq<int>, y: Seq<int>, c: int, d: int, len: nat)
    requires
        len == 1 || is_layer_len(len as int),
    ensures
        intt_to(pcomb(x, y, c, d), len) == pcomb(intt_to(x, len), intt_to(y, len), c, d),
    decreases len,
{
    if len > 1 {
        lemma_intt_to_comb(x, y, c, d, len / 2);
        lemma_intt_layer_comb(intt_to(x, len / 2), intt_to(y, len / 2), c, d, len as int);
    }
}

/// A combination is already reduced.
pub proof fn lemma_norm_pcomb(x: Seq<int>, y: Seq<int>, c: int, d: int)
    ensures
        norm(pcomb(x, y, c, d)) =~= pcomb(x, y, c, d),
{
    assert forall|i: int| 0 <= i < 256 implies #[trigger] norm(pcomb(x, y, c, d))[i] == pcomb(x, y, c, d)[i] by {
        lemma_mod_bound(c * x[i] + d * y[i], 3329);
        lemma_small_mod(pcomb(x, y, c, d)[i] as nat, 3329);
    }
}

/// A combination only depends on its operands modulo 3329.
pub proof fn lemma_pcomb_norm(x: Seq<int>, y: Seq<int>, c: int, d: int)
    requires
        x.len() == 256,
        y.len() == 256,
    ensures
        pcomb(norm(x), norm(y), c, d) =~= pcomb(x, y, c, d),
{
    assert forall|i: int| 0 <= i < 256 implies #[trigger] pcomb(norm(x), norm(y), c, d)[i] == pcomb(x, y, c, d)[i] by {
        lemma_mod_in(x[i], c, d * (y[i] % 3329));
        lemma_mod_in(y[i], d, c * x[i]);
        assert(d * (y[i] % 3329) + c * x[i] == c * x[i] + d * (y[i] % 3329));
        assert(d * y[i] + c * x[i] == c * x[i] + d * y[i]);
    }
}

/// Scaling distributes over a combination.
pub proof fn lemma_scale_pcomb(x: Seq<int>, y: Seq<int>, c: int, d: int, k: int)
    requires
        x.len() == 256,
        y.len() == 256,
    ensures
        scale(pcomb(x, y, c, d), k) =~= pcomb(scale(x, k), scale(y, k), c, d),
{
    assert forall|i: int| 0 <= i < 256 implies #[trigger] scale(pcomb(x, y, c, d), k)[i] == pcomb(
        scale(x, k),
        scale(y, k),
        c,
        d,
    )[i] by {
        let u = c * x[i] + d * y[i];
        lemma_mod_in(u, k, 0);
        lemma_mod_in(k * x[i], c, d * ((k * y[i]) % 3329));
        lemma_mod_in(k * y[i], d, c * (k * x[i]));
        assert(d * ((k * y[i]) % 3329) + c * (k * x[i]) == c * (k * x[i]) + d * ((k * y[i]) % 3329));
        assert(k * u == c * (k * x[i]) + d * (k * y[i])) by (nonlinear_arith)
            requires u == c * x[i] + d * y[i];
        assert(d * (k * y[i]) + c * (k * x[i]) == k * u + 0);
        assert(k * (u % 3329) + 0 == k * (u % 3329));
    }
}

/// The transform is linear: it maps `c x + d y` to `c ntt(x) + d ntt(y)`.
pub proof fn lemma_ntt_linear(x: Seq<int>, y: Seq<int>, c: int, d: int)
    requires
        x.len() == 256,
        y.len() == 256,
    ensures
        ntt_spec(pcomb(x, y, c, d)) == pcomb(ntt_spec(x), ntt_spec(y), c, d),
{
    lemma_norm_pcomb(x, y, c, d);
    lemma_pcomb_norm(x, y, c, d);
    lemma_ntt_from_comb(norm(x), norm(y), c, d, 128);
}

/// The inverse transform is linear.
pub proof fn lemma_intt_linear(x: Seq<int>, y: Seq<int>, c: int, d: int)
    requires
        x.len() == 256,
        y.len() == 256,
    ensures
        intt_spec(pcomb(x, y, c, d)) == pcomb(intt_spec(x), intt_spec(y), c, d),
{
    lemma_norm_pcomb(x, y, c, d);
    lemma_pcomb_norm(x, y, c, d);
    lemma_intt_to_comb(norm(x), norm(y), c, d, 128);
    lemma_intt_to_len(norm(x), 128);
    lemma_intt_to_len(norm(y), 128);
    lemma_scale_pcomb(intt_to(norm(x), 128), intt_to(norm(y), 128), c, d, 3303);
}

/// A Gentleman-Sande butterfly followed by a Cooley-Tukey butterfly with inverse
/// twiddle factors doubles both inputs.
proof fn lemma_butterfly_inverse_fwd(a: int, b: int, z: int, zi: int)
    requires
        (z * zi) % 3329 == 1,
    ensures
        ((a + b) % 3329 + z * (((a - b) * zi) % 3329)) % 3329 == (2 * a) % 3329,
        ((a + b) % 3329 - z * (((a - b) * zi) % 3329)) % 3329 == (2 * b) % 3329,
{
    let w = (a - b) * zi;
    lemma_mod_in(w, z, (a + b) % 3329);
    assert(z * (w % 3329) + (a + b) % 3329 == (a + b) % 3329 + z * (w % 3329));
    lemma_mod_in(a + b, 1, z * w);
    assert(1 * ((a + b) % 3329) + z * w == z * (w % 3329) + (a + b) % 3329 - z * (w % 3329) + z * w);
    lemma_mod_in(w, -z, (a + b) % 3329);
    lemma_mod_in(a + b, 1, (-z) * w);
    lemma_fundamental_div_mod(z * zi, 3329);
    let k = (z * zi) / 3329;
    assert(z * w == (a - b) + 3329 * (k * (a - b))) by (nonlinear_arith)
        requires w == (a - b) * zi, z * zi == 3329 * k + 1;
    assert((a + b) + z * w == 2 * a + 3329 * (k * (a - b)));
    lemma_mod_diff((a + b) + z * w, 2 * a, k * (a - b));
    assert((-z) * w == -(z * w)) by (nonlinear_arith);
    assert((a + b) + (-z) * w == 2 * b + 3329 * (-(k * (a - b))));
    lemma_mod_diff((a + b) + (-z) * w, 2 * b, -(k * (a - b)));
    assert((-z) * (w % 3329) == -(z * (w % 3329))) by (nonlinear_arith);
}

/// A forward layer undoes the inverse layer of the same half-width, up to a factor 2.
proof fn lemma_layer_inverse_fwd(t: Seq<int>, len: int)
    requires
        is_layer_len(len),
        t.len() == 256,
    ensures
        ntt_layer(intt_layer(t, len), len) =~= scale(t, 2),
{
    let l = intt_layer(t, len);
    assert forall|i: int| 0 <= i < 256 implies #[trigger] ntt_layer(l, len)[i] == scale(t, 2)[i] by {
        lemma_pair_index(len, i);
        let k = layer_k(len, i);
        lemma_zeta_inverse(k);
        let z = ZETA_TABLE[k] as int;
        let zi = ZETA_INV_TABLE[k] as int;
        if i % (2 * len) < len {
            lemma_butterfly_inverse_fwd(t[i], t[i + len], z, zi);
        } else {
            lemma_butterfly_inverse_fwd(t[i - len], t[i], z, zi);
        }
    }
}

/// The forward layers from `len` down undo the inverse layers up to `len`, up to a
/// factor `len`.
proof fn lemma_roundtrip_layers_fwd(t: Seq<int>, len: nat)
    requires
        len == 1 || is_layer_len(len as int),
        is_reduced_poly(t),
    ensures
        ntt_from(intt_to(t, len), len) =~= scale(t, len as int),
    decreases len,
{
    if len <= 1 {
        lemma_scale_one(t);
    } else {
        let half = len / 2;
        let w = intt_to(t, half);
        lemma_roundtrip_layers_fwd(t, half);
        lemma_intt_to_len(t, half);
        lemma_layer_inverse_fwd(w, len as int);
        // ntt_from(scale(w, 2), half) == scale(ntt_from(w, half), 2)
        assert(scale(w, 2) =~= pcomb(w, w, 2, 0));
        lemma_ntt_from_comb(w, w, 2, 0, half);
        assert(ntt_from(intt_to(t, len), len) == ntt_from(scale(w, 2), half));
        let f = ntt_from(w, half);
        assert(f =~= scale(t, half as int));
        assert(pcomb(f, f, 2, 0) =~= scale(f, 2));
        lemma_scale_scale(t, half as int, 2);
        assert(half * 2 == len);
    }
}

/// The transform undoes the inverse transform: `ntt(intt(x))` is `x` reduced modulo 3329.
pub proof fn lemma_ntt_intt_roundtrip(x: Seq<int>)
    requires
        x.len() == 256,
    ensures
        ntt_spec(intt_spec(x)) =~= norm(x),
{
    let t = norm(x);
    lemma_norm_reduced(x);
    let w = intt_to(t, 128);
    lemma_intt_to_len(t, 128);
    lemma_intt_spec_reduced(x);
    // norm(intt_spec(x)) == intt_spec(x) == scale(w, 3303)
    assert(norm(intt_spec(x)) =~= intt_spec(x)) by {
        assert forall|i: int| 0 <= i < 256 implies #[trigger] norm(intt_spec(x))[i] == intt_spec(x)[i] by {
            lemma_small_mod(intt_spec(x)[i] as nat, 3329);
        }
    }
    assert(scale(w, 3303) =~= pcomb(w, w, 3303, 0));
    lemma_ntt_from_comb(w, w, 3303, 0, 128);
    lemma_roundtrip_layers_fwd(t, 128);
    let f = ntt_from(w, 128);
    assert(pcomb(f, f, 3303, 0) =~= scale(f, 3303));
    lemma_scale_scale(t, 128, 3303);
    assert forall|i: int| 0 <= i < 256 implies #[trigger] scale(t, 128int * 3303)[i] == t[i] by {
        let ti = t[i];
        assert(128 * 3303 * ti == ti + 3329 * (127 * ti)) by (nonlinear_arith);
        lemma_mod_add_multiple_int(ti, 127 * ti);
        lemma_small_mod(t[i] as nat, 3329);
    }
}

/// Replacing `u` and `w` by their remainders in `(u c1 + w c2 + k) % q` changes nothing.
pub proof fn lemma_mod_in2(u: int, w: int, c1: int, c2: int, k: int)
    ensures
        ((u % 3329) * c1 + (w % 3329) * c2 + k) % 3329 == (u * c1 + w * c2 + k) % 3329,
{
    lemma_mod_in(u, c1, (w % 3329) * c2 + k);
    lemma_mod_in(w, c2, u * c1 + k);
    assert((u % 3329) * c1 + ((w % 3329) * c2 + k) == (u % 3329) * c1 + (w % 3329) * c2 + k);
    assert(u * c1 + ((w % 3329) * c2 + k) == (w % 3329) * c2 + (u * c1 + k));
    assert(w * c2 + (u * c1 + k) == u * c1 + w * c2 + k);
}

/// Rearranging a product of four factors.
proof fn lemma_mul4(a: int, b: int, c: int, d: int)
    ensures
        (a * b) * (c * d) == a * (c * (b * d)),
        (a * (b * c)) * d == a * (b * (c * d)),
        (a * b) * (c * d) == c * (a * (b * d)),
{
    lemma_mul_is_associative(a, b, c * d);
    lemma_mul_is_associative(b, c, d);
    lemma_mul_is_commutative(b, c);
    lemma_mul_is_associative(c, b, d);
    lemma_mul_is_associative(a, b * c, d);
    lemma_mul_is_associative(a, c, b * d);
    lemma_mul_is_commutative(a, c);
    lemma_mul_is_associative(c, a, b * d);
}

proof fn lemma_ident_comb_even(c: int, d: int, x0: int, x1: int, y0: int, y1: int, b0: int, b1: int, g: int)
    ensures
        (c * x0 + d * y0) * b0 + (c * x1 + d * y1) * (g * b1) == (x0 * b0 + g * (x1 * b1)) * c + (y0 * b0 + g
            * (y1 * b1)) * d,
{
    assert((c * x0 + d * y0) * b0 == c * (x0 * b0) + d * (y0 * b0)) by (nonlinear_arith);
    lemma_mul_is_distributive_add_other_way(g * b1, c * x1, d * y1);
    lemma_mul4(c, x1, g, b1);
    lemma_mul4(d, y1, g, b1);
    assert((x0 * b0 + g * (x1 * b1)) * c == c * (x0 * b0) + c * (g * (x1 * b1))) by (nonlinear_arith);
    assert((y0 * b0 + g * (y1 * b1)) * d == d * (y0 * b0) + d * (g * (y1 * b1))) by (nonlinear_arith);
}

proof fn lemma_ident_comb_odd(c: int, d: int, x0: int, x1: int, y0: int, y1: int, b0: int, b1: int)
    ensures
        (c * x0 + d * y0) * b1 + (c * x1 + d * y1) * b0 == (x0 * b1 + x1 * b0) * c + (y0 * b1 + y1 * b0) * d,
{
    assert((c * x0 + d * y0) * b1 == c * (x0 * b1) + d * (y0 * b1)) by (nonlinear_arith);
    assert((c * x1 + d * y1) * b0 == c * (x1 * b0) + d * (y1 * b0)) by (nonlinear_arith);
    assert((x0 * b1 + x1 * b0) * c == c * (x0 * b1) + c * (x1 * b0)) by (nonlinear_arith);
    assert((y0 * b1 + y1 * b0) * d == d * (y0 * b1) + d * (y1 * b0)) by (nonlinear_arith);
}

/// The product of transformed polynomials distributes over a combination in its
/// first operand.
pub proof fn lemma_bm_comb_left(x: Seq<int>, y: Seq<int>, c: int, d: int, b: Seq<int>)
    ensures
        basemul_spec(pcomb(x, y, c, d), b) =~= pcomb(basemul_spec(x, b), basemul_spec(y, b), c, d),
{
    reveal(basemul_coef);
    let p = pcomb(x, y, c, d);
    assert forall|i: int| 0 <= i < 256 implies #[trigger] basemul_spec(p, b)[i] == pcomb(
        basemul_spec(x, b),
        basemul_spec(y, b),
        c,
        d,
    )[i] by {
        if i % 2 == 0 {
            let g = gamma(i / 2);
            assert(i + 1 < 256);
            let u = c * x[i] + d * y[i];
            let w = c * x[i + 1] + d * y[i + 1];
            assert(p[i] * b[i] + g * (p[i + 1] * b[i + 1]) == (u % 3329) * b[i] + (w % 3329) * (g * b[i + 1]))
                by (nonlinear_arith)
                requires p[i] == u % 3329, p[i + 1] == w % 3329;
            lemma_mod_in2(u, w, b[i], g * b[i + 1], 0);
            let xs = x[i] * b[i] + g * (x[i + 1] * b[i + 1]);
            let ys = y[i] * b[i] + g * (y[i + 1] * b[i + 1]);
            lemma_mod_in2(xs, ys, c, d, 0);
            assert(c * (xs % 3329) + d * (ys % 3329) == (xs % 3329) * c + (ys % 3329) * d + 0) by (nonlinear_arith);
            lemma_ident_comb_even(c, d, x[i], x[i + 1], y[i], y[i + 1], b[i], b[i + 1], g);
        } else {
            let u = c * x[i - 1] + d * y[i - 1];
            let w = c * x[i] + d * y[i];
            assert(p[i - 1] * b[i] + p[i] * b[i - 1] == (u % 3329) * b[i] + (w % 3329) * b[i - 1] + 0);
            lemma_mod_in2(u, w, b[i], b[i - 1], 0);
            let xs = x[i - 1] * b[i] + x[i] * b[i - 1];
            let ys = y[i - 1] * b[i] + y[i] * b[i - 1];
            lemma_mod_in2(xs, ys, c, d, 0);
            assert(c * (xs % 3329) + d * (ys % 3329) == (xs % 3329) * c + (ys % 3329) * d + 0) by (nonlinear_arith);
            lemma_ident_comb_odd(c, d, x[i - 1], x[i], y[i - 1], y[i], b[i - 1], b[i]);
        }
    }
}

/// The product of transformed polynomials is commutative.
pub proof fn lemma_bm_comm(a: Seq<int>, b: Seq<int>)
    ensures
        basemul_spec(a, b) =~= basemul_spec(b, a),
{
    reveal(basemul_coef);
    assert forall|i: int| 0 <= i < 256 implies #[trigger] basemul_spec(a, b)[i] == basemul_spec(b, a)[i] by {
        if i % 2 == 0 {
            lemma_mul_is_commutative(a[i], b[i]);
            lemma_mul_is_commutative(a[i + 1], b[i + 1]);
        } else {
            lemma_mul_is_commutative(a[i - 1], b[i]);
            lemma_mul_is_commutative(a[i], b[i - 1]);
        }
    }
}

proof fn lemma_ident_assoc_even(a0: int, a1: int, b0: int, b1: int, c0: int, c1: int, g: int)
    ensures
        (a0 * b0 + g * (a1 * b1)) * c0 + (a0 * b1 + a1 * b0) * (g * c1) == (b0 * c0 + g * (b1 * c1)) * a0 + (b0
            * c1 + b1 * c0) * (g * a1),
{
    lemma_mul_is_distributive_add_other_way(c0, a0 * b0, g * (a1 * b1));
    lemma_mul_is_associative(a0, b0, c0);
    lemma_mul4(g, a1, b1, c0);
    lemma_mul_is_distributive_add_other_way(g * c1, a0 * b1, a1 * b0);
    lemma_mul4(a0, b1, g, c1);
    lemma_mul4(a1, b0, g, c1);
    assert((b0 * c0 + g * (b1 * c1)) * a0 == a0 * (b0 * c0) + g * (a0 * (b1 * c1))) by (nonlinear_arith);
    assert((b0 * c1 + b1 * c0) * (g * a1) == g * (a1 * (b0 * c1)) + g * (a1 * (b1 * c0))) by (nonlinear_arith);
}

proof fn lemma_ident_assoc_odd(a0: int, a1: int, b0: int, b1: int, c0: int, c1: int, g: int)
    ensures
        (a0 * b0 + g * (a1 * b1)) * c1 + (a0 * b1 + a1 * b0) * c0 == (b0 * c1 + b1 * c0) * a0 + (b0 * c0 + g * (
            b1 * c1)) * a1,
{
    lemma_mul_is_distributive_add_other_way(c1, a0 * b0, g * (a1 * b1));
    lemma_mul_is_associative(a0, b0, c1);
    lemma_mul4(g, a1, b1, c1);
    assert((a0 * b1 + a1 * b0) * c0 == a0 * (b1 * c0) + a1 * (b0 * c0)) by (nonlinear_arith);
    assert((b0 * c1 + b1 * c0) * a0 == a0 * (b0 * c1) + a0 * (b1 * c0)) by (nonlinear_arith);
    assert((b0 * c0 + g * (b1 * c1)) * a1 == a1 * (b0 * c0) + g * (a1 * (b1 * c1))) by (nonlinear_arith);
}

/// The product of transformed polynomials is associative.
pub proof fn lemma_bm_assoc(a: Seq<int>, b: Seq<int>, c: Seq<int>)
    ensures
        basemul_spec(basemul_spec(a, b), c) =~= basemul_spec(a, basemul_spec(b, c)),
{
    reveal(basemul_coef);
    let ab = basemul_spec(a, b);
    let bc = basemul_spec(b, c);
    assert forall|i: int| 0 <= i < 256 implies #[trigger] basemul_spec(ab, c)[i] == basemul_spec(a, bc)[i] by {
        if i % 2 == 0 {
            let g = gamma(i / 2);
            assert(i + 1 < 256);
            assert((i + 1) % 2 == 1);
            assert((i + 1) / 2 == i / 2);
            let p0 = a[i] * b[i] + g * (a[i + 1] * b[i + 1]);
            let p1 = a[i] * b[i + 1] + a[i + 1] * b[i];
            let q0 = b[i] * c[i] + g * (b[i + 1] * c[i + 1]);
            let q1 = b[i] * c[i + 1] + b[i + 1] * c[i];
            assert(ab[i] == p0 % 3329 && ab[i + 1] == p1 % 3329);
            assert(bc[i] == q0 % 3329 && bc[i + 1] == q1 % 3329);
            assert(ab[i] * c[i] + g * (ab[i + 1] * c[i + 1]) == (p0 % 3329) * c[i] + (p1 % 3329) * (g * c[i + 1])
                + 0) by (nonlinear_arith)
                requires ab[i] == p0 % 3329, ab[i + 1] == p1 % 3329;
            lemma_mod_in2(p0, p1, c[i], g * c[i + 1], 0);
            assert(a[i] * bc[i] + g * (a[i + 1] * bc[i + 1]) == (q0 % 3329) * a[i] + (q1 % 3329) * (g * a[i + 1])
                + 0) by (nonlinear_arith)
                requires bc[i] == q0 % 3329, bc[i + 1] == q1 % 3329;
            lemma_mod_in2(q0, q1, a[i], g * a[i + 1], 0);
            lemma_ident_assoc_even(a[i], a[i + 1], b[i], b[i + 1], c[i], c[i + 1], g);
        } else {
            let g = gamma((i - 1) / 2);
            assert((i - 1) % 2 == 0);
            let p0 = a[i - 1] * b[i - 1] + g * (a[i] * b[i]);
            let p1 = a[i - 1] * b[i] + a[i] * b[i - 1];
            let q0 = b[i - 1] * c[i - 1] + g * (b[i] * c[i]);
            let q1 = b[i - 1] * c[i] + b[i] * c[i - 1];
            assert(ab[i - 1] == p0 % 3329 && ab[i] == p1 % 3329);
            assert(bc[i - 1] == q0 % 3329 && bc[i] == q1 % 3329);
            assert(ab[i - 1] * c[i] + ab[i] * c[i - 1] == (p0 % 3329) * c[i] + (p1 % 3329) * c[i - 1] + 0);
            lemma_mod_in2(p0, p1, c[i], c[i - 1], 0);
            assert(a[i - 1] * bc[i] + a[i] * bc[i - 1] == (q1 % 3329) * a[i - 1] + (q0 % 3329) * a[i] + 0)
                by (nonlinear_arith)
                requires bc[i - 1] == q0 % 3329, bc[i] == q1 % 3329;
            lemma_mod_in2(q1, q0, a[i - 1], a[i], 0);
            lemma_ident_assoc_odd(a[i - 1], a[i], b[i - 1], b[i], c[i - 1], c[i], g);
        }
    }
}

/// `x` and `y` are congruent modulo 3329.
pub open spec fn cong(x: int, y: int) -> bool {
    x % 3329 == y % 3329
}

proof fn lemma_cong_add(a: int, a2: int, b: int, b2: int)
    requires
        cong(a, a2),
        cong(b, b2),
    ensures
        cong(a + b, a2 + b2),
{
    lemma_add_mod_noop(a, b, 3329);
    lemma_add_mod_noop(a2, b2, 3329);
}

proof fn lemma_cong_sub(a: int, a2: int, b: int, b2: int)
    requires
        cong(a, a2),
        cong(b, b2),
    ensures
        cong(a - b, a2 - b2),
{
    lemma_sub_mod_noop(a, b, 3329);
    lemma_sub_mod_noop(a2, b2, 3329);
}

proof fn lemma_cong_mod(x: int)
    ensures
        cong(x % 3329, x),
{
    lemma_mod_bound(x, 3329);
    lemma_small_mod((x % 3329) as nat, 3329);
}

/// The sum of three polynomials modulo 3329.
pub open spec fn psum3(x: Seq<int>, y: Seq<int>, z: Seq<int>) -> Seq<int> {
    pcomb(pcomb(x, y, 1, 1), z, 1, 1)
}

proof fn lemma_psum3_cong(x: Seq<int>, y: Seq<int>, z: Seq<int>, k: int)
    requires
        0 <= k < 256,
    ensures
        cong(psum3(x, y, z)[k], x[k] + y[k] + z[k]),
        cong(pcomb(x, y, 1, 1)[k], x[k] + y[k]),
{
    let u = x[k] + y[k];
    lemma_mod_in(u, 1, z[k]);
    lemma_cong_mod(u + z[k]);
    lemma_cong_mod(u);
}

/// The transformed dot product of two vectors of three polynomials is the sum of the
/// three products.
pub proof fn lemma_dotvec3(a: Seq<Seq<int>>, b: Seq<Seq<int>>)
    requires
        a.len() == 3,
    ensures
        dotvec(a, b) =~= psum3(basemul_spec(a[0], b[0]), basemul_spec(a[1], b[1]), basemul_spec(a[2], b[2])),
{
    reveal_with_fuel(ntt_dot_coef, 4);
    let p = psum3(basemul_spec(a[0], b[0]), basemul_spec(a[1], b[1]), basemul_spec(a[2], b[2]));
    assert forall|k: int| 0 <= k < 256 implies #[trigger] dotvec(a, b)[k] == p[k] by {
        let m0 = basemul_spec(a[0], b[0])[k];
        let m1 = basemul_spec(a[1], b[1])[k];
        let m2 = basemul_spec(a[2], b[2])[k];
        reveal(basemul_coef);
        lemma_mod_bound(0 + m0, 3329);
        assert(ntt_dot_coef(a, b, 3, k) == (((0 + m0) % 3329 + m1) % 3329 + m2) % 3329);
        assert(m0 == basemul_coef(a[0], b[0], k));
        lemma_mod_bound(m0, 3329);
        lemma_mod_bound(a[0][k] * b[0][k] + gamma(k / 2) * (a[0][k + 1] * b[0][k + 1]), 3329);
        lemma_mod_bound(a[0][k - 1] * b[0][k] + a[0][k] * b[0][k - 1], 3329);
        lemma_small_mod(m0 as nat, 3329);
        assert(p[k] == ((1 * m0 + 1 * m1) % 3329 * 1 + 1 * m2) % 3329);
    }
}

/// The product distributes over a sum of three polynomials in either operand.
pub proof fn lemma_bm_psum3(x: Seq<int>, y: Seq<int>, z: Seq<int>, b: Seq<int>)
    ensures
        basemul_spec(psum3(x, y, z), b) =~= psum3(basemul_spec(x, b), basemul_spec(y, b), basemul_spec(z, b)),
        basemul_spec(b, psum3(x, y, z)) =~= psum3(basemul_spec(b, x), basemul_spec(b, y), basemul_spec(b, z)),
{
    lemma_bm_comb_left(pcomb(x, y, 1, 1), z, 1, 1, b);
    lemma_bm_comb_left(x, y, 1, 1, b);
    lemma_bm_comm(b, psum3(x, y, z));
    lemma_bm_comm(b, x);
    lemma_bm_comm(b, y);
    lemma_bm_comm(b, z);
}

/// The product distributes over a sum of two polynomials in its second operand.
pub proof fn lemma_bm_padd_right(s: Seq<int>, x: Seq<int>, y: Seq<int>)
    ensures
        basemul_spec(s, pcomb(x, y, 1, 1)) =~= pcomb(basemul_spec(s, x), basemul_spec(s, y), 1, 1),
{
    lemma_bm_comm(s, pcomb(x, y, 1, 1));
    lemma_bm_comb_left(x, y, 1, 1, s);
    lemma_bm_comm(s, x);
    lemma_bm_comm(s, y);
}

/// `(a s) r = s (a r)`.
pub proof fn lemma_bm_swap(a: Seq<int>, s: Seq<int>, r: Seq<int>)
    ensures
        basemul_spec(basemul_spec(a, s), r) =~= basemul_spec(s, basemul_spec(a, r)),
{
    lemma_bm_comm(a, s);
    lemma_bm_assoc(s, a, r);
}

/// The term `s_c (A_rc r_r)` of the products that cancel in decryption.
pub open spec fn cancel_term(a: PolyMatrix<3, 3>, s: PolyVector<3>, rh: Seq<Seq<int>>, r: int, c: int) -> Seq<int> {
    basemul_spec(pv_model(s)[c], basemul_spec(pv_model(a.row_vecs[r])[c], rh[r]))
}

/// Coefficient `k` of the nine cancelling terms, summed.
pub open spec fn cancel_sum(a: PolyMatrix<3, 3>, s: PolyVector<3>, rh: Seq<Seq<int>>, k: int) -> int {
    cancel_term(a, s, rh, 0, 0)[k] + cancel_term(a, s, rh, 0, 1)[k] + cancel_term(a, s, rh, 0, 2)[k]
        + cancel_term(a, s, rh, 1, 0)[k] + cancel_term(a, s, rh, 1, 1)[k] + cancel_term(a, s, rh, 1, 2)[k]
        + cancel_term(a, s, rh, 2, 0)[k] + cancel_term(a, s, rh, 2, 1)[k] + cancel_term(a, s, rh, 2, 2)[k]
}

/// Row `r` of `t = A s + e` in the transformed domain is `A_r . s + ntt(e_r)`.
proof fn lemma_t_rows(a: PolyMatrix<3, 3>, s: PolyVector<3>, e: Seq<Seq<int>>, t: PolyVector<3>, r: int)
    requires
        0 <= r < 3,
        a.row_vecs[r].m == Q,
        pv_model(t) == compute_t_spec(a, s, e),
    ensures
        pv_model(t)[r] =~= pcomb(dotvec(pv_model(a.row_vecs[r]), pv_model(s)), ntt_spec(e[r]), 1, 1),
{
    assert(pv_model(t)[r] == compute_t_spec(a, s, e)[r]);
}

/// Coefficient `k` of `t . r` is, modulo 3329, the nine cancelling terms plus
/// `ntt(e) . r`.
proof fn lemma_t_dot_r(a: PolyMatrix<3, 3>, s: PolyVector<3>, e: Seq<Seq<int>>, t: PolyVector<3>, rh: Seq<Seq<int>>, k: int)
    requires
        0 <= k < 256,
        rh.len() == 3,
        forall|r: int| 0 <= r < 3 ==> #[trigger] a.row_vecs[r].m == Q,
        pv_model(t) == compute_t_spec(a, s, e),
    ensures
        cong(
            dotvec(pv_model(t), rh)[k],
            cancel_sum(a, s, rh, k) + basemul_spec(ntt_spec(e[0]), rh[0])[k] + basemul_spec(ntt_spec(e[1]), rh[1])[k]
                + basemul_spec(ntt_spec(e[2]), rh[2])[k],
        ),
{
    let th = pv_model(t);
    let sh = pv_model(s);
    lemma_dotvec3(th, rh);
    lemma_psum3_cong(basemul_spec(th[0], rh[0]), basemul_spec(th[1], rh[1]), basemul_spec(th[2], rh[2]), k);
    assert forall|r: int| 0 <= r < 3 implies cong(
        #[trigger] basemul_spec(th[r], rh[r])[k],
        cancel_term(a, s, rh, r, 0)[k] + cancel_term(a, s, rh, r, 1)[k] + cancel_term(a, s, rh, r, 2)[k]
            + basemul_spec(ntt_spec(e[r]), rh[r])[k],
    ) by {
        let ar = pv_model(a.row_vecs[r]);
        lemma_t_rows(a, s, e, t, r);
        let da = dotvec(ar, sh);
        let eh = ntt_spec(e[r]);
        lemma_bm_comb_left(da, eh, 1, 1, rh[r]);
        lemma_dotvec3(ar, sh);
        lemma_bm_psum3(
            basemul_spec(ar[0], sh[0]),
            basemul_spec(ar[1], sh[1]),
            basemul_spec(ar[2], sh[2]),
            rh[r],
        );
        lemma_bm_swap(ar[0], sh[0], rh[r]);
        lemma_bm_swap(ar[1], sh[1], rh[r]);
        lemma_bm_swap(ar[2], sh[2], rh[r]);
        let x = basemul_spec(da, rh[r]);
        let y = basemul_spec(eh, rh[r]);
        lemma_psum3_cong(x, y, y, k);
        lemma_psum3_cong(
            cancel_term(a, s, rh, r, 0),
            cancel_term(a, s, rh, r, 1),
            cancel_term(a, s, rh, r, 2),
            k,
        );
        lemma_cong_add(x[k], cancel_term(a, s, rh, r, 0)[k] + cancel_term(a, s, rh, r, 1)[k] + cancel_term(a, s, rh, r, 2)[k], y[k], y[k]);
    }
    let b0 = basemul_spec(th[0], rh[0])[k];
    let b1 = basemul_spec(th[1], rh[1])[k];
    let b2 = basemul_spec(th[2], rh[2])[k];
    let z0 = cancel_term(a, s, rh, 0, 0)[k] + cancel_term(a, s, rh, 0, 1)[k] + cancel_term(a, s, rh, 0, 2)[k]
        + basemul_spec(ntt_spec(e[0]), rh[0])[k];
    let z1 = cancel_term(a, s, rh, 1, 0)[k] + cancel_term(a, s, rh, 1, 1)[k] + cancel_term(a, s, rh, 1, 2)[k]
        + basemul_spec(ntt_spec(e[1]), rh[1])[k];
    let z2 = cancel_term(a, s, rh, 2, 0)[k] + cancel_term(a, s, rh, 2, 1)[k] + cancel_term(a, s, rh, 2, 2)[k]
        + basemul_spec(ntt_spec(e[2]), rh[2])[k];
    assert(cong(b0, z0));
    assert(cong(b1, z1));
    assert(cong(b2, z2));
    lemma_cong_add(b0, z0, b1, z1);
    lemma_cong_add(b0 + b1, z0 + z1, b2, z2);
}

/// Coefficient `k` of `s . nd`, where polynomial `i` of `nd` is `A^T_i . r + F_i`, is,
/// modulo 3329, the nine cancelling terms plus `s . F`.
proof fn lemma_s_dot_u(a: PolyMatrix<3, 3>, s: PolyVector<3>, rh: Seq<Seq<int>>, nd: Seq<Seq<int>>, f: Seq<Seq<int>>, k: int)
    requires
        0 <= k < 256,
        rh.len() == 3,
        nd.len() == 3,
        a.wf(),
        forall|i: int| 0 <= i < 3 ==> #[trigger] nd[i] == pcomb(dotvec(pv_model(a.col_vecs[i]), rh), f[i], 1, 1),
    ensures
        cong(
            dotvec(pv_model(s), nd)[k],
            cancel_sum(a, s, rh, k) + basemul_spec(pv_model(s)[0], f[0])[k] + basemul_spec(pv_model(s)[1], f[1])[k]
                + basemul_spec(pv_model(s)[2], f[2])[k],
        ),
{
    let sh = pv_model(s);
    lemma_dotvec3(sh, nd);
    lemma_psum3_cong(basemul_spec(sh[0], nd[0]), basemul_spec(sh[1], nd[1]), basemul_spec(sh[2], nd[2]), k);
    assert forall|i: int| 0 <= i < 3 implies cong(
        #[trigger] basemul_spec(sh[i], nd[i])[k],
        cancel_term(a, s, rh, 0, i)[k] + cancel_term(a, s, rh, 1, i)[k] + cancel_term(a, s, rh, 2, i)[k]
            + basemul_spec(sh[i], f[i])[k],
    ) by {
        let col = pv_model(a.col_vecs[i]);
        let ci = dotvec(col, rh);
        assert forall|c: int| 0 <= c < 3 implies #[trigger] col[c] == pv_model(a.row_vecs[c])[i] by {
            assert(a.row_vecs[c].c[i] == a.col_vecs[i].c[c]);
        }
        lemma_bm_padd_right(sh[i], ci, f[i]);
        lemma_dotvec3(col, rh);
        lemma_bm_psum3(
            basemul_spec(col[0], rh[0]),
            basemul_spec(col[1], rh[1]),
            basemul_spec(col[2], rh[2]),
            sh[i],
        );
        let x = basemul_spec(sh[i], ci);
        let y = basemul_spec(sh[i], f[i]);
        lemma_psum3_cong(x, y, y, k);
        lemma_psum3_cong(
            cancel_term(a, s, rh, 0, i),
            cancel_term(a, s, rh, 1, i),
            cancel_term(a, s, rh, 2, i),
            k,
        );
        lemma_cong_add(x[k], cancel_term(a, s, rh, 0, i)[k] + cancel_term(a, s, rh, 1, i)[k] + cancel_term(a, s, rh, 2, i)[k], y[k], y[k]);
    }
    let b0 = basemul_spec(sh[0], nd[0])[k];
    let b1 = basemul_spec(sh[1], nd[1])[k];
    let b2 = basemul_spec(sh[2], nd[2])[k];
    let z0 = cancel_term(a, s, rh, 0, 0)[k] + cancel_term(a, s, rh, 1, 0)[k] + cancel_term(a, s, rh, 2, 0)[k]
        + basemul_spec(sh[0], f[0])[k];
    let z1 = cancel_term(a, s, rh, 0, 1)[k] + cancel_term(a, s, rh, 1, 1)[k] + cancel_term(a, s, rh, 2, 1)[k]
        + basemul_spec(sh[1], f[1])[k];
    let z2 = cancel_term(a, s, rh, 0, 2)[k] + cancel_term(a, s, rh, 1, 2)[k] + cancel_term(a, s, rh, 2, 2)[k]
        + basemul_spec(sh[2], f[2])[k];
    assert(cong(b0, z0));
    assert(cong(b1, z1));
    assert(cong(b2, z2));
    lemma_cong_add(b0, z0, b1, z1);
    lemma_cong_add(b0 + b1, z0 + z1, b2, z2);
}

/// `u` of an encryption before compression: polynomial `i` is `NTT^-1(A^T_i . r) + e1_i`,
/// reduced.
pub open spec fn cpa_u(a: PolyMatrix<3, 3>, coins: Seq<u8>) -> Seq<Seq<int>> {
    Seq::new(
        K as nat,
        |i: int|
            Seq::new(
                256,
                |j: int|
                    trunc_rem(
                        intt_spec(dotvec(pv_model(a.col_vecs[i]), r_hat(coins)))[j]
                            + noise_polyvec(ETA_2 as int, coins, K as int)[i][j],
                        3329,
                    ),
            ),
    )
}

/// `v` of an encryption before compression: `NTT^-1(t . r) + e2 + 1665 m`, reduced.
pub open spec fn cpa_v(t: PolyVector<3>, msg: Seq<i32>, coins: Seq<u8>) -> Seq<int> {
    Seq::new(
        256,
        |j: int|
            trunc_rem(
                trunc_rem(
                    intt_spec(dotvec(pv_model(t), r_hat(coins)))[j] + noise_poly(ETA_2 as int, coins, 2 * K)[j],
                    3329,
                ) + mont_product(1665, msg[j]),
                3329,
            ),
    )
}

/// What compressing `x` to `d` bits and decompressing adds to it.
pub open spec fn comp_err(x: int, d: nat) -> int {
    decompress_coef(compress_coef(x, d), d) - x
}

/// The error of `u` as decryption sees it: `e1` plus the compression error of `u`.
pub open spec fn u_noise(a: PolyMatrix<3, 3>, coins: Seq<u8>) -> Seq<Seq<int>> {
    Seq::new(
        K as nat,
        |i: int|
            Seq::new(
                256,
                |j: int| noise_polyvec(ETA_2 as int, coins, K as int)[i][j] + comp_err(cpa_u(a, coins)[i][j], 10),
            ),
    )
}

/// The noise of decrypting the encryption of a message under the key `(A, t = A s + e)`:
/// `e2 + (compression error of v) + NTT^-1(e . r - s . (e1 + compression error of u))`.
pub open spec fn cpa_noise(
    a: PolyMatrix<3, 3>,
    t: PolyVector<3>,
    s: PolyVector<3>,
    e: Seq<Seq<int>>,
    msg: Seq<i32>,
    coins: Seq<u8>,
) -> Seq<int> {
    let n = pcomb(dotvec(ntt_pv(e), r_hat(coins)), dotvec(pv_model(s), ntt_pv(u_noise(a, coins))), 1, -1);
    Seq::new(
        256,
        |j: int| noise_poly(ETA_2 as int, coins, 2 * K)[j] + comp_err(cpa_v(t, msg, coins)[j], 4) + intt_spec(n)[j],
    )
}

/// Congruent polynomials have the same transform.
proof fn lemma_ntt_of_cong(x: Seq<int>, y: Seq<int>)
    requires
        x.len() == 256,
        y.len() == 256,
        forall|j: int| 0 <= j < 256 ==> cong(#[trigger] x[j], y[j]),
    ensures
        ntt_spec(x) == ntt_spec(y),
        intt_spec(x) == intt_spec(y),
{
    assert(norm(x) =~= norm(y));
}

/// A combination is reduced.
proof fn lemma_pcomb_reduced(x: Seq<int>, y: Seq<int>, c: int, d: int)
    ensures
        is_reduced_poly(pcomb(x, y, c, d)),
{
    assert forall|i: int| 0 <= i < 256 implies 0 <= #[trigger] pcomb(x, y, c, d)[i] < 3329 by {
        lemma_mod_bound(c * x[i] + d * y[i], 3329);
    }
}

/// A reduced polynomial is its own remainder.
proof fn lemma_norm_id(x: Seq<int>)
    requires
        is_reduced_poly(x),
    ensures
        norm(x) =~= x,
{
    assert forall|i: int| 0 <= i < 256 implies #[trigger] norm(x)[i] == x[i] by {
        lemma_small_mod(x[i] as nat, 3329);
    }
}

/// The transform of the decompressed `u`: polynomial `i` is `A^T_i . r + ntt(e1_i + err_i)`.
proof fn lemma_ntt_du(c: EncryptedMessage, a: PolyMatrix<3, 3>, coins: Seq<u8>, i: int)
    requires
        0 <= i < 3,
        pv_model(c.u) == encrypt_u_spec(a, coins),
    ensures
        ntt_spec(decompressed_u(c)[i]) == pcomb(
            dotvec(pv_model(a.col_vecs[i]), r_hat(coins)),
            ntt_spec(u_noise(a, coins)[i]),
            1,
            1,
        ),
{
    let rh = r_hat(coins);
    let ci = dotvec(pv_model(a.col_vecs[i]), rh);
    let iu = intt_spec(ci);
    let un = u_noise(a, coins)[i];
    let du = decompressed_u(c)[i];
    let e1 = noise_polyvec(ETA_2 as int, coins, K as int)[i];
    lemma_intt_spec_reduced(ci);
    assert forall|j: int| 0 <= j < 256 implies cong(#[trigger] du[j], pcomb(iu, un, 1, 1)[j]) by {
        assert(pv_model(c.u)[i][j] == encrypt_u_spec(a, coins)[i][j]);
        assert(coeffs(c.u.c[i])[j] == c.u.c[i].c[j]);
        let x = iu[j] + e1[j];
        lemma_mod_bound(crate::kyber::cbd_spec(
            crate::kyber::prf_spec(coins, (K + i) as u8, (64 * ETA_2) as nat),
            ETA_2 as int,
            j,
        ), 3329);
        assert(0 <= e1[j]);
        assert(cpa_u(a, coins)[i][j] == x % 3329);
        assert(crate::parameters::D_U as nat == 10);
        assert(c.u.c[i].c[j] == encrypt_u_spec(a, coins)[i][j]);
        assert(encrypt_u_spec(a, coins)[i][j] == compress_coef(cpa_u(a, coins)[i][j], 10));
        assert(du[j] == decompress_coef(c.u.c[i].c[j] as int, 10));
        assert(du[j] == cpa_u(a, coins)[i][j] + comp_err(cpa_u(a, coins)[i][j], 10));
        lemma_mod_in(x, 1, comp_err(cpa_u(a, coins)[i][j], 10));
        lemma_cong_mod(iu[j] + un[j]);
        lemma_cong_mod(1 * iu[j] + 1 * un[j]);
    }
    lemma_ntt_of_cong(du, pcomb(iu, un, 1, 1));
    lemma_ntt_linear(iu, un, 1, 1);
    lemma_ntt_intt_roundtrip(ci);
    lemma_dotvec3(pv_model(a.col_vecs[i]), rh);
    lemma_pcomb_reduced(pcomb(
        basemul_spec(pv_model(a.col_vecs[i])[0], rh[0]),
        basemul_spec(pv_model(a.col_vecs[i])[1], rh[1]),
        1,
        1,
    ), basemul_spec(pv_model(a.col_vecs[i])[2], rh[2]), 1, 1);
    lemma_norm_id(ci);
}

/// What decryption adds to `NTT^-1(t . r)` in `v`: `e2 + 1665 m` and the compression
/// error of `v`.
pub open spec fn v_extra(t: PolyVector<3>, msg: Seq<i32>, coins: Seq<u8>) -> Seq<int> {
    Seq::new(
        256,
        |j: int| noise_poly(ETA_2 as int, coins, 2 * K)[j] + 1665 * msg[j] + comp_err(cpa_v(t, msg, coins)[j], 4),
    )
}

/// The transform of the decompressed `v` is `t . r + ntt(e2 + 1665 m + err)`.
proof fn lemma_ntt_dv(c: EncryptedMessage, t: PolyVector<3>, msg: Seq<i32>, coins: Seq<u8>)
    requires
        coeffs(c.v) == encrypt_v_spec(t, msg, coins),
        forall|j: int| 0 <= j < 256 ==> #[trigger] msg[j] == 0 || msg[j] == 1,
    ensures
        ntt_spec(decompressed_v(c)) == pcomb(dotvec(pv_model(t), r_hat(coins)), ntt_spec(v_extra(t, msg, coins)), 1, 1),
{
    let rh = r_hat(coins);
    let tr = dotvec(pv_model(t), rh);
    let it = intt_spec(tr);
    let w = v_extra(t, msg, coins);
    let dv = decompressed_v(c);
    let e2 = noise_poly(ETA_2 as int, coins, 2 * K);
    lemma_intt_spec_reduced(tr);
    assert forall|j: int| 0 <= j < 256 implies cong(#[trigger] dv[j], pcomb(it, w, 1, 1)[j]) by {
        assert(coeffs(c.v)[j] == c.v.c[j]);
        assert(crate::parameters::D_V as nat == 4);
        let cv = cpa_v(t, msg, coins)[j];
        assert(c.v.c[j] == compress_coef(cv, 4));
        assert(dv[j] == cv + comp_err(cv, 4));
        lemma_mod_bound(crate::kyber::cbd_spec(
            crate::kyber::prf_spec(coins, (2 * K) as u8, (64 * ETA_2) as nat),
            ETA_2 as int,
            j,
        ), 3329);
        assert(0 <= e2[j]);
        lemma_mont_product(1665, msg[j]);
        let m = mont_product(1665, msg[j]);
        assert(m == 1665 * msg[j]) by {
            if msg[j] == 0 {
                assert(1665 * msg[j] == 0);
            } else {
                assert(1665 * msg[j] == 1665);
            }
        }
        let inner = it[j] + e2[j];
        lemma_mod_bound(inner, 3329);
        assert(cv == (inner % 3329 + m) % 3329);
        lemma_mod_in(inner, 1, m);
        lemma_mod_in(inner + m, 1, comp_err(cv, 4));
        lemma_cong_mod(inner + m);
        lemma_cong_mod(it[j] + w[j]);
        lemma_cong_mod(1 * it[j] + 1 * w[j]);
        lemma_cong_add(cv, inner + m, comp_err(cv, 4), comp_err(cv, 4));
    }
    lemma_ntt_of_cong(dv, pcomb(it, w, 1, 1));
    lemma_ntt_linear(it, w, 1, 1);
    lemma_ntt_intt_roundtrip(tr);
    lemma_dotvec3(pv_model(t), rh);
    lemma_pcomb_reduced(pcomb(
        basemul_spec(pv_model(t)[0], rh[0]),
        basemul_spec(pv_model(t)[1], rh[1]),
        1,
        1,
    ), basemul_spec(pv_model(t)[2], rh[2]), 1, 1);
    lemma_norm_id(tr);
}

/// What decryption computes before the inverse transform: `NTT(v) - s . NTT(u)`.
pub open spec fn decrypt_hat(c: EncryptedMessage, s: PolyVector<3>) -> Seq<int> {
    Seq::new(
        256,
        |k: int| (ntt_spec(decompressed_v(c))[k] - dotvec(pv_model(s), ntt_pv(decompressed_u(c)))[k]) % 3329,
    )
}

/// The transformed noise `e . r - s . (e1 + compression error of u)`.
pub open spec fn noise_hat(a: PolyMatrix<3, 3>, s: PolyVector<3>, e: Seq<Seq<int>>, coins: Seq<u8>) -> Seq<int> {
    pcomb(dotvec(ntt_pv(e), r_hat(coins)), dotvec(pv_model(s), ntt_pv(u_noise(a, coins))), 1, -1)
}

/// Coefficient `k` of `NTT(v) - s . NTT(u)` is, modulo 3329, the transformed noise plus
/// the transform of `e2 + 1665 m + err`: the products `s^T A r` cancel.
proof fn lemma_decrypt_hat_coef(
    c: EncryptedMessage,
    a: PolyMatrix<3, 3>,
    t: PolyVector<3>,
    s: PolyVector<3>,
    e: Seq<Seq<int>>,
    msg: Seq<i32>,
    coins: Seq<u8>,
    k: int,
)
    requires
        0 <= k < 256,
        a.wf(),
        forall|r: int| 0 <= r < 3 ==> #[trigger] a.row_vecs[r].m == Q,
        e.len() == 3,
        pv_model(t) == compute_t_spec(a, s, e),
        forall|j: int| 0 <= j < 256 ==> #[trigger] msg[j] == 0 || msg[j] == 1,
        pv_model(c.u) == encrypt_u_spec(a, coins),
        coeffs(c.v) == encrypt_v_spec(t, msg, coins),
    ensures
        cong(decrypt_hat(c, s)[k], noise_hat(a, s, e, coins)[k] + ntt_spec(v_extra(t, msg, coins))[k]),
{
    let rh = r_hat(coins);
    let sh = pv_model(s);
    let th = pv_model(t);
    let nd = ntt_pv(decompressed_u(c));
    let f = ntt_pv(u_noise(a, coins));
    let eh = ntt_pv(e);
    let nw = ntt_spec(v_extra(t, msg, coins));
    assert forall|i: int| 0 <= i < 3 implies #[trigger] nd[i] == pcomb(
        dotvec(pv_model(a.col_vecs[i]), rh),
        f[i],
        1,
        1,
    ) by {
        lemma_ntt_du(c, a, coins, i);
    }
    lemma_s_dot_u(a, s, rh, nd, f, k);
    lemma_t_dot_r(a, s, e, t, rh, k);
    lemma_ntt_dv(c, t, msg, coins);
    let tr = dotvec(th, rh)[k];
    let su = dotvec(sh, nd)[k];
    let dv = ntt_spec(decompressed_v(c))[k];
    let cs = cancel_sum(a, s, rh, k);
    let se = basemul_spec(eh[0], rh[0])[k] + basemul_spec(eh[1], rh[1])[k] + basemul_spec(eh[2], rh[2])[k];
    let sf = basemul_spec(sh[0], f[0])[k] + basemul_spec(sh[1], f[1])[k] + basemul_spec(sh[2], f[2])[k];
    assert(eh[0] == ntt_spec(e[0]) && eh[1] == ntt_spec(e[1]) && eh[2] == ntt_spec(e[2]));
    assert(cong(tr, cs + se));
    assert(cong(su, cs + sf));
    // v: NTT(v) = t . r + NTT(e2 + 1665 m + err)
    assert(dv == (1 * tr + 1 * nw[k]) % 3329);
    lemma_cong_mod(tr + nw[k]);
    assert(cong(dv, tr + nw[k]));
    // e . r and s . F, each a sum of three products
    lemma_dotvec3(eh, rh);
    lemma_psum3_cong(basemul_spec(eh[0], rh[0]), basemul_spec(eh[1], rh[1]), basemul_spec(eh[2], rh[2]), k);
    lemma_dotvec3(sh, f);
    lemma_psum3_cong(basemul_spec(sh[0], f[0]), basemul_spec(sh[1], f[1]), basemul_spec(sh[2], f[2]), k);
    let x = dotvec(eh, rh)[k];
    let y = dotvec(sh, f)[k];
    assert(cong(x, se));
    assert(cong(y, sf));
    let nh = noise_hat(a, s, e, coins)[k];
    assert(nh == (1 * x + -1 * y) % 3329);
    lemma_cong_mod(x - y);
    assert(cong(nh, x - y));
    // the cancellation
    lemma_cong_add(tr, cs + se, nw[k], nw[k]);
    lemma_cong_sub(dv, tr + nw[k], su, su);
    lemma_cong_sub(tr + nw[k], cs + se + nw[k], su, cs + sf);
    assert((cs + se + nw[k]) - (cs + sf) == (se - sf) + nw[k]);
    lemma_cong_sub(x, se, y, sf);
    lemma_cong_add(x - y, se - sf, nw[k], nw[k]);
    lemma_cong_add(nh, x - y, nw[k], nw[k]);
    let dh = decrypt_hat(c, s)[k];
    assert(dh == (dv - su) % 3329);
    lemma_cong_mod(dv - su);
}

/// Decrypting the encryption of a message `m` (coefficients 0 or 1) under the public key
/// `(A, t)` with `t = A s + e`, with the secret `s`, gives before rounding
/// `1665 m + noise`, coefficient by coefficient modulo 3329, where the noise
/// (`cpa_noise`) is `e2 + NTT^-1(e . r - s . e1)` plus the compression errors.
pub proof fn lemma_decryption_noise(
    c: EncryptedMessage,
    a: PolyMatrix<3, 3>,
    t: PolyVector<3>,
    s: PolyVector<3>,
    e: Seq<Seq<int>>,
    msg: Seq<i32>,
    coins: Seq<u8>,
)
    requires
        a.wf(),
        forall|r: int| 0 <= r < 3 ==> #[trigger] a.row_vecs[r].m == Q,
        e.len() == 3,
        pv_model(t) == compute_t_spec(a, s, e),
        forall|j: int| 0 <= j < 256 ==> #[trigger] msg[j] == 0 || msg[j] == 1,
        is_encryption(c, a, t, msg, coins),
    ensures
        forall|j: int|
            0 <= j < 256 ==> #[trigger] decrypt_noisy(c, s)[j] == (1665 * msg[j] + cpa_noise(a, t, s, e, msg, coins)[j])
                % 3329,
{
    let n = noise_hat(a, s, e, coins);
    let w = v_extra(t, msg, coins);
    let nw = ntt_spec(w);
    let dh = decrypt_hat(c, s);
    lemma_ntt_spec_reduced(w);
    assert forall|k: int| 0 <= k < 256 implies #[trigger] dh[k] == pcomb(n, nw, 1, 1)[k] by {
        lemma_decrypt_hat_coef(c, a, t, s, e, msg, coins, k);
        lemma_mod_bound(ntt_spec(decompressed_v(c))[k] - dotvec(pv_model(s), ntt_pv(decompressed_u(c)))[k], 3329);
        lemma_small_mod(dh[k] as nat, 3329);
    }
    assert(dh =~= pcomb(n, nw, 1, 1));
    assert(decrypt_noisy(c, s) == intt_spec(dh));
    lemma_intt_linear(n, nw, 1, 1);
    lemma_intt_ntt_roundtrip(w);
    let inn = intt_spec(n);
    assert forall|j: int| 0 <= j < 256 implies #[trigger] decrypt_noisy(c, s)[j] == (1665 * msg[j]
        + cpa_noise(a, t, s, e, msg, coins)[j]) % 3329 by {
        assert(decrypt_noisy(c, s)[j] == (1 * inn[j] + 1 * (w[j] % 3329)) % 3329);
        lemma_mod_in(w[j], 1, inn[j]);
        assert(inn[j] + w[j] == 1665 * msg[j] + cpa_noise(a, t, s, e, msg, coins)[j]);
    }
}

/// A noise coefficient that rounding absorbs: modulo 3329 it lies in `[-832, 831]`.
pub open spec fn noise_absorbed(x: int) -> bool {
    x % 3329 <= 831 || x % 3329 >= 2497
}

/// Rounding `1665 m + n` gives `m` back when the noise `n` is absorbed.
proof fn lemma_round_absorbs(m: int, n: int)
    requires
        m == 0 || m == 1,
        noise_absorbed(n),
    ensures
        round_coef((1665 * m + n) % 3329) == m,
{
    let r = n % 3329;
    lemma_mod_bound(n, 3329);
    lemma_mod_in(n, 1, 1665 * m);
    assert((1665 * m + n) % 3329 == (1 * r + 1665 * m) % 3329);
    if m == 0 {
        lemma_small_mod(r as nat, 3329);
    } else if r <= 831 {
        lemma_small_mod((1665 + r) as nat, 3329);
    } else {
        lemma_mod_add_multiple_int(r - 1664, 1);
        lemma_small_mod((r - 1664) as nat, 3329);
    }
}

/// Decryption gives back each message bit whose noise rounding absorbs; when it absorbs
/// every noise coefficient, decrypting the encryption of a message with the secret
/// behind the public key gives back the whole message.
pub proof fn lemma_decryption_correct(
    c: EncryptedMessage,
    a: PolyMatrix<3, 3>,
    t: PolyVector<3>,
    s: PolyVector<3>,
    e: Seq<Seq<int>>,
    msg: Seq<i32>,
    coins: Seq<u8>,
)
    requires
        a.wf(),
        forall|r: int| 0 <= r < 3 ==> #[trigger] a.row_vecs[r].m == Q,
        e.len() == 3,
        pv_model(t) == compute_t_spec(a, s, e),
        msg.len() == 256,
        forall|j: int| 0 <= j < 256 ==> #[trigger] msg[j] == 0 || msg[j] == 1,
        is_encryption(c, a, t, msg, coins),
    ensures
        forall|j: int|
            0 <= j < 256 && noise_absorbed(#[trigger] cpa_noise(a, t, s, e, msg, coins)[j])
                ==> decrypt_spec(c, s)[j] == msg[j],
        (forall|j: int| 0 <= j < 256 ==> noise_absorbed(#[trigger] cpa_noise(a, t, s, e, msg, coins)[j]))
            ==> decrypt_spec(c, s) == msg,
{
    lemma_decryption_noise(c, a, t, s, e, msg, coins);
    assert forall|j: int|
        0 <= j < 256 && noise_absorbed(#[trigger] cpa_noise(a, t, s, e, msg, coins)[j]) implies decrypt_spec(
        c,
        s,
    )[j] == msg[j] by {
        lemma_round_absorbs(msg[j] as int, cpa_noise(a, t, s, e, msg, coins)[j]);
    }
    if forall|j: int| 0 <= j < 256 ==> noise_absorbed(#[trigger] cpa_noise(a, t, s, e, msg, coins)[j]) {
        assert(decrypt_spec(c, s) =~= msg);
    }
}

/// Decapsulation gives back the key of an encapsulation under the matching private
/// key (`t = A s + e`, `H(pk)` stored) whenever rounding absorbs the noise of
/// decrypting its ciphertext.
pub proof fn lemma_decapsulate_encapsulated(
    pk: PublicKey,
    sk: PrivateKey,
    e: Seq<Seq<int>>,
    msg: Vector<N>,
    c: EncryptedMessage,
    key: Seq<u8>,
)
    requires
        pk.A.wf(),
        forall|r: int| 0 <= r < 3 ==> #[trigger] pk.A.row_vecs[r].m == Q,
        e.len() == 3,
        pv_model(pk.t) == compute_t_spec(pk.A, sk.s, e),
        sk.pk.A == pk.A,
        sk.pk.t == pk.t,
        sk.hashed_pk@ == h_pk(pk.t, pk.rho@),
        forall|j: int| 0 <= j < 256 ==> #[trigger] msg.c[j] == 0 || msg.c[j] == 1,
        encapsulate_spec(pk, msg, c, key),
        forall|j: int|
            0 <= j < 256 ==> noise_absorbed(
                #[trigger] cpa_noise(
                    pk.A,
                    pk.t,
                    sk.s,
                    e,
                    msg.c@,
                    g_halves(byte_encode(coeffs(msg), 1) + h_pk(pk.t, pk.rho@)).1,
                )[j],
            ),
    ensures
        decapsulate_spec(c, sk) == key,
{
    let coins = g_halves(byte_encode(coeffs(msg), 1) + h_pk(pk.t, pk.rho@)).1;
    assert forall|j: int| 0 <= j < 256 implies #[trigger] msg.c@[j] == 0 || msg.c@[j] == 1 by {
        assert(msg.c@[j] == msg.c[j]);
    }
    lemma_decryption_correct(c, pk.A, pk.t, sk.s, e, msg.c@, coins);
    lemma_decapsulate_recovers_key(pk, sk, msg, c, key);
}

/// For a key pair made from `sigma`, decrypting with the private key the encryption of a
/// message under the public key gives back the message whenever rounding absorbs the
/// noise, `e` being the error drawn from `sigma` with `t = A s + e`.
pub proof fn lemma_key_pair_decrypts(
    pk: PublicKey,
    sk: PrivateKey,
    sigma: Seq<u8>,
    c: EncryptedMessage,
    msg: Seq<i32>,
    coins: Seq<u8>,
)
    requires
        is_key_pair(pk, sk, sigma),
        msg.len() == 256,
        forall|j: int| 0 <= j < 256 ==> #[trigger] msg[j] == 0 || msg[j] == 1,
        is_encryption(c, pk.A, pk.t, msg, coins),
        forall|j: int|
            0 <= j < 256 ==> noise_absorbed(
                #[trigger] cpa_noise(pk.A, pk.t, sk.s, noise_polyvec(ETA_1 as int, sigma, K as int), msg, coins)[j],
            ),
    ensures
        decrypt_spec(c, sk.s) == msg,
{
    lemma_decryption_correct(c, pk.A, pk.t, sk.s, noise_polyvec(ETA_1 as int, sigma, K as int), msg, coins);
}

/// Decrypting chunk by chunk with the private key the encryption of a text without zero
/// bytes under the matching public key gives back the text (what `decrypt_string`
/// returns is what `encrypt_string` was given), whenever rounding absorbs the noise
/// of every chunk, for whichever coins encrypted it.
pub proof fn lemma_string_encryption_roundtrip(
    pk: PublicKey,
    sk: PrivateKey,
    sigma: Seq<u8>,
    s: &str,
    chunks: Seq<EncryptedMessage>,
    invalid: Seq<char>,
)
    requires
        is_key_pair(pk, sk, sigma),
        forall|i: int| 0 <= i < s.spec_bytes().len() ==> #[trigger] s.spec_bytes()[i] != 0,
        chunks.len() == chunk_count(s.spec_bytes().len()),
        forall|k: int| 0 <= k < chunks.len() ==> encrypts_chunk(#[trigger] chunks[k], pk, s.spec_bytes(), k),
        forall|k: int, coins: Seq<u8>, j: int|
            0 <= k < chunks.len() && is_encryption(chunks[k], pk.A, pk.t, chunk_msg(s.spec_bytes(), k), coins)
                && 0 <= j < 256 ==> noise_absorbed(
                #[trigger] cpa_noise(
                    pk.A,
                    pk.t,
                    sk.s,
                    noise_polyvec(ETA_1 as int, sigma, K as int),
                    chunk_msg(s.spec_bytes(), k),
                    coins,
                )[j],
            ),
    ensures
        decoded_bytes(decrypted_chunks(chunks, sk.s)) == s.spec_bytes(),
        text_of_bytes(decoded_bytes(decrypted_chunks(chunks, sk.s)), invalid) == s@,
{
    let bs = s.spec_bytes();
    let cs = decrypted_chunks(chunks, sk.s);
    assert forall|x: int| 0 <= x < cs.len() implies is_chunk_coeffs(#[trigger] cs[x], bs, x) by {
        let msg = chunk_msg(bs, x);
        assert(encrypts_chunk(chunks[x], pk, bs, x));
        let coins = choose|coins: Seq<u8>| coins.len() == 32 && #[trigger] is_encryption(chunks[x], pk.A, pk.t, msg, coins);
        assert forall|j: int| 0 <= j < 256 implies #[trigger] msg[j] == 0 || msg[j] == 1 by {
            if 32 * x + j / 8 < bs.len() {
                lemma_bit_at(bs, 256 * x + j);
            }
        }
        lemma_key_pair_decrypts(pk, sk, sigma, chunks[x], msg, coins);
        assert forall|p: int| 0 <= p < 256 implies #[trigger] cs[x][p] as int == chunk_poly(bs, x)[p] by {
            if 32 * x + p / 8 < bs.len() {
                lemma_bit_at(bs, 256 * x + p);
            }
        }
    }
    lemma_bytes_roundtrip(bs, cs);
    encode_utf8_valid_utf8(s@);
    encode_utf8_decode_utf8(s@);
}

} // verus!
