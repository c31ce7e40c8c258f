//! The number theoretic transform of ML-KEM for polynomials of degree 256
//! modulo 3329, its inverse, and multiplication in the transformed domain.
use vstd::prelude::*;
use vstd::arithmetic::div_mod::*;
use vstd::arithmetic::mul::*;
use crate::math_utils::{MontgomeryForm, Vector, coeffs, square_and_mult};
use vstd::arithmetic::power::{pow, lemma_pow0, lemma_pow1};
use crate::arith::{mval, lemma_mval_linear, lemma_mval_encode, lemma_mval_mult, lemma_mval_reduce};
use crate::ntt_spec::{
    norm, is_reduced_poly, is_layer_len, layer_k, ntt_layer, intt_layer, ntt_from, intt_to,
    ntt_spec, intt_spec, lemma_pair_index, lemma_zeta_inverse, lemma_norm_reduced,
    lemma_layers_reduced, lemma_intt_to_len, lemma_ntt_spec_reduced, lemma_intt_spec_reduced,
};

verus! {

/// The bits of a byte in reverse order.
pub open spec fn bitrev8(x: u8) -> u8 {
    ((x & 1) << 7u8) | (((x >> 1u8) & 1) << 6u8) | (((x >> 2u8) & 1) << 5u8) | (((x >> 3u8) & 1)
        << 4u8) | (((x >> 4u8) & 1) << 3u8) | (((x >> 5u8) & 1) << 2u8) | (((x >> 6u8) & 1) << 1u8)
        | (x >> 7u8)
}

/// Reverses the bits of a byte (what `u8::reverse_bits` does).
pub fn reverse_bits_u8(x: u8) -> (r: u8)
    ensures
        r == bitrev8(x),
{
    ((x & 1) << 7u8) | (((x >> 1u8) & 1) << 6u8) | (((x >> 2u8) & 1) << 5u8) | (((x >> 3u8) & 1) << 4u8)
        | (((x >> 4u8) & 1) << 3u8) | (((x >> 5u8) & 1) << 2u8) | (((x >> 6u8) & 1) << 1u8) | (x >> 7u8)
}


/// Powers of the primitive 256-th root of unity 17 modulo 3329, in bit-reversed
/// order: `ZETA_TABLE[i] = 17^bitrev7(i) mod 3329`, in standard (not Montgomery) form.
pub const ZETA_TABLE: [i32; 128] = [
    1, 1729, 2580, 3289, 2642, 630, 1897, 848, 1062, 1919, 193, 797, 2786, 3260, 569, 1746,
    296, 2447, 1339, 1476, 3046, 56, 2240, 1333, 1426, 2094, 535, 2882, 2393, 2879, 1974, 821,
    289, 331, 3253, 1756, 1197, 2304, 2277, 2055, 650, 1977, 2513, 632, 2865, 33, 1320, 1915,
    2319, 1435, 807, 452, 1438, 2868, 1534, 2402, 2647, 2617, 1481, 648, 2474, 3110, 1227, 910,
    17, 2761, 583, 2649, 1637, 723, 2288, 1100, 1409, 2662, 3281, 233, 756, 2156, 3015, 3050,
    1703, 1651, 2789, 1789, 1847, 952, 1461, 2687, 939, 2308, 2437, 2388, 733, 2337, 268, 641,
    1584, 2298, 2037, 3220, 375, 2549, 2090, 1645, 1063, 319, 2773, 757, 2099, 561, 2466, 2594,
    2804, 1092, 403, 1026, 1143, 2150, 2775, 886, 1722, 1212, 1874, 1029, 2110, 2935, 885, 2154,
];

/// Inverses of the entries of `ZETA_TABLE` modulo 3329:
/// `ZETA_INV_TABLE[i] = 1175^bitrev7(i) mod 3329`, with `17 * 1175 = 1 mod 3329`.
pub const ZETA_INV_TABLE: [i32; 128] = [
    1, 1600, 40, 749, 2481, 1432, 2699, 687, 1583, 2760, 69, 543, 2532, 3136, 1410, 2267,
    2508, 1355, 450, 936, 447, 2794, 1235, 1903, 1996, 1089, 3273, 283, 1853, 1990, 882, 3033,
    2419, 2102, 219, 855, 2681, 1848, 712, 682, 927, 1795, 461, 1891, 2877, 2522, 1894, 1010,
    1414, 2009, 3296, 464, 2697, 816, 1352, 2679, 1274, 1052, 1025, 2132, 1573, 76, 2998, 3040,
    1175, 2444, 394, 1219, 2300, 1455, 2117, 1607, 2443, 554, 1179, 2186, 2303, 2926, 2237, 525,
    735, 863, 2768, 1230, 2572, 556, 3010, 2266, 1684, 1239, 780, 2954, 109, 1292, 1031, 1745,
    2688, 3061, 992, 2596, 941, 892, 1021, 2390, 642, 1868, 2377, 1482, 1540, 540, 1678, 1626,
    279, 314, 1173, 2573, 3096, 48, 667, 1920, 2229, 1041, 2606, 1692, 680, 2746, 568, 3312,
];

/// The root of unity whose powers fill `ZETA_TABLE`.
pub const ZETA_0: i32 = 17;

/// The inverse of `ZETA_0` modulo 3329.
pub const ZETA_INV_0: i32 = 1175;

/// Polynomials the transforms accept: every coefficient in `[0, 2^19)`, so that
/// putting it in Montgomery form (a shift by 12 bits) loses nothing.
pub open spec fn ntt_input(p: Vector<256>) -> bool {
    forall|i: int| 0 <= i < 256 ==> 0 <= #[trigger] p.c[i] < 524288
}

/// Chunks of width `2 * len` tile `[0, 256)`.
proof fn lemma_chunk_step(len: int, chunk: int)
    requires
        is_layer_len(len),
        0 <= chunk < 256,
        chunk % (2 * len) == 0,
    ensures
        chunk + 2 * len <= 256,
        (chunk + 2 * len) % (2 * len) == 0,
        (chunk + 2 * len) / (2 * len) == chunk / (2 * len) + 1,
        chunk == 2 * len * (chunk / (2 * len)),
{
    lemma_fundamental_div_mod(chunk, 2 * len);
    let c = chunk / (2 * len);
    assert((c + 1) * (2 * len) == 2 * len * c + 2 * len) by (nonlinear_arith);
    lemma_fundamental_div_mod_converse(chunk + 2 * len, 2 * len, c + 1, 0);
    if len == 2 {
        assert(2 * len * c == 4 * c);
    } else if len == 4 {
        assert(2 * len * c == 8 * c);
    } else if len == 8 {
        assert(2 * len * c == 16 * c);
    } else if len == 16 {
        assert(2 * len * c == 32 * c);
    } else if len == 32 {
        assert(2 * len * c == 64 * c);
    } else if len == 64 {
        assert(2 * len * c == 128 * c);
    } else {
        assert(2 * len * c == 256 * c);
    }
}

/// After the last chunk of a layer, the twiddle index is where the next layer starts;
/// the half-widths of the layers of the inverse transform start where the chunks end.
proof fn lemma_layer_counts(len: int)
    requires
        is_layer_len(len),
    ensures
        128int / len - 1 + 256int / (2 * len) == 128int / (len / 2) - 1,
        len / 2 == 1 || is_layer_len(len / 2),
        len * 2 > 128 || is_layer_len(len * 2),
        128int / len == 256int / (2 * len),
        1 <= 128int / len,
{
    if len == 2 {
        assert(128int / 2 == 64 && 256int / 4 == 64 && 2int / 2 == 1 && 128int / 1 == 128);
    } else if len == 4 {
        assert(128int / 4 == 32 && 256int / 8 == 32 && 4int / 2 == 2 && 128int / 2 == 64);
    } else if len == 8 {
        assert(128int / 8 == 16 && 256int / 16 == 16 && 8int / 2 == 4 && 128int / 4 == 32);
    } else if len == 16 {
        assert(128int / 16 == 8 && 256int / 32 == 8 && 16int / 2 == 8 && 128int / 8 == 16);
    } else if len == 32 {
        assert(128int / 32 == 4 && 256int / 64 == 4 && 32int / 2 == 16 && 128int / 16 == 8);
    } else if len == 64 {
        assert(128int / 64 == 2 && 256int / 128 == 2 && 64int / 2 == 32 && 128int / 32 == 4);
    } else {
        assert(128int / 128 == 1 && 256int / 256 == 1 && 128int / 2 == 64 && 128int / 64 == 2);
    }
}

/// Standard value of the representative held at index `j`.
pub open spec fn slot(m: [MontgomeryForm; 256], j: int) -> int {
    mval(m[j].spec_a() as int)
}

/// Every representative lies in `[0, 3329]`.
pub open spec fn slots_bounded(m: [MontgomeryForm; 256]) -> bool {
    forall|j: int| 0 <= j < 256 ==> 0 <= #[trigger] m[j].spec_a() <= 3329
}

/// The coefficient `i` of a butterfly of half-width `len` starting at `chunk` is in the
/// first half of its chunk, and its pair `i + len` in the second; both use twiddle
/// index `k`.
proof fn lemma_butterfly_position(len: int, chunk: int, i: int, k: int)
    requires
        is_layer_len(len),
        0 <= chunk < 256,
        chunk % (2 * len) == 0,
        chunk <= i < chunk + len,
        k == 128int / len + chunk / (2 * len),
    ensures
        i % (2 * len) == i - chunk,
        i % (2 * len) < len,
        layer_k(len, i) == k,
        i + len < 256,
        (i + len) % (2 * len) >= len,
        layer_k(len, i + len) == k,
        1 <= k < 128,
{
    lemma_chunk_step(len, chunk);
    lemma_fundamental_div_mod_converse(i, 2 * len, chunk / (2 * len), i - chunk);
    lemma_pair_index(len, i);
}

/// After the butterfly at `i` (and `i + len`), the state of the array matches the
/// layer's result on `[0, i + 1)` and `[chunk + len, i + 1 + len)`, and its input elsewhere.
proof fn lemma_butterfly_step(
    pre: [MontgomeryForm; 256],
    post: [MontgomeryForm; 256],
    cur: Seq<int>,
    lay: Seq<int>,
    chunk: int,
    i: int,
    len: int,
)
    requires
        0 <= chunk <= i < chunk + len,
        i + len < 256,
        slots_bounded(pre),
        forall|j: int| 0 <= j < i ==> #[trigger] slot(pre, j) == lay[j],
        forall|j: int| i <= j < chunk + len ==> #[trigger] slot(pre, j) == cur[j],
        forall|j: int| chunk + len <= j < i + len ==> #[trigger] slot(pre, j) == lay[j],
        forall|j: int| i + len <= j < 256 ==> #[trigger] slot(pre, j) == cur[j],
        slot(post, i) == lay[i],
        slot(post, i + len) == lay[i + len],
        0 <= post[i].spec_a() <= 3329,
        0 <= post[i + len].spec_a() <= 3329,
        forall|j: int| 0 <= j < 256 && j != i && j != i + len ==> #[trigger] post[j] == pre[j],
    ensures
        slots_bounded(post),
        forall|j: int| 0 <= j < i + 1 ==> #[trigger] slot(post, j) == lay[j],
        forall|j: int| i + 1 <= j < chunk + len ==> #[trigger] slot(post, j) == cur[j],
        forall|j: int| chunk + len <= j < i + 1 + len ==> #[trigger] slot(post, j) == lay[j],
        forall|j: int| i + 1 + len <= j < 256 ==> #[trigger] slot(post, j) == cur[j],
{
    assert forall|j: int| 0 <= j < 256 && j != i && j != i + len implies #[trigger] slot(post, j)
        == slot(pre, j) by {
        assert(post[j] == pre[j]);
    }
    assert forall|j: int| 0 <= j < 256 implies 0 <= #[trigger] post[j].spec_a() <= 3329 by {
        if j != i && j != i + len {
            assert(post[j] == pre[j]);
        }
    }
}

/// Forward transform (ML-KEM's NTT): seven layers of Cooley-Tukey butterflies with
/// the twiddle factors of `ZETA_TABLE`, computed in Montgomery form; the result
/// holds 128 polynomials of degree 1 with coefficients in `[0, 3329)`.
#[verifier::rlimit(60)]
pub fn ntt(p: Vector<256>) -> (res: Vector<256>)
    requires
        ntt_input(p),
    ensures
        coeffs(res) == ntt_spec(coeffs(p)),
        is_reduced(res),
        res.m == 3329,
{
    let mut mtg_p: [MontgomeryForm; 256] = [MontgomeryForm::new(0);256];
    let ghost s0 = norm(coeffs(p));
    proof {
        lemma_norm_reduced(coeffs(p));
    }
    let mut i: usize = 0;
    while i < 256
        invariant
            0 <= i <= 256,
            ntt_input(p),
            s0 == norm(coeffs(p)),
            forall|j: int| 0 <= j < i ==> 0 <= #[trigger] mtg_p[j].spec_a() <= 3329,
            forall|j: int| 0 <= j < i ==> #[trigger] slot(mtg_p, j) == s0[j],
        decreases 256 - i,
    {
        let ghost pre = mtg_p;
        proof {
            lemma_mval_encode(p.c[i as int]);
        }
        mtg_p[i].set_n(p.c[i]);
        mtg_p[i].set_a((p.c[i] << 12) % 3329);
        proof {
            assert forall|j: int| 0 <= j < i implies #[trigger] slot(mtg_p, j) == slot(pre, j) by {
                assert(mtg_p[j] == pre[j]);
            }
        }
        i += 1;
    }
    let ghost mut cur: Seq<int> = s0;
    let mut k: usize = 0;
    let mut n_sur_2: usize = 128;
    while n_sur_2 >= 2
        invariant
            n_sur_2 == 1 || is_layer_len(n_sur_2 as int),
            is_reduced_poly(cur),
            ntt_from(cur, n_sur_2 as nat) == ntt_from(s0, 128),
            k == 128int / (n_sur_2 as int) - 1,
            slots_bounded(mtg_p),
            forall|j: int| 0 <= j < 256 ==> #[trigger] slot(mtg_p, j) == cur[j],
        decreases n_sur_2,
    {
        let ghost len = n_sur_2 as int;
        let ghost lay = ntt_layer(cur, len);
        let mut chunk: usize = 0;
        while chunk < 256
            invariant
                is_layer_len(len),
                len == n_sur_2,
                is_reduced_poly(cur),
                lay == ntt_layer(cur, len),
                0 <= chunk <= 256,
                (chunk as int) % (2 * len) == 0,
                k == 128int / len - 1 + (chunk as int) / (2 * len),
                slots_bounded(mtg_p),
                forall|j: int| 0 <= j < chunk ==> #[trigger] slot(mtg_p, j) == lay[j],
                forall|j: int| chunk <= j < 256 ==> #[trigger] slot(mtg_p, j) == cur[j],
            decreases 256 - chunk,
        {
            k += 1;
            proof {
                lemma_butterfly_position(len, chunk as int, chunk as int, k as int);
            }
            let mut i = chunk;
            while i < chunk + n_sur_2
                invariant
                    is_layer_len(len),
                    len == n_sur_2,
                    is_reduced_poly(cur),
                    lay == ntt_layer(cur, len),
                    0 <= chunk < 256,
                    (chunk as int) % (2 * len) == 0,
                    k == 128int / len + (chunk as int) / (2 * len),
                    1 <= k < 128,
                    chunk <= i <= chunk + len,
                    slots_bounded(mtg_p),
                    forall|j: int| 0 <= j < i ==> #[trigger] slot(mtg_p, j) == lay[j],
                    forall|j: int| i <= j < chunk + len ==> #[trigger] slot(mtg_p, j) == cur[j],
                    forall|j: int| chunk + len <= j < i + len ==> #[trigger] slot(mtg_p, j) == lay[j],
                    forall|j: int| i + len <= j < 256 ==> #[trigger] slot(mtg_p, j) == cur[j],
                decreases chunk + n_sur_2 - i,
            {
                let ghost pre = mtg_p;
                proof {
                    lemma_butterfly_position(len, chunk as int, i as int, k as int);
                    lemma_zeta_inverse(k as int);
                    lemma_mval_mult(mtg_p[i + n_sur_2].spec_a() as int, ZETA_TABLE[k as int]);
                }
                let b: i32 = mtg_p[i + n_sur_2].mult(ZETA_TABLE[k]).get_a();
                let a: i32 = mtg_p[i].get_a();
                proof {
                    lemma_mval_linear(a as int, b as int);
                }
                let mut a_plus_b = a + b;
                if (a + b) > 3329 {
                    a_plus_b = a + b - 3329;
                }
                let mut a_moins_b = a - b;
                if (a - b) < 0 {
                    a_moins_b = a - b + 3329;
                }
                mtg_p[i].set_a(a_plus_b);
                mtg_p[i + n_sur_2].set_a(a_moins_b);
                proof {
                    let z = ZETA_TABLE[k as int] as int;
                    let ii = i as int;
                    let x = cur[ii];
                    let y = cur[ii + len];
                    assert(slot(pre, ii) == x);
                    assert(slot(pre, ii + len) == y);
                    assert(lay[ii] == (x + z * y) % 3329);
                    assert(lay[ii + len] == (x - z * y) % 3329);
                    assert(slot(mtg_p, ii) == lay[ii]) by {
                        lemma_add_mod_noop_right(x, z * y, 3329);
                        lemma_small_mod(x as nat, 3329);
                    }
                    assert(slot(mtg_p, ii + len) == lay[ii + len]) by {
                        lemma_sub_mod_noop_right(x, z * y, 3329);
                        lemma_small_mod(x as nat, 3329);
                    }
                    lemma_butterfly_step(pre, mtg_p, cur, lay, chunk as int, ii, len);
                }
                i += 1;
            }
            proof {
                lemma_chunk_step(len, chunk as int);
            }
            chunk += 2 * n_sur_2;
        }
        proof {
            lemma_layer_counts(len);
            lemma_layers_reduced(cur, len);
            cur = lay;
        }
        n_sur_2 = n_sur_2 / 2;
    }
    let mut reduced_p = [0i32;256];
    let mut i: usize = 0;
    while i < 256
        invariant
            0 <= i <= 256,
            is_reduced_poly(cur),
            slots_bounded(mtg_p),
            forall|j: int| 0 <= j < 256 ==> #[trigger] slot(mtg_p, j) == cur[j],
            forall|j: int| 0 <= j < i ==> #[trigger] reduced_p[j] == cur[j],
        decreases 256 - i,
    {
        proof {
            lemma_mval_reduce(mtg_p[i as int].spec_a() as int);
            assert(slot(mtg_p, i as int) == cur[i as int]);
        }
        let ghost pre = mtg_p;
        reduced_p[i] = mtg_p[i].reduction();
        proof {
            assert forall|j: int| 0 <= j < 256 implies #[trigger] slot(mtg_p, j) == slot(pre, j) by {
                if j != i {
                    assert(mtg_p[j] == pre[j]);
                }
            }
            assert forall|j: int| 0 <= j < 256 implies 0 <= #[trigger] mtg_p[j].spec_a() <= 3329 by {
                if j != i {
                    assert(mtg_p[j] == pre[j]);
                }
            }
        }
        i += 1;
    }
    let res = Vector::new(&reduced_p, 3329);
    assert(coeffs(res) =~= cur);
    proof {
        lemma_ntt_spec_reduced(coeffs(p));
        assert forall|i: int| 0 <= i < 256 implies 0 <= #[trigger] res.c[i] < 3329 by {
            assert(coeffs(res)[i] == res.c[i]);
        }
    }
    res
}

#[verifier::rlimit(60)]
pub fn intt(p: Vector<256>) -> (res: Vector<256>)
    requires
        ntt_input(p),
    ensures
        coeffs(res) == intt_spec(coeffs(p)),
        is_reduced(res),
        res.m == 3329,
{
    let mut mtg_p: [MontgomeryForm; 256] = [MontgomeryForm::new(0);256];
    let ghost s0 = norm(coeffs(p));
    proof {
        lemma_norm_reduced(coeffs(p));
    }
    let mut i: usize = 0;
    while i < 256
        invariant
            0 <= i <= 256,
            ntt_input(p),
            s0 == norm(coeffs(p)),
            forall|j: int| 0 <= j < i ==> 0 <= #[trigger] mtg_p[j].spec_a() <= 3329,
            forall|j: int| 0 <= j < i ==> #[trigger] slot(mtg_p, j) == s0[j],
        decreases 256 - i,
    {
        let ghost pre = mtg_p;
        proof {
            lemma_mval_encode(p.c[i as int]);
        }
        mtg_p[i].set_n(p.c[i]);
        mtg_p[i].set_a((p.c[i] << 12) % 3329);
        proof {
            assert forall|j: int| 0 <= j < i implies #[trigger] slot(mtg_p, j) == slot(pre, j) by {
                assert(mtg_p[j] == pre[j]);
            }
        }
        i += 1;
    }
    let ghost mut cur: Seq<int> = s0;
    let mut n_sur_2: usize = 2;
    while n_sur_2 <= 128
        invariant
            n_sur_2 == 256 || is_layer_len(n_sur_2 as int),
            is_reduced_poly(cur),
            cur == intt_to(s0, (n_sur_2 / 2) as nat),
            slots_bounded(mtg_p),
            forall|j: int| 0 <= j < 256 ==> #[trigger] slot(mtg_p, j) == cur[j],
        decreases 256 - n_sur_2,
    {
        let ghost len = n_sur_2 as int;
        let ghost lay = intt_layer(cur, len);
        proof {
            lemma_layer_counts(len);
        }
        let mut k: usize = 256 / (2 * n_sur_2) - 1;
        let mut chunk: usize = 0;
        while chunk < 256
            invariant
                is_layer_len(len),
                len == n_sur_2,
                is_reduced_poly(cur),
                lay == intt_layer(cur, len),
                0 <= chunk <= 256,
                (chunk as int) % (2 * len) == 0,
                k == 128int / len - 1 + (chunk as int) / (2 * len),
                slots_bounded(mtg_p),
                forall|j: int| 0 <= j < chunk ==> #[trigger] slot(mtg_p, j) == lay[j],
                forall|j: int| chunk <= j < 256 ==> #[trigger] slot(mtg_p, j) == cur[j],
            decreases 256 - chunk,
        {
            k += 1;
            proof {
                lemma_butterfly_position(len, chunk as int, chunk as int, k as int);
            }
            let mut i = chunk;
            while i < chunk + n_sur_2
                invariant
                    is_layer_len(len),
                    len == n_sur_2,
                    is_reduced_poly(cur),
                    lay == intt_layer(cur, len),
                    0 <= chunk < 256,
                    (chunk as int) % (2 * len) == 0,
                    k == 128int / len + (chunk as int) / (2 * len),
                    1 <= k < 128,
                    chunk <= i <= chunk + len,
                    slots_bounded(mtg_p),
                    forall|j: int| 0 <= j < i ==> #[trigger] slot(mtg_p, j) == lay[j],
                    forall|j: int| i <= j < chunk + len ==> #[trigger] slot(mtg_p, j) == cur[j],
                    forall|j: int| chunk + len <= j < i + len ==> #[trigger] slot(mtg_p, j) == lay[j],
                    forall|j: int| i + len <= j < 256 ==> #[trigger] slot(mtg_p, j) == cur[j],
                decreases chunk + n_sur_2 - i,
            {
                let ghost pre = mtg_p;
                proof {
                    lemma_butterfly_position(len, chunk as int, i as int, k as int);
                    lemma_zeta_inverse(k as int);
                }
                let b: i32 = mtg_p[i + n_sur_2].get_a();
                let a: i32 = mtg_p[i].get_a();
                proof {
                    lemma_mval_linear(a as int, b as int);
                }
                let mut a_plus_b = a + b;
                if (a + b) > 3329 {
                    a_plus_b = a + b - 3329;
                }
                let mut a_moins_b = a - b;
                if (a - b) < 0 {
                    a_moins_b = a - b + 3329;
                }
                mtg_p[i].set_a(a_plus_b);
                mtg_p[i + n_sur_2].set_a(a_moins_b);
                proof {
                    lemma_mval_mult(a_moins_b as int, ZETA_INV_TABLE[k as int]);
                }
                mtg_p[i + n_sur_2] = mtg_p[i + n_sur_2].mult(ZETA_INV_TABLE[k]);
                proof {
                    let zi = ZETA_INV_TABLE[k as int] as int;
                    let ii = i as int;
                    let x = cur[ii];
                    let y = cur[ii + len];
                    assert(slot(pre, ii) == x);
                    assert(slot(pre, ii + len) == y);
                    assert(lay[ii] == (x + y) % 3329);
                    assert(lay[ii + len] == ((x - y) * zi) % 3329);
                    assert(slot(mtg_p, ii) == lay[ii]);
                    assert(slot(mtg_p, ii + len) == lay[ii + len]) by {
                        lemma_mul_mod_noop_left(x - y, zi, 3329);
                        lemma_mul_is_commutative(zi, (x - y) % 3329);
                    }
                    lemma_butterfly_step(pre, mtg_p, cur, lay, chunk as int, ii, len);
                }
                i += 1;
            }
            proof {
                lemma_chunk_step(len, chunk as int);
            }
            chunk += 2 * n_sur_2;
        }
        proof {
            lemma_layer_counts(len);
            lemma_layers_reduced(cur, len);
            cur = lay;
        }
        n_sur_2 = n_sur_2 * 2;
    }
    let mut reduced_p = [0i32;256];
    let mut i: usize = 0;
    while i < 256
        invariant
            0 <= i <= 256,
            is_reduced_poly(cur),
            slots_bounded(mtg_p),
            forall|j: int| 0 <= j < 256 ==> #[trigger] slot(mtg_p, j) == cur[j],
            forall|j: int| 0 <= j < i ==> #[trigger] reduced_p[j] == cur[j],
        decreases 256 - i,
    {
        proof {
            lemma_mval_reduce(mtg_p[i as int].spec_a() as int);
            assert(slot(mtg_p, i as int) == cur[i as int]);
        }
        let ghost pre = mtg_p;
        reduced_p[i] = mtg_p[i].reduction();
        proof {
            assert forall|j: int| 0 <= j < 256 implies #[trigger] slot(mtg_p, j) == slot(pre, j) by {
                if j != i {
                    assert(mtg_p[j] == pre[j]);
                }
            }
            assert forall|j: int| 0 <= j < 256 implies 0 <= #[trigger] mtg_p[j].spec_a() <= 3329 by {
                if j != i {
                    assert(mtg_p[j] == pre[j]);
                }
            }
        }
        i += 1;
    }
    let mut ret = Vector::new(&reduced_p, 3329);
    // 128^-1 % 3329 = 3303
    ret.scalar_mult(3303);
    proof {
        lemma_intt_to_len(s0, 128);
        assert(cur == intt_to(s0, 128));
        assert forall|j: int| 0 <= j < 256 implies #[trigger] coeffs(ret)[j] == intt_spec(coeffs(p))[j] by {
            assert(0 <= reduced_p[j] < 3329);
        }
    }
    assert(coeffs(ret) =~= intt_spec(coeffs(p)));
    proof {
        lemma_intt_spec_reduced(coeffs(p));
        assert forall|i: int| 0 <= i < 256 implies 0 <= #[trigger] ret.c[i] < 3329 by {
            assert(coeffs(ret)[i] == ret.c[i]);
        }
    }
    ret
}

/// The factor `gamma_j = 17^(2 * bitrev7(j) + 1)` of the quadratic `X^2 - gamma_j` of
/// pair `j` of a transformed polynomial: `ZETA_TABLE[64 + j / 2]`, negated for odd `j`.
pub open spec fn gamma(j: int) -> int {
    if j % 2 == 0 {
        ZETA_TABLE[64 + j / 2] as int
    } else {
        3329 - ZETA_TABLE[64 + j / 2]
    }
}

/// Coefficient `i` of the product of two transformed polynomials: pair `j = i / 2`
/// of the result is `(a0 + a1 X) (b0 + b1 X) mod (X^2 - gamma_j)`, reduced modulo 3329.
#[verifier::opaque]
pub open spec fn basemul_coef(a: Seq<int>, b: Seq<int>, i: int) -> int {
    if i % 2 == 0 {
        (a[i] * b[i] + gamma(i / 2) * (a[i + 1] * b[i + 1])) % 3329
    } else {
        (a[i - 1] * b[i] + a[i] * b[i - 1]) % 3329
    }
}

/// Product of two transformed polynomials, coefficient by coefficient.
pub open spec fn basemul_spec(a: Seq<int>, b: Seq<int>) -> Seq<int> {
    Seq::new(256, |i: int| basemul_coef(a, b, i))
}

/// The two coefficients of pair `j` as `poly_mult` computes them.
proof fn lemma_basemul_pair(a: Seq<int>, b: Seq<int>, j: int, g: int, hi: int)
    requires
        0 <= j < 128,
        g == gamma(j),
        hi == (a[2 * j + 1] * b[2 * j + 1]) % 3329,
    ensures
        basemul_coef(a, b, 2 * j) == (a[2 * j] * b[2 * j] + g * hi) % 3329,
        basemul_coef(a, b, 2 * j + 1) == (a[2 * j] * b[2 * j + 1] + a[2 * j + 1] * b[2 * j]) % 3329,
{
    reveal(basemul_coef);
    let i = 2 * j;
    assert(i % 2 == 0 && i / 2 == j);
    assert((i + 1) % 2 == 1);
    lemma_mul_mod_noop_right(g, a[i + 1] * b[i + 1], 3329);
    lemma_add_mod_noop_right(a[i] * b[i], g * (a[i + 1] * b[i + 1]), 3329);
    lemma_add_mod_noop_right(a[i] * b[i], g * hi, 3329);
}

/// Every coefficient of the polynomial is in `[0, 3329)`.
pub open spec fn is_reduced(p: Vector<256>) -> bool {
    forall|i: int| 0 <= i < 256 ==> 0 <= #[trigger] p.c[i] < 3329
}

/// Multiplies two polynomials given in the transformed domain (the product of
/// the polynomials, transformed): each pair of coefficients is a polynomial of
/// degree 1 multiplied modulo `X^2 - gamma_j`.
pub fn poly_mult(ntt_a: Vector<256>, ntt_b: Vector<256>) -> (ntt_c: Vector<256>)
    requires
        is_reduced(ntt_a),
        is_reduced(ntt_b),
    ensures
        coeffs(ntt_c) == basemul_spec(coeffs(ntt_a), coeffs(ntt_b)),
        is_reduced(ntt_c),
        ntt_c.m == 3329,
{
    let mut ntt_c: Vector<256> = Vector::new(&[0i32;256], 3329);
    let mut j: usize = 0;
    while j < 128
        invariant
            0 <= j <= 128,
            is_reduced(ntt_a),
            is_reduced(ntt_b),
            ntt_c.m == 3329,
            forall|t: int| 0 <= t < 2 * j ==> 0 <= #[trigger] ntt_c.c[t] < 3329,
            forall|t: int|
                0 <= t < 2 * j ==> #[trigger] ntt_c.c[t] == basemul_spec(
                    coeffs(ntt_a),
                    coeffs(ntt_b),
                )[t],
        decreases 128 - j,
    {
        let i = 2 * j;
        let a0 = ntt_a.c[i];
        let a1 = ntt_a.c[i + 1];
        let b0 = ntt_b.c[i];
        let b1 = ntt_b.c[i + 1];
        proof {
            lemma_zeta_inverse(64 + (j / 2) as int);
        }
        let zeta = ZETA_TABLE[64 + j / 2];
        let g: i32 = if j % 2 == 0 {
            zeta
        } else {
            3329 - zeta
        };
        proof {
            assert(0 <= a0 * b0 < 3329 * 3329) by (nonlinear_arith)
                requires 0 <= a0 < 3329, 0 <= b0 < 3329;
            assert(0 <= a1 * b1 < 3329 * 3329) by (nonlinear_arith)
                requires 0 <= a1 < 3329, 0 <= b1 < 3329;
            assert(0 <= a0 * b1 < 3329 * 3329) by (nonlinear_arith)
                requires 0 <= a0 < 3329, 0 <= b1 < 3329;
            assert(0 <= a1 * b0 < 3329 * 3329) by (nonlinear_arith)
                requires 0 <= a1 < 3329, 0 <= b0 < 3329;
        }
        let hi = (a1 * b1) % 3329;
        proof {
            assert(0 <= g * hi <= 3329 * 3329) by (nonlinear_arith)
                requires 0 <= g <= 3329, 0 <= hi < 3329;
        }
        ntt_c.c[i] = (a0 * b0 + g * hi) % 3329;
        ntt_c.c[i + 1] = (a0 * b1 + a1 * b0) % 3329;
        proof {
            assert(gamma(j as int) == g);
            lemma_basemul_pair(coeffs(ntt_a), coeffs(ntt_b), j as int, g as int, hi as int);
        }
        j += 1;
    }
    assert(coeffs(ntt_c) =~= basemul_spec(coeffs(ntt_a), coeffs(ntt_b)));
    ntt_c
}

/// The 7-bit reversal of `i < 128`: the 8-bit reversal shifted right by one.
pub open spec fn bitrev7(i: u8) -> u8 {
    bitrev8(i) >> 1u8
}

/// `base^(bitrev7(i)) mod 3329` for every `i < 128`: the powers of a 256th root of
/// unity in bit-reversed order.
fn power_table(base: u32) -> (z: [i32; 128])
    requires
        base < 3329,
    ensures
        forall|i: int| 0 <= i < 128 ==> #[trigger] z[i] == pow(base as int, bitrev7(i as u8) as nat) % 3329,
{
    let mut z: [i32; 128] = [0;128];
    let mut i: u8 = 0;
    while i < 128
        invariant
            0 <= i <= 128,
            base < 3329,
            forall|j: int| 0 <= j < i ==> #[trigger] z[j] == pow(base as int, bitrev7(j as u8) as nat) % 3329,
        decreases 128 - i,
    {
        // the exponents of the table are below 128: 7 bits
        let i_r = reverse_bits_u8(i) >> 1;
        let res = square_and_mult(base, i_r as u32, 3329);
        proof {
            lemma_pow0(base as int);
            lemma_pow1(base as int);
            assert(i_r < 128) by (bit_vector)
                requires i_r == (bitrev8(i) >> 1u8);
        }
        // bit reversed order
        z[i as usize] = res as i32;
        i += 1;
    }
    z
}

/// The powers of `ZETA_0 = 17` in bit-reversed order: entry `i` is
/// `17^(bitrev7(i)) mod 3329`.
pub fn compute_zeta_table() -> (z: [i32; 128])
    ensures
        forall|i: int| 0 <= i < 128 ==> #[trigger] z[i] == pow(ZETA_0 as int, bitrev7(i as u8) as nat) % 3329,
{
    power_table(ZETA_0 as u32)
}

/// The powers of `ZETA_INV_0 = 17^-1 = 1175` in bit-reversed order: entry `i` is
/// `1175^(bitrev7(i)) mod 3329`.
pub fn compute_inv_zeta_table() -> (z: [i32; 128])
    ensures
        forall|i: int| 0 <= i < 128 ==> #[trigger] z[i] == pow(ZETA_INV_0 as int, bitrev7(i as u8) as nat) % 3329,
{
    power_table(ZETA_INV_0 as u32)
}

} // verus!
