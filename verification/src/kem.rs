//! Key generation and the CCA key encapsulation of ML-KEM on top of the CPA
//! scheme: the public matrix sampled from a seed, the hash functions `H`, `G`
//! and the key derivation, encapsulation, and decapsulation with implicit
//! rejection.
use vstd::prelude::*;
use vstd::slice::{slice_subrange, slice_to_vec};
use crate::parameters::{N, K, Q, ETA_1, D_U, D_V};
use crate::math_utils::{
    Vector, PolyVector, PolyMatrix, coeffs, pv_model, all_reduced, rows_reduced, cols_reduced,
    empty_polymatrix, empty_vector,
};
use crate::encoding::{byte_encode, pv_encode, bits_value, encoded_bit};
use vstd::arithmetic::power2::{pow2, lemma2_to64};
use crate::ntt::{ntt, is_reduced};
use crate::ntt_spec::ntt_spec;
use crate::kyber::{
    EncryptedMessage, encrypt, decrypt, compute_t, compute_t_spec, generate_noise_polyvector,
    noise_polyvec, ntt_pv, encrypt_u_spec, encrypt_v_spec, decrypt_spec, ciphertext_in_range,
    bit_at, lemma_bit_at,
};
use crate::format_utils::{
    string_to_vectors, vectors_to_string, chunk_count, chunk_poly, decoded_bytes, text_of_bytes,
};
use vstd::string::StringSliceAdditionalSpecFns;
use crate::primitives::{
    shake128, shake128_bytes, shake256, shake256_bytes, sha3_256, sha3_256_bytes, sha3_512,
    sha3_512_bytes, random_u8, rng_fill_32,
};

verus! {

/// The rate of SHAKE128 in bytes: the stream of a matrix entry is read on by this much.
pub const SAMPLE_BLOCK: usize = 168;

/// The SHAKE128 output first read for a matrix entry (three blocks).
pub const SAMPLE_START: usize = 504;

/// Where reading on stops: 32 blocks, 3584 candidates of which 256 must be accepted
/// (each is accepted with probability 3329/4096).
pub const SAMPLE_LIMIT: usize = 5376;

/// Candidate `t` of a byte stream for rejection sampling: each 3 bytes `b0 b1 b2`
/// give the two 12-bit numbers `b0 + 256 (b1 mod 16)` and `b1 / 16 + 16 b2`.
pub open spec fn candidate(bytes: Seq<u8>, t: int) -> int {
    let b = 3 * (t / 2);
    if t % 2 == 0 {
        bytes[b] + 256 * (bytes[b + 1] % 16)
    } else {
        bytes[b + 1] / 16 + 16 * bytes[b + 2]
    }
}

/// The candidates below 3329 among the first `n`, in order.
pub open spec fn accepted(bytes: Seq<u8>, n: int) -> Seq<int>
    decreases n,
{
    if n <= 0 {
        Seq::empty()
    } else {
        let a = accepted(bytes, n - 1);
        if candidate(bytes, n - 1) < 3329 {
            a.push(candidate(bytes, n - 1))
        } else {
            a
        }
    }
}

/// `SampleNTT` over a finite stream: the first 256 accepted candidates of its
/// `2 * (len / 3)` candidates, then 0 if the stream holds fewer.
pub open spec fn sample_ntt(bytes: Seq<u8>) -> Seq<int> {
    let a = accepted(bytes, 2 * (bytes.len() / 3) as int);
    Seq::new(256, |i: int| if i < a.len() { a[i] } else { 0 })
}

/// The byte stream holds at least 256 accepted candidates.
pub open spec fn sample_enough(bytes: Seq<u8>) -> bool {
    accepted(bytes, 2 * (bytes.len() / 3) as int).len() >= 256
}

/// How many SHAKE128 bytes of `data` are read, from `n` on: a block more until 256
/// candidates are accepted, or up to `SAMPLE_LIMIT`.
pub open spec fn sample_len_from(data: Seq<u8>, n: nat) -> nat
    decreases SAMPLE_LIMIT + SAMPLE_BLOCK - n,
{
    if n >= SAMPLE_LIMIT || sample_enough(shake128_bytes(data, n)) {
        n
    } else {
        sample_len_from(data, n + SAMPLE_BLOCK as nat)
    }
}

/// The SHAKE128 stream of `data`, read on until 256 candidates are accepted.
pub open spec fn sample_stream(data: Seq<u8>) -> Seq<u8> {
    shake128_bytes(data, sample_len_from(data, SAMPLE_START as nat))
}

/// Entry `(i, j)` (row `i`, column `j`) of the public matrix `A` of a seed, in the
/// transformed domain: sampled from the SHAKE128 stream of `seed || j || i`.
pub open spec fn matrix_entry(seed: Seq<u8>, i: int, j: int) -> Seq<int> {
    sample_ntt(sample_stream(seed.push(j as u8).push(i as u8)))
}

/// `a` is the public matrix of `seed`: well formed, every modulus `Q`, and every
/// entry sampled from the seed.
pub open spec fn is_matrix_of_seed(a: PolyMatrix<K, K>, seed: Seq<u8>) -> bool {
    &&& a.wf()
    &&& a.m == Q
    &&& forall|i: int| 0 <= i < K ==> #[trigger] a.row_vecs[i].m == Q
    &&& forall|i: int| 0 <= i < K ==> #[trigger] a.col_vecs[i].m == Q
    &&& forall|r: int, c: int| 0 <= r < K && 0 <= c < K ==> #[trigger] a.row_vecs[r].c[c].m == Q
    &&& forall|r: int, c: int|
        0 <= r < K && 0 <= c < K ==> #[trigger] coeffs(a.row_vecs[r].c[c]) == matrix_entry(seed, r, c)
    &&& rows_reduced(a)
    &&& cols_reduced(a)
}

/// Accepting more candidates only extends the accepted sequence.
pub proof fn lemma_accepted_prefix(bytes: Seq<u8>, n: int, m: int)
    requires
        0 <= n <= m,
    ensures
        accepted(bytes, n).len() <= accepted(bytes, m).len(),
        forall|i: int| 0 <= i < accepted(bytes, n).len() ==> #[trigger] accepted(bytes, m)[i] == accepted(bytes, n)[i],
    decreases m - n,
{
    if n < m {
        lemma_accepted_prefix(bytes, n, m - 1);
    }
}

/// Accepted candidates are below 3329 and not negative.
pub proof fn lemma_accepted_range(bytes: Seq<u8>, n: int)
    ensures
        forall|i: int| 0 <= i < accepted(bytes, n).len() ==> 0 <= #[trigger] accepted(bytes, n)[i] < 3329,
    decreases n,
{
    if n > 0 {
        lemma_accepted_range(bytes, n - 1);
        let a = accepted(bytes, n - 1);
        let c = candidate(bytes, n - 1);
        assert(c >= 0);
        if c < 3329 {
            assert(accepted(bytes, n) == a.push(c));
            assert forall|i: int| 0 <= i < a.len() + 1 implies 0 <= #[trigger] a.push(c)[i] < 3329 by {
                if i < a.len() {
                    assert(a.push(c)[i] == a[i]);
                }
            }
        }
    }
}

/// Rejection sampling of a transformed polynomial from a byte stream.
fn sample_ntt_poly(bytes: &Vec<u8>) -> (res: (Vector<N>, bool))
    ensures
        res.0.m == Q,
        coeffs(res.0) == sample_ntt(bytes@),
        is_reduced(res.0),
        res.1 == sample_enough(bytes@),
{
    let mut poly = empty_vector();
    let mut l: usize = 0;
    let mut pos: usize = 0;
    let ghost total: int = 2 * (bytes@.len() / 3) as int;
    while l < N && bytes.len() - pos >= 3
        invariant
            pos % 3 == 0,
            pos <= bytes@.len(),
            poly.m == Q,
            l <= N,
            l as int == if accepted(bytes@, 2 * (pos / 3) as int).len() < 256 {
                accepted(bytes@, 2 * (pos / 3) as int).len() as int
            } else {
                256
            },
            forall|i: int| 0 <= i < l ==> #[trigger] poly.c[i] == accepted(bytes@, 2 * (pos / 3) as int)[i],
            forall|i: int| l <= i < N ==> #[trigger] poly.c[i] == 0,
        decreases bytes@.len() - pos,
    {
        let b0 = bytes[pos] as i32;
        let b1 = bytes[pos + 1] as i32;
        let b2 = bytes[pos + 2] as i32;
        let c1: i32 = b0 + 256 * (b1 % 16);
        let c2: i32 = b1 / 16 + 16 * b2;
        let ghost t = 2 * (pos / 3) as int;
        let ghost a0 = accepted(bytes@, t);
        let ghost a1 = accepted(bytes@, t + 1);
        let ghost a2 = accepted(bytes@, t + 2);
        proof {
            assert(candidate(bytes@, t) == c1);
            assert(candidate(bytes@, t + 1) == c2);
            assert((pos + 3) / 3 == pos / 3 + 1);
            assert(a1 == if c1 < 3329 { a0.push(c1 as int) } else { a0 });
            assert(a2 == if c2 < 3329 { a1.push(c2 as int) } else { a1 });
        }
        // rejection sampling
        if c1 < Q {
            poly.set(l, c1);
            l += 1;
        }
        if c2 < Q && l < N {
            poly.set(l, c2);
            l += 1;
        }
        pos += 3;
    }
    proof {
        let a = accepted(bytes@, 2 * (pos / 3) as int);
        assert forall|i: int| 0 <= i < 256 implies 0 <= #[trigger] poly.c[i] < 3329 by {
            lemma_accepted_range(bytes@, 2 * (pos / 3) as int);
        }
        if l < N {
            assert(pos / 3 == bytes@.len() / 3);
        } else {
            lemma_accepted_prefix(bytes@, 2 * (pos / 3) as int, total);
        }
        lemma_accepted_range(bytes@, total);
        assert(coeffs(poly) =~= sample_ntt(bytes@));
    }
    (poly, l == N)
}

/// Samples matrix entry from the SHAKE128 stream of `data`, reading on a block at a time
/// until 256 candidates are accepted.
fn sample_matrix_entry(data: &[u8]) -> (res: Vector<N>)
    ensures
        res.m == Q,
        coeffs(res) == sample_ntt(sample_stream(data@)),
        is_reduced(res),
{
    let mut n: usize = SAMPLE_START;
    let mut bytes = shake128(data, n);
    let (mut poly, mut full) = sample_ntt_poly(&bytes);
    while !full && n < SAMPLE_LIMIT
        invariant
            SAMPLE_START <= n <= SAMPLE_LIMIT,
            n % SAMPLE_BLOCK == 0,
            sample_len_from(data@, SAMPLE_START as nat) == sample_len_from(data@, n as nat),
            bytes@ == shake128_bytes(data@, n as nat),
            full == sample_enough(bytes@),
            poly.m == Q,
            coeffs(poly) == sample_ntt(bytes@),
            is_reduced(poly),
        decreases SAMPLE_LIMIT - n,
    {
        n = n + SAMPLE_BLOCK;
        bytes = shake128(data, n);
        let r = sample_ntt_poly(&bytes);
        poly = r.0;
        full = r.1;
    }
    poly
}

/// The public matrix `A`, in the transformed domain, of a seed: entry `(i, j)` (row `i`,
/// column `j`) is sampled from SHAKE128 of `seed || j || i`, the stream being read on a
/// block at a time until 256 candidates are accepted. The reading stops at
/// `SAMPLE_LIMIT` bytes: should fewer than 256 candidates be accepted by then (the
/// chance is negligible), the remaining coefficients of that entry are 0.
#[allow(non_snake_case)]
pub fn generate_A_from_seed(seed: &Vec<u8>) -> (res: PolyMatrix<K, K>)
    ensures
        is_matrix_of_seed(res, seed@),
{
    let mut A_ntt: PolyMatrix<K, K> = empty_polymatrix();
    let mut i: usize = 0;
    while i < K
        invariant
            0 <= i <= K,
            A_ntt.wf(),
            A_ntt.m == Q,
            forall|a: int| 0 <= a < K ==> #[trigger] A_ntt.row_vecs[a].m == Q,
            forall|a: int| 0 <= a < K ==> #[trigger] A_ntt.col_vecs[a].m == Q,
            forall|r: int, c: int| 0 <= r < K && 0 <= c < K ==> #[trigger] A_ntt.row_vecs[r].c[c].m == Q,
            forall|r: int, c: int| 0 <= r < K && 0 <= c < K ==> #[trigger] is_reduced(A_ntt.row_vecs[r].c[c]),
            forall|r: int, c: int|
                0 <= r < K && 0 <= c < i ==> #[trigger] coeffs(A_ntt.row_vecs[r].c[c]) == matrix_entry(
                    seed@,
                    r,
                    c,
                ),
        decreases K - i,
    {
        let mut j: usize = 0;
        while j < K
            invariant
                0 <= i < K,
                0 <= j <= K,
                A_ntt.wf(),
                A_ntt.m == Q,
                forall|a: int| 0 <= a < K ==> #[trigger] A_ntt.row_vecs[a].m == Q,
                forall|a: int| 0 <= a < K ==> #[trigger] A_ntt.col_vecs[a].m == Q,
                forall|r: int, c: int| 0 <= r < K && 0 <= c < K ==> #[trigger] A_ntt.row_vecs[r].c[c].m == Q,
                forall|r: int, c: int|
                    0 <= r < K && 0 <= c < K ==> #[trigger] is_reduced(A_ntt.row_vecs[r].c[c]),
                forall|r: int, c: int|
                    0 <= r < K && 0 <= c < i ==> #[trigger] coeffs(A_ntt.row_vecs[r].c[c]) == matrix_entry(
                        seed@,
                        r,
                        c,
                    ),
                forall|r: int|
                    0 <= r < j ==> #[trigger] coeffs(A_ntt.row_vecs[r].c[i as int]) == matrix_entry(
                        seed@,
                        r,
                        i as int,
                    ),
            decreases K - j,
        {
            let mut input = slice_to_vec(seed.as_slice());
            // beware of the order of the indices: the column index is hashed first
            input.push(i as u8);
            input.push(j as u8);
            proof {
                assert(input@ =~= seed@.push(i as u8).push(j as u8));
            }
            let generated_polynomial = sample_matrix_entry(input.as_slice());
            A_ntt.set_coef(i, j, generated_polynomial);
            j += 1;
        }
        i += 1;
    }
    proof {
        assert forall|a: int| 0 <= a < K implies #[trigger] all_reduced(A_ntt.row_vecs[a]) by {
            assert forall|c: int| 0 <= c < K implies #[trigger] is_reduced(A_ntt.row_vecs[a].c[c]) by {}
        }
        assert forall|a: int| 0 <= a < K implies #[trigger] all_reduced(A_ntt.col_vecs[a]) by {
            assert forall|r: int| 0 <= r < K implies #[trigger] is_reduced(A_ntt.col_vecs[a].c[r]) by {
                assert(A_ntt.row_vecs[r].c[a] == A_ntt.col_vecs[a].c[r]);
            }
        }
    }
    A_ntt
}

/// A fresh random seed of 32 bytes.
pub fn generate_seed_vector() -> (res: Vec<u8>)
    ensures
        res@.len() == 32,
{
    let mut r: Vec<u8> = Vec::new();
    let mut i: usize = 0;
    while i < 32
        invariant
            0 <= i <= 32,
            r@.len() == i,
        decreases 32 - i,
    {
        r.push(random_u8());
        i += 1;
    }
    r
}

/// `bytes[from..to]` as a new vector.
fn sub_vec(bytes: &Vec<u8>, from: usize, to: usize) -> (res: Vec<u8>)
    requires
        from <= to <= bytes@.len(),
    ensures
        res@ == bytes@.subrange(from as int, to as int),
{
    slice_to_vec(slice_subrange(bytes.as_slice(), from, to))
}

/// `a || b` as a new vector.
fn concat(a: &[u8], b: &[u8]) -> (res: Vec<u8>)
    ensures
        res@ == a@ + b@,
{
    let mut out = slice_to_vec(a);
    out.extend_from_slice(b);
    out
}

/// The two halves of `G(data)`, SHA3-512 of the data: its first and last 32 bytes.
pub open spec fn g_halves(data: Seq<u8>) -> (Seq<u8>, Seq<u8>) {
    (sha3_512_bytes(data).subrange(0, 32), sha3_512_bytes(data).subrange(32, 64))
}

/// `G(d)`, split into the seed `rho` of the public matrix and the noise seed `sigma`.
pub fn generate_rho_and_sigma(d: Vec<u8>) -> (res: (Vec<u8>, Vec<u8>))
    ensures
        res.0@ == g_halves(d@).0,
        res.1@ == g_halves(d@).1,
{
    let hash = sha3_512(d.as_slice());
    (sub_vec(&hash, 0, 32), sub_vec(&hash, 32, 64))
}

/// `G(m || H(pk))`, split into the pre-key `K_b` and the encryption coins `r`.
pub fn derive_coins(_m: Vec<u8>, hashed_pk: Vec<u8>) -> (res: (Vec<u8>, Vec<u8>))
    ensures
        res.0@ == g_halves(_m@ + hashed_pk@).0,
        res.1@ == g_halves(_m@ + hashed_pk@).1,
{
    let data = concat(_m.as_slice(), hashed_pk.as_slice());
    let hash = sha3_512(data.as_slice());
    (sub_vec(&hash, 0, 32), sub_vec(&hash, 32, 64))
}

/// The key derivation: 32 bytes of SHAKE256 of `K_b || hashed_c`.
#[allow(non_snake_case)]
pub fn KDF(K_b: Vec<u8>, hashed_c: Vec<u8>) -> (res: Vec<u8>)
    ensures
        res@ == shake256_bytes(K_b@ + hashed_c@, 32),
        res@.len() == 32,
{
    let data = concat(K_b.as_slice(), hashed_c.as_slice());
    shake256(data.as_slice(), 32)
}

/// A public key: the matrix `A` (transformed) sampled from the seed `rho`, and `t`.
#[allow(non_snake_case)]
#[derive(Clone)]
pub struct PublicKey {
    pub A: PolyMatrix<K, K>,
    pub t: PolyVector<K>,
    pub rho: Vec<u8>,
}

/// A private key: the transformed secret `s`, the public key, its hash and the
/// rejection secret `z`.
#[derive(Clone)]
pub struct PrivateKey {
    pub s: PolyVector<K>,
    pub pk: PublicKey,
    pub hashed_pk: Vec<u8>,
    pub z: Vec<u8>,
}

/// Every coefficient of `t` is at least 0, so it has a 12-bit encoding.
pub open spec fn t_encodable(t: PolyVector<K>) -> bool {
    forall|i: int, j: int| 0 <= i < K && 0 <= j < 256 ==> 0 <= #[trigger] t.c[i].c[j]
}

/// `H(pk)`: SHA3-256 of the 12-bit encoding of `t` followed by `rho`.
pub open spec fn h_pk(t: PolyVector<K>, rho: Seq<u8>) -> Seq<u8> {
    sha3_256_bytes(pv_encode(pv_model(t), 12) + rho)
}

/// `H(c)`: SHA3-256 of the encodings of `u` (10 bits) and `v` (4 bits).
pub open spec fn h_c(c: EncryptedMessage) -> Seq<u8> {
    sha3_256_bytes(pv_encode(pv_model(c.u), D_U as nat) + byte_encode(coeffs(c.v), D_V as nat))
}

impl PublicKey {
    /// The public key of the seed `rho` and of `t`; the matrix is sampled from `rho`.
    pub fn new(rho: Vec<u8>, t: PolyVector<K>) -> (res: PublicKey)
        ensures
            res.rho@ == rho@,
            res.t == t,
            is_matrix_of_seed(res.A, rho@),
    {
        PublicKey { A: generate_A_from_seed(&rho), t, rho }
    }
}

/// `H(pk)`: SHA3-256 of the 12-bit encoding of `t` followed by `rho`.
pub fn hash_public_key(pk: &PublicKey) -> (res: Vec<u8>)
    requires
        t_encodable(pk.t),
    ensures
        res@ == h_pk(pk.t, pk.rho@),
{
    let mut bytes = pk.t.encode(12);
    assert(bytes@ == pv_encode(pv_model(pk.t), 12));
    bytes.extend_from_slice(pk.rho.as_slice());
    assert(bytes@ == pv_encode(pv_model(pk.t), 12) + pk.rho@);
    sha3_256(bytes.as_slice())
}

/// `H(c)`: SHA3-256 of `u` packed 10 bits per coefficient followed by `v` packed 4
/// bits per coefficient.
fn hash_c(c: &EncryptedMessage) -> (res: Vec<u8>)
    requires
        ciphertext_in_range(*c),
    ensures
        res@ == h_c(*c),
{
    let mut bytes = c.u.encode(D_U as usize);
    let vb = c.v.encode(D_V as usize);
    bytes.extend_from_slice(vb.as_slice());
    assert(bytes@ == pv_encode(pv_model(c.u), D_U as nat) + byte_encode(coeffs(c.v), D_V as nat));
    sha3_256(bytes.as_slice())
}

/// The two ciphertexts hold the same polynomials and the same moduli (what the
/// derived `==` of `EncryptedMessage` compares).
pub open spec fn same_ciphertext(a: EncryptedMessage, b: EncryptedMessage) -> bool {
    &&& a.u.m == b.u.m
    &&& forall|i: int| 0 <= i < K ==> #[trigger] a.u.c[i].m == b.u.c[i].m
    &&& pv_model(a.u) == pv_model(b.u)
    &&& a.v.m == b.v.m
    &&& coeffs(a.v) == coeffs(b.v)
}

/// Compares two ciphertexts field by field.
fn ciphertext_eq(a: &EncryptedMessage, b: &EncryptedMessage) -> (res: bool)
    ensures
        res == same_ciphertext(*a, *b),
{
    if a.u.m != b.u.m || a.v.m != b.v.m {
        return false;
    }
    let mut i: usize = 0;
    while i < K
        invariant
            0 <= i <= K,
            a.u.m == b.u.m,
            a.v.m == b.v.m,
            forall|x: int| 0 <= x < i ==> #[trigger] a.u.c[x].m == b.u.c[x].m,
            forall|x: int| 0 <= x < i ==> #[trigger] coeffs(a.u.c[x]) == coeffs(b.u.c[x]),
        decreases K - i,
    {
        if a.u.c[i].m != b.u.c[i].m {
            return false;
        }
        let mut j: usize = 0;
        while j < N
            invariant
                0 <= i < K,
                0 <= j <= N,
                forall|y: int| 0 <= y < j ==> #[trigger] a.u.c[i as int].c[y] == b.u.c[i as int].c[y],
            decreases N - j,
        {
            if a.u.c[i].c[j] != b.u.c[i].c[j] {
                proof {
                    assert(coeffs(a.u.c[i as int])[j as int] != coeffs(b.u.c[i as int])[j as int]);
                    assert(pv_model(a.u)[i as int] != pv_model(b.u)[i as int]);
                }
                return false;
            }
            j += 1;
        }
        assert(coeffs(a.u.c[i as int]) =~= coeffs(b.u.c[i as int]));
        i += 1;
    }
    assert(pv_model(a.u) =~= pv_model(b.u));
    let mut j: usize = 0;
    while j < N
        invariant
            0 <= j <= N,
            forall|y: int| 0 <= y < j ==> #[trigger] a.v.c[y] == b.v.c[y],
        decreases N - j,
    {
        if a.v.c[j] != b.v.c[j] {
            proof {
                assert(coeffs(a.v)[j as int] != coeffs(b.v)[j as int]);
            }
            return false;
        }
        j += 1;
    }
    assert(coeffs(a.v) =~= coeffs(b.v));
    true
}

/// The ciphertext that the public key `(A, t)` and the coins give for a message.
pub open spec fn is_encryption(c: EncryptedMessage, a: PolyMatrix<K, K>, t: PolyVector<K>, msg: Seq<i32>, coins: Seq<u8>) -> bool {
    &&& c.u.m == a.m
    &&& forall|i: int| 0 <= i < K ==> #[trigger] c.u.c[i].m == Q
    &&& c.v.m == Q
    &&& pv_model(c.u) == encrypt_u_spec(a, coins)
    &&& coeffs(c.v) == encrypt_v_spec(t, msg, coins)
}

/// The message of a decryption as the integers it encodes.
pub open spec fn msg_ints(m: Seq<i32>) -> Seq<int> {
    Seq::new(m.len(), |j: int| m[j] as int)
}

/// The shared key that decapsulation derives: with `m = Decrypt(s, c)` and
/// `(K_b, sigma) = G(m || H(pk))`, `KDF(K_b, H(c))` when `c` is the encryption of `m`
/// with the coins `sigma`, else `KDF(z, H(c))` (implicit rejection).
pub open spec fn decapsulate_spec(c: EncryptedMessage, sk: PrivateKey) -> Seq<u8> {
    let m = decrypt_spec(c, sk.s);
    let g = g_halves(byte_encode(msg_ints(m), 1) + sk.hashed_pk@);
    if is_encryption(c, sk.pk.A, sk.pk.t, m, g.1) {
        shake256_bytes(g.0 + h_c(c), 32)
    } else {
        shake256_bytes(sk.z@ + h_c(c), 32)
    }
}

/// The key decapsulation of ML-KEM: decrypts `c`, derives `(K_b, sigma)` from the
/// message and `H(pk)`, encrypts the message again with `sigma`, and returns
/// `KDF(K_b, H(c))` if that gives `c` back, `KDF(z, H(c))` otherwise.
pub fn decapsulate(c: EncryptedMessage, sk: PrivateKey) -> (res: Vec<u8>)
    requires
        ciphertext_in_range(c),
        all_reduced(sk.s),
        cols_reduced(sk.pk.A),
        all_reduced(sk.pk.t),
    ensures
        res@ == decapsulate_spec(c, sk),
        res@.len() == 32,
        res@ == shake256_bytes(
            decapsulation_seed(c, sk) + sha3_256_bytes(
                pv_encode(pv_model(c.u), 10) + byte_encode(coeffs(c.v), 4),
            ),
            32,
        ),
{
    let PrivateKey { s, pk, hashed_pk, z } = sk;
    let msg = decrypt(&c, s);
    proof {
        assert forall|i: int| 0 <= i < 256 implies 0 <= #[trigger] msg.c[i] by {
            assert(msg.c@[i] == decrypt_spec(c, s)[i]);
        }
        assert(coeffs(msg) =~= msg_ints(decrypt_spec(c, s)));
    }
    // G(m || H(pk))
    let msg_bytes = msg.encode(1);
    let (k_b, sigma) = derive_coins(msg_bytes, hashed_pk);
    let c_p: EncryptedMessage = encrypt(pk.A, pk.t, msg, sigma);
    let hashed_c = hash_c(&c);
    proof {
        lemma_same_as_encryption(c_p, c, pk.A, pk.t, msg.c@, sigma@);
    }
    proof {
        lemma_decapsulated_key(c, sk);
    }
    if ciphertext_eq(&c_p, &c) {
        KDF(k_b, hashed_c)
    } else {
        KDF(z, hashed_c)
    }
}

/// A ciphertext equals an encryption exactly when it is that encryption itself.
proof fn lemma_same_as_encryption(
    c_p: EncryptedMessage,
    c: EncryptedMessage,
    a: PolyMatrix<K, K>,
    t: PolyVector<K>,
    m: Seq<i32>,
    coins: Seq<u8>,
)
    requires
        is_encryption(c_p, a, t, m, coins),
    ensures
        same_ciphertext(c_p, c) == is_encryption(c, a, t, m, coins),
{
    if same_ciphertext(c_p, c) {
        assert forall|i: int| 0 <= i < K implies #[trigger] c.u.c[i].m == Q by {
            assert(c_p.u.c[i].m == c.u.c[i].m);
        }
    }
    if is_encryption(c, a, t, m, coins) {
        assert forall|i: int| 0 <= i < K implies #[trigger] c_p.u.c[i].m == c.u.c[i].m by {
            assert(c_p.u.c[i].m == Q);
        }
    }
}

/// The shared key and ciphertext of encapsulating `msg`: with `(K_b, r) = G(m || H(pk))`,
/// `c` is the encryption of `msg` with the coins `r` and the key is `KDF(K_b, H(c))`.
pub open spec fn encapsulate_spec(pk: PublicKey, msg: Vector<N>, c: EncryptedMessage, key: Seq<u8>) -> bool {
    let g = g_halves(byte_encode(coeffs(msg), 1) + h_pk(pk.t, pk.rho@));
    &&& is_encryption(c, pk.A, pk.t, msg.c@, g.1)
    &&& key == shake256_bytes(g.0 + h_c(c), 32)
}

/// The key encapsulation of ML-KEM for the message `msg` (coefficients 0 or 1).
pub fn encapsulate(pk: &PublicKey, msg: Vector<N>) -> (res: (EncryptedMessage, Vec<u8>))
    requires
        cols_reduced(pk.A),
        all_reduced(pk.t),
        forall|i: int| 0 <= i < 256 ==> 0 <= #[trigger] msg.c[i],
    ensures
        encapsulate_spec(*pk, msg, res.0, res.1@),
        ciphertext_in_range(res.0),
        res.1@.len() == 32,
        res.1@ == shake256_bytes(
            sha3_512_bytes(
                byte_encode(coeffs(msg), 1) + sha3_256_bytes(pv_encode(pv_model(pk.t), 12) + pk.rho@),
            ).subrange(0, 32) + sha3_256_bytes(pv_encode(pv_model(res.0.u), 10) + byte_encode(coeffs(res.0.v), 4)),
            32,
        ),
{
    proof {
        assert forall|i: int, j: int| 0 <= i < K && 0 <= j < 256 implies 0 <= #[trigger] pk.t.c[i].c[j] by {
            assert(is_reduced(pk.t.c[i]));
        }
    }
    let hashed_pk = hash_public_key(pk);
    let msg_bytes: Vec<u8> = msg.encode(1);
    let (k_b, r) = derive_coins(msg_bytes, hashed_pk);
    let c = encrypt(pk.A, pk.t, msg, r);
    let hashed_c = hash_c(&c);
    let key = KDF(k_b, hashed_c);
    proof {
        lemma_encapsulated_key(*pk, msg, c, key@);
    }
    (c, key)
}

/// The first half of the key derivation input of decapsulation: `K_b` of
/// `G(m || H(pk))` when re-encrypting the decrypted message `m` gives the ciphertext
/// back, else the secret `z` (implicit rejection).
pub open spec fn decapsulation_seed(c: EncryptedMessage, sk: PrivateKey) -> Seq<u8> {
    let m = decrypt_spec(c, sk.s);
    let g = sha3_512_bytes(byte_encode(msg_ints(m), 1) + sk.hashed_pk@);
    if is_encryption(c, sk.pk.A, sk.pk.t, m, g.subrange(32, 64)) {
        g.subrange(0, 32)
    } else {
        sk.z@
    }
}

/// The encapsulated key is `KDF(K_b, H(c))` of the ciphertext that comes with it:
/// SHAKE256 of the first half of `G(m || H(pk))` followed by the SHA3-256 digest of the
/// encodings of `u` (10 bits) and `v` (4 bits), 32 bytes.
pub proof fn lemma_encapsulated_key(pk: PublicKey, msg: Vector<N>, c: EncryptedMessage, key: Seq<u8>)
    requires
        encapsulate_spec(pk, msg, c, key),
    ensures
        key == shake256_bytes(
            sha3_512_bytes(
                byte_encode(coeffs(msg), 1) + sha3_256_bytes(pv_encode(pv_model(pk.t), 12) + pk.rho@),
            ).subrange(0, 32) + sha3_256_bytes(pv_encode(pv_model(c.u), 10) + byte_encode(coeffs(c.v), 4)),
            32,
        ),
{
}

/// The decapsulated key is `KDF(K_b, H(c))` when the ciphertext is the re-encryption of
/// its decrypted message, `KDF(z, H(c))` otherwise: SHAKE256 of that seed followed by
/// the SHA3-256 digest of the encodings of `u` (10 bits) and `v` (4 bits), 32 bytes.
pub proof fn lemma_decapsulated_key(c: EncryptedMessage, sk: PrivateKey)
    ensures
        decapsulate_spec(c, sk) == shake256_bytes(
            decapsulation_seed(c, sk) + sha3_256_bytes(pv_encode(pv_model(c.u), 10) + byte_encode(coeffs(c.v), 4)),
            32,
        ),
{
}

/// Decapsulation gives back the key that encapsulation made, whenever the private key
/// belongs to the public key (same `A` and `t`, and `H(pk)` stored) and decrypting the
/// ciphertext gives back the encapsulated message.
pub proof fn lemma_decapsulate_recovers_key(
    pk: PublicKey,
    sk: PrivateKey,
    msg: Vector<N>,
    c: EncryptedMessage,
    key: Seq<u8>,
)
    requires
        encapsulate_spec(pk, msg, c, key),
        sk.pk.A == pk.A,
        sk.pk.t == pk.t,
        sk.hashed_pk@ == h_pk(pk.t, pk.rho@),
        decrypt_spec(c, sk.s) == msg.c@,
    ensures
        decapsulate_spec(c, sk) == key,
{
    assert(msg_ints(decrypt_spec(c, sk.s)) =~= coeffs(msg));
}

/// A ciphertext that is not the encryption of the decrypted message under the coins
/// that message derives is answered with `KDF(z, H(c))`, which depends on the
/// ciphertext and `z` alone (implicit rejection).
pub proof fn lemma_decapsulate_rejects(c: EncryptedMessage, sk: PrivateKey)
    requires
        !is_encryption(
            c,
            sk.pk.A,
            sk.pk.t,
            decrypt_spec(c, sk.s),
            g_halves(byte_encode(msg_ints(decrypt_spec(c, sk.s)), 1) + sk.hashed_pk@).1,
        ),
    ensures
        decapsulate_spec(c, sk) == shake256_bytes(sk.z@ + h_c(c), 32),
{
}

/// The key pair that key generation derives from `sigma` and the matrix seed `rho`:
/// `s` is the transformed noise vector of nonces 0..3, `t = A s + e` with `e` the
/// noise vector of nonces 3..6.
pub open spec fn is_key_pair(pk: PublicKey, sk: PrivateKey, sigma: Seq<u8>) -> bool {
    &&& pk.rho@.len() == 32
    &&& is_matrix_of_seed(pk.A, pk.rho@)
    &&& pv_model(sk.s) == ntt_pv(noise_polyvec(ETA_1 as int, sigma, 0))
    &&& sk.s.m == Q
    &&& forall|i: int| 0 <= i < K ==> #[trigger] sk.s.c[i].m == Q
    &&& all_reduced(sk.s)
    &&& pv_model(pk.t) == compute_t_spec(pk.A, sk.s, noise_polyvec(ETA_1 as int, sigma, K as int))
    &&& pk.t.m == Q
    &&& forall|i: int| 0 <= i < K ==> #[trigger] pk.t.c[i].m == Q
    &&& all_reduced(pk.t)
    &&& sk.pk.A == pk.A
    &&& sk.pk.t == pk.t
    &&& sk.pk.rho@ == pk.rho@
    &&& sk.hashed_pk@ == Seq::<u8>::empty()
    &&& sk.z@ == Seq::<u8>::empty()
}

/// Key generation: a fresh random seed for the matrix, the secret `s` and the error
/// `e` drawn from `sigma`, and `t = A s + e`.
pub fn generate_key_pair(sigma: &Vec<u8>) -> (res: (PublicKey, PrivateKey))
    ensures
        is_key_pair(res.0, res.1, sigma@),
{
    let seed_vector = generate_seed_vector();
    #[allow(non_snake_case)]
    let A = generate_A_from_seed(&seed_vector);
    let nonce: u8 = 0;
    let (mut s, nonce) = generate_noise_polyvector(ETA_1, nonce, sigma);
    let ghost s0 = s;
    let mut i: usize = 0;
    while i < K
        invariant
            0 <= i <= K,
            s.m == Q,
            forall|a: int| 0 <= a < K ==> #[trigger] s.c[a].m == Q,
            forall|a: int, j: int| 0 <= a < K && 0 <= j < 256 ==> 0 <= #[trigger] s0.c[a].c[j] < 3329,
            forall|a: int| i <= a < K ==> #[trigger] s.c[a] == s0.c[a],
            forall|a: int| 0 <= a < i ==> #[trigger] coeffs(s.c[a]) == ntt_spec(coeffs(s0.c[a])),
            forall|a: int| 0 <= a < i ==> #[trigger] is_reduced(s.c[a]),
        decreases K - i,
    {
        proof {
            assert(s.c[i as int] == s0.c[i as int]);
            assert forall|j: int| 0 <= j < 256 implies 0 <= #[trigger] s.c[i as int].c[j] < 524288 by {
                assert(0 <= s0.c[i as int].c[j] < 3329);
            }
        }
        s.c[i] = ntt(s.c[i]);
        i += 1;
    }
    let (e, _nonce) = generate_noise_polyvector(ETA_1, nonce, sigma);
    proof {
        assert forall|a: int| 0 <= a < K implies #[trigger] is_reduced(s.c[a]) by {}
        assert forall|a: int| 0 <= a < K implies #[trigger] crate::ntt::ntt_input(e.c[a]) by {
            assert forall|j: int| 0 <= j < 256 implies 0 <= #[trigger] e.c[a].c[j] < 524288 by {}
        }
        assert forall|a: int| 0 <= a < K implies #[trigger] pv_model(s)[a] == ntt_pv(
            noise_polyvec(ETA_1 as int, sigma@, 0),
        )[a] by {
            assert(pv_model(s0)[a] == coeffs(s0.c[a]));
        }
        assert(pv_model(s) =~= ntt_pv(noise_polyvec(ETA_1 as int, sigma@, 0)));
    }
    let t = compute_t(A, s, e);
    let public_key = PublicKey::new(seed_vector, t);
    proof {
        assert forall|a: int| 0 <= a < K implies #[trigger] is_reduced(t.c[a]) by {
            assert forall|j: int| 0 <= j < 256 implies 0 <= #[trigger] t.c[a].c[j] < 3329 by {
                assert(pv_model(t)[a][j] == t.c[a].c[j]);
                assert(pv_model(t)[a][j] == compute_t_spec(A, s, pv_model(e))[a][j]);
            }
        }
    }
    proof {
        assert forall|a: int| 0 <= a < K implies #[trigger] pv_model(A.row_vecs[a]) == pv_model(
            public_key.A.row_vecs[a],
        ) by {
            assert forall|c: int| 0 <= c < K implies #[trigger] pv_model(A.row_vecs[a])[c] == pv_model(
                public_key.A.row_vecs[a],
            )[c] by {
                assert(coeffs(A.row_vecs[a].c[c]) == matrix_entry(seed_vector@, a, c));
                assert(coeffs(public_key.A.row_vecs[a].c[c]) == matrix_entry(seed_vector@, a, c));
            }
            assert(pv_model(A.row_vecs[a]) =~= pv_model(public_key.A.row_vecs[a]));
        }
        assert(compute_t_spec(A, s, pv_model(e)) =~= compute_t_spec(public_key.A, s, pv_model(e)));
        assert(pv_model(e) == noise_polyvec(ETA_1 as int, sigma@, K as int));
    }
    let private_key = PrivateKey {
        s,
        pk: PublicKey { A: public_key.A, t: public_key.t, rho: public_key.rho.clone() },
        hashed_pk: Vec::new(),
        z: Vec::new(),
    };
    (public_key, private_key)
}

/// Two 32-byte seeds `d` and `z` drawn from the generator, in that order.
pub fn generate_d_and_z(rng: &mut nist_pqc_seeded_rng::NistPqcAes256CtrRng) -> (res: (Vec<u8>, Vec<u8>))
    ensures
        res.0@.len() == 32,
        res.1@.len() == 32,
{
    let d = rng_fill_32(rng);
    let z = rng_fill_32(rng);
    (slice_to_vec(d.as_slice()), slice_to_vec(z.as_slice()))
}

/// The message polynomial whose coefficient `8 i + j` is bit `j` of byte `i` of
/// `bytes`.
pub open spec fn message_of_bytes(bytes: Seq<u8>) -> Seq<int> {
    Seq::new(256, |p: int| bit_at(bytes, p))
}

/// A byte is the sum of its bits times their weights.
proof fn lemma_byte_from_bits(x: u8)
    ensures
        x as int == ((x >> 0u8) & 1u8) as int + ((x >> 1u8) & 1u8) as int * 2 + ((x >> 2u8) & 1u8) as int * 4
            + ((x >> 3u8) & 1u8) as int * 8 + ((x >> 4u8) & 1u8) as int * 16 + ((x >> 5u8) & 1u8) as int
            * 32 + ((x >> 6u8) & 1u8) as int * 64 + ((x >> 7u8) & 1u8) as int * 128,
{
    assert(x == ((x >> 0u8) & 1u8) + ((x >> 1u8) & 1u8) * 2 + ((x >> 2u8) & 1u8) * 4 + ((x >> 3u8) & 1u8)
        * 8 + ((x >> 4u8) & 1u8) * 16 + ((x >> 5u8) & 1u8) * 32 + ((x >> 6u8) & 1u8) * 64 + ((x >> 7u8)
        & 1u8) * 128) by (bit_vector);
}

/// Byte `k` of the one-bit encoding of the message polynomial of `bytes` is `bytes[k]`.
proof fn lemma_message_byte(bytes: Seq<u8>, k: int)
    requires
        bytes.len() == 32,
        0 <= k < 32,
    ensures
        bits_value(message_of_bytes(bytes), 1, 8 * k, 8) == bytes[k] as int,
{
    let m = message_of_bytes(bytes);
    lemma2_to64();
    assert forall|j: int| 0 <= j < 8 implies #[trigger] encoded_bit(m, 1, 8 * k + j) == ((bytes[k] >> (j as u8))
        & 1u8) as int by {
        let p = 8 * k + j;
        assert(p / 1 == p);
        assert(p % 1 == 0);
        lemma_bit_at(bytes, p);
        assert(m[p] == bit_at(bytes, p));
        assert(p / 8 == k);
        assert(p % 8 == j);
    }
    assert(encoded_bit(m, 1, 8 * k + 0) == ((bytes[k] >> 0u8) & 1u8) as int);
    assert(encoded_bit(m, 1, 8 * k + 1) == ((bytes[k] >> 1u8) & 1u8) as int);
    assert(encoded_bit(m, 1, 8 * k + 2) == ((bytes[k] >> 2u8) & 1u8) as int);
    assert(encoded_bit(m, 1, 8 * k + 3) == ((bytes[k] >> 3u8) & 1u8) as int);
    assert(encoded_bit(m, 1, 8 * k + 4) == ((bytes[k] >> 4u8) & 1u8) as int);
    assert(encoded_bit(m, 1, 8 * k + 5) == ((bytes[k] >> 5u8) & 1u8) as int);
    assert(encoded_bit(m, 1, 8 * k + 6) == ((bytes[k] >> 6u8) & 1u8) as int);
    assert(encoded_bit(m, 1, 8 * k + 7) == ((bytes[k] >> 7u8) & 1u8) as int);
    lemma_byte_from_bits(bytes[k]);
    crate::encoding::lemma_bits_value8(m, 1, 8 * k);
}

/// Encoding the message polynomial of 32 bytes with one bit per coefficient gives the
/// bytes back: `generate_message_from_seed` returns a message and its own encoding.
pub proof fn lemma_message_encoding(bytes: Seq<u8>)
    requires
        bytes.len() == 32,
    ensures
        byte_encode(message_of_bytes(bytes), 1) == bytes,
{
    let m = message_of_bytes(bytes);
    assert forall|k: int| 0 <= k < 32 implies #[trigger] byte_encode(m, 1)[k] == bytes[k] by {
        lemma_message_byte(bytes, k);
    }
    assert(byte_encode(m, 1) =~= bytes);
}

/// A random message drawn from the generator: 32 bytes, and the polynomial of their
/// 256 bits, least significant bit of each byte first.
pub fn generate_message_from_seed(rng: &mut nist_pqc_seeded_rng::NistPqcAes256CtrRng) -> (res: (
    Vector<N>,
    Vec<u8>,
))
    ensures
        res.1@.len() == 32,
        res.0.m == Q,
        coeffs(res.0) == message_of_bytes(res.1@),
{
    let b_msg = rng_fill_32(rng);
    let bytes = slice_to_vec(b_msg.as_slice());
    let msg_vector = message_from_bytes(&bytes);
    (msg_vector, bytes)
}

/// The message polynomial of 32 bytes: coefficient `8 i + j` is bit `j` of byte `i`.
pub fn message_from_bytes(bytes: &Vec<u8>) -> (res: Vector<N>)
    requires
        bytes@.len() == 32,
    ensures
        res.m == Q,
        coeffs(res) == message_of_bytes(bytes@),
{
    let mut msg_vector: Vector<N> = empty_vector();
    let mut i: usize = 0;
    while i < 32
        invariant
            0 <= i <= 32,
            bytes@.len() == 32,
            msg_vector.m == Q,
            forall|p: int| 0 <= p < 8 * i ==> #[trigger] msg_vector.c[p] == bit_at(bytes@, p),
        decreases 32 - i,
    {
        let byte = bytes[i];
        let mut j: usize = 0;
        while j < 8
            invariant
                0 <= i < 32,
                0 <= j <= 8,
                bytes@.len() == 32,
                byte == bytes@[i as int],
                msg_vector.m == Q,
                forall|p: int| 0 <= p < 8 * i + j ==> #[trigger] msg_vector.c[p] == bit_at(bytes@, p),
            decreases 8 - j,
        {
            proof {
                assert((8 * i + j) / 8 == i);
                assert((8 * i + j) % 8 == j);
            }
            msg_vector.c[i * 8 + j] = ((byte >> (j as u8)) & 1) as i32;
            j += 1;
        }
        i += 1;
    }
    assert(coeffs(msg_vector) =~= message_of_bytes(bytes@));
    msg_vector
}

/// The message polynomial of chunk `k` of a text, as integers of 32 bits.
pub open spec fn chunk_msg(bytes: Seq<u8>, k: int) -> Seq<i32> {
    Seq::new(256, |p: int| chunk_poly(bytes, k)[p] as i32)
}

/// `c` is an encryption of chunk `k` of the text under the public key, with some 32
/// coins.
pub open spec fn encrypts_chunk(c: EncryptedMessage, pk: PublicKey, bytes: Seq<u8>, k: int) -> bool {
    exists|coins: Seq<u8>| coins.len() == 32 && #[trigger] is_encryption(c, pk.A, pk.t, chunk_msg(bytes, k), coins)
}

/// Encrypts a text chunk by chunk: each 32-byte chunk (256 bits, the last one padded
/// with zero bits) is a message polynomial, encrypted under the public key with
/// fresh random coins.
#[allow(non_snake_case)]
pub fn encrypt_string(input: &str, pk: &PublicKey) -> (res: Vec<EncryptedMessage>)
    requires
        cols_reduced(pk.A),
        all_reduced(pk.t),
    ensures
        res@.len() == chunk_count(input.spec_bytes().len()),
        forall|k: int| 0 <= k < res@.len() ==> ciphertext_in_range(#[trigger] res@[k]),
        forall|k: int| 0 <= k < res@.len() ==> encrypts_chunk(#[trigger] res@[k], *pk, input.spec_bytes(), k),
{
    let input_chunks = string_to_vectors(input);
    let mut encrypted_chunks: Vec<EncryptedMessage> = Vec::new();
    let mut k: usize = 0;
    while k < input_chunks.len()
        invariant
            0 <= k <= input_chunks@.len(),
            cols_reduced(pk.A),
            all_reduced(pk.t),
            input_chunks@.len() == chunk_count(input.spec_bytes().len()),
            forall|x: int| 0 <= x < input_chunks@.len() ==> coeffs(#[trigger] input_chunks@[x]) == chunk_poly(
                input.spec_bytes(),
                x,
            ),
            encrypted_chunks@.len() == k,
            forall|x: int| 0 <= x < k ==> ciphertext_in_range(#[trigger] encrypted_chunks@[x]),
            forall|x: int| 0 <= x < k ==> encrypts_chunk(#[trigger] encrypted_chunks@[x], *pk, input.spec_bytes(), x),
        decreases input_chunks@.len() - k,
    {
        let chunk = input_chunks[k];
        let r = generate_seed_vector();
        let c = encrypt(pk.A, pk.t, chunk, r);
        proof {
            assert(chunk.c@ =~= chunk_msg(input.spec_bytes(), k as int)) by {
                assert forall|p: int| 0 <= p < 256 implies #[trigger] chunk.c@[p] == chunk_msg(
                    input.spec_bytes(),
                    k as int,
                )[p] by {
                    assert(coeffs(chunk)[p] == chunk_poly(input.spec_bytes(), k as int)[p]);
                }
            }
            assert(is_encryption(c, pk.A, pk.t, chunk_msg(input.spec_bytes(), k as int), r@));
            assert(encrypts_chunk(c, *pk, input.spec_bytes(), k as int));
        }
        encrypted_chunks.push(c);
        k += 1;
    }
    encrypted_chunks
}

/// The coefficients of the messages that the chunks decrypt to, in order.
pub open spec fn decrypted_chunks(chunks: Seq<EncryptedMessage>, s: PolyVector<K>) -> Seq<Seq<i32>> {
    Seq::new(chunks.len(), |k: int| decrypt_spec(chunks[k], s))
}

/// Decrypts the chunks of a text with the private key and reads the text back from
/// the message polynomials (see `vectors_to_string`).
pub fn decrypt_string(encrypted_chunks: &mut Vec<EncryptedMessage>, sk: &PrivateKey) -> (res: String)
    requires
        forall|k: int| 0 <= k < old(encrypted_chunks)@.len() ==> ciphertext_in_range(
            #[trigger] old(encrypted_chunks)@[k],
        ),
        all_reduced(sk.s),
    ensures
        final(encrypted_chunks)@ == old(encrypted_chunks)@,
        res@ == text_of_bytes(
            decoded_bytes(decrypted_chunks(old(encrypted_chunks)@, sk.s)),
            "Invalid UTF-8"@,
        ),
{
    let mut decrypted: Vec<Vector<N>> = Vec::new();
    let mut k: usize = 0;
    while k < encrypted_chunks.len()
        invariant
            0 <= k <= encrypted_chunks@.len(),
            encrypted_chunks@ == old(encrypted_chunks)@,
            forall|x: int| 0 <= x < encrypted_chunks@.len() ==> ciphertext_in_range(#[trigger] encrypted_chunks@[x]),
            all_reduced(sk.s),
            decrypted@.len() == k,
            forall|x: int| 0 <= x < k ==> (#[trigger] decrypted@[x]).c@ == decrypt_spec(encrypted_chunks@[x], sk.s),
        decreases encrypted_chunks@.len() - k,
    {
        let decrypted_chunk = decrypt(&encrypted_chunks[k], sk.s);
        decrypted.push(decrypted_chunk);
        k += 1;
    }
    proof {
        assert(crate::format_utils::vectors_coeffs(decrypted@) =~= decrypted_chunks(encrypted_chunks@, sk.s));
    }
    vectors_to_string(decrypted)
}

} // verus!
