use kibeurre::kem::{
    KDF, PrivateKey, PublicKey, decapsulate, decrypt_string, derive_coins, encapsulate,
    encrypt_string, generate_A_from_seed, generate_d_and_z, generate_key_pair,
    generate_message_from_seed, generate_rho_and_sigma, generate_seed_vector, hash_public_key,
};
use kibeurre::kyber::{
    EncryptedMessage, PRF, compress, compute_t, decompress, decrypt, encrypt, generate_noise_polyvector,
    generate_noise_vector,
};
use kibeurre::math_utils::{PolyVector, Vector};
use kibeurre::ntt;
use kibeurre::parameters::{D_U, D_V, ETA_1, ETA_2, K, Q};
use nist_pqc_seeded_rng::{NistPqcAes256CtrRng, SeedableRng};
use shake::{ExtendableOutput, Update, XofReader};
use sha3::Digest;

fn key_material(seed: u8) -> (PublicKey, PrivateKey) {
    let mut rng = NistPqcAes256CtrRng::from_seed([seed; 48].into());
    let (d, z) = generate_d_and_z(&mut rng);
    let (rho, sigma) = generate_rho_and_sigma(d);
    #[allow(non_snake_case)]
    let A = generate_A_from_seed(&rho);
    let mut nonce = 0;
    let mut s: PolyVector<K>;
    (s, nonce) = generate_noise_polyvector(ETA_1, nonce, &sigma);
    s.c = s.c.map(ntt::ntt);
    let e: PolyVector<K>;
    (e, _) = generate_noise_polyvector(ETA_1, nonce, &sigma);
    let t = compute_t(A, s, e);
    let pk = PublicKey { A, t, rho: rho.clone() };
    let hashed_pk = hash_public_key(&pk);
    let sk = PrivateKey { s, pk: PublicKey { A, t, rho }, hashed_pk, z };
    (pk, sk)
}

#[test]
fn test_generate_seed_vector() {
    let seed_vector = generate_seed_vector();
    println!("Seed vector: {:?}", seed_vector);
    assert_eq!(seed_vector.len(), 32);
}

#[test]
#[allow(non_snake_case)]
fn test_generate_A_from_seed() {
    let seed_vector = generate_seed_vector();
    let A = generate_A_from_seed(&seed_vector);
    println!("A: {:?}", A);
}

#[test]
fn test_compute_t() {
    let mut nonce = 0;
    let sigma = Vec::new();
    let seed_vector = generate_seed_vector();
    #[allow(non_snake_case)]
    let A = generate_A_from_seed(&seed_vector);
    let s: PolyVector<K>;
    (s, nonce) = generate_noise_polyvector(ETA_1, nonce, &sigma);
    let e: PolyVector<K>;
    (e, _) = generate_noise_polyvector(ETA_2, nonce, &sigma);
    let t = compute_t(A, s, e);
    println!("t: {:?}", t);
}

#[test]
fn test_compress_decompress() {
    let noise_vector = generate_noise_vector(ETA_1, 0, &(0..32).collect()).0;
    let compressed = compress(noise_vector, D_U);
    let decompressed = decompress(compressed, D_U);
    println!("Original: {:?}", noise_vector);
    println!("Compressed: {:?}", compressed);
    println!("Decompressed: {:?}", decompressed);
}

#[test]
fn test_encrypt_decrypt() {
    #[allow(non_snake_case)]
    let mut rng = NistPqcAes256CtrRng::from_seed([3u8; 48].into());
    let d = generate_d_and_z(&mut rng).0;
    let (rho, sigma) = generate_rho_and_sigma(d);
    #[allow(non_snake_case)]
    let A = generate_A_from_seed(&rho); // generated in ntt form

    let mut nonce = 0;
    let mut s: PolyVector<K>;
    (s, nonce) = generate_noise_polyvector(ETA_1, nonce, &sigma);
    s.c = s.c.map(ntt::ntt);
    let e: PolyVector<K>;
    (e, nonce) = generate_noise_polyvector(ETA_1, nonce, &sigma);
    let _ = nonce;

    let t = compute_t(A, s, e);

    let hashed_pk = hash_public_key(&PublicKey { A, t, rho });

    let msg = Vector::new(&[1; 256], Q);

    let (_kb, r) = derive_coins(msg.encode(1), hashed_pk);

    let encrypted_message = encrypt(A, t, msg, r);

    let decrypted_msg = decrypt(&encrypted_message, s);

    assert_eq!(msg.c, decrypted_msg.c, "decryption failed");
}

#[test]
fn compress_decompress_error_is_small() {
    // Decompress(Compress(x)) is within round(q / 2^(d+1)) of x, modulo q
    for d in [D_U, D_V] {
        let bound = (3329 + (1 << d)) / (1 << (d + 1));
        assert_eq!(bound, if d == D_V { 104 } else { 2 });
        let mut coefficients = [0i32; 256];
        for (i, c) in coefficients.iter_mut().enumerate() {
            *c = (i as i32 * 13) % 3329;
        }
        coefficients[255] = 3328;
        coefficients[254] = 3225;
        let v = Vector::new(&coefficients, Q);
        let back = decompress(compress(v, d), d);
        for i in 0..256 {
            let diff = (back.c[i] - coefficients[i]).rem_euclid(3329);
            let dist = diff.min(3329 - diff);
            assert!(dist <= bound, "d = {d}, x = {}, back = {}", coefficients[i], back.c[i]);
        }
    }
}

#[test]
fn compress_exact_values() {
    let mut c = [0i32; 256];
    c[0] = 0;
    c[1] = 1664;
    c[2] = 1665;
    c[3] = 3328;
    c[4] = 833;
    let v = Vector::new(&c, Q);
    let r = compress(v, 1);
    assert_eq!(&r.c[..5], &[0, 1, 1, 0, 1]);
    let r4 = compress(v, 4);
    // round(1664 * 16 / 3329) = 8, round(3328 * 16 / 3329) = 16 mod 16 = 0
    assert_eq!(&r4.c[..4], &[0, 8, 8, 0]);
    let d4 = decompress(Vector::new(&[8; 256], Q), 4);
    // round(8 * 3329 / 16) = 1665 (rounding half up)
    assert_eq!(d4.c[0], 1665);
}

#[test]
fn noise_is_small_and_deterministic() {
    let seed: Vec<u8> = (0..32).collect();
    let (a, next) = generate_noise_vector(ETA_2, 5, &seed);
    let (b, _) = generate_noise_vector(ETA_2, 5, &seed);
    assert_eq!(next, 6);
    assert_eq!(a.c, b.c);
    for x in a.c {
        assert!(x <= 2 || x >= 3327, "coefficient {x} is not in [-2, 2] mod q");
    }
    let (pv, next) = generate_noise_polyvector(ETA_1, 0, &seed);
    assert_eq!(next, 3);
    assert_eq!(pv.c[1].c, generate_noise_vector(ETA_1, 1, &seed).0.c);
}

fn shake256_ref(data: &[u8], len: usize) -> Vec<u8> {
    let mut h = shake::Shake256::default();
    h.update(data);
    let mut r = h.finalize_xof();
    let mut out = vec![0u8; len];
    r.read(&mut out);
    out
}

fn shake128_ref(data: &[u8], len: usize) -> Vec<u8> {
    let mut h = shake::Shake128::default();
    h.update(data);
    let mut r = h.finalize_xof();
    let mut out = vec![0u8; len];
    r.read(&mut out);
    out
}

#[test]
fn prf_is_shake256_of_seed_and_nonce() {
    let seed: Vec<u8> = vec![7; 32];
    let out = PRF(&seed, 4, 128);
    let mut data = seed.clone();
    data.push(4);
    assert_eq!(out, shake256_ref(&data, 128));
    // SHAKE256 of the empty string, first 32 bytes
    let empty = PRF(&Vec::new(), 0, 32);
    assert_ne!(empty, vec![0u8; 32]);
}

#[test]
fn kdf_known_answer() {
    // SHAKE256("") starts with 46b9dd2b...
    let k = KDF(Vec::new(), Vec::new());
    assert_eq!(
        k,
        vec![
            0x46, 0xb9, 0xdd, 0x2b, 0x0b, 0xa8, 0x8d, 0x13, 0x23, 0x3b, 0x3f, 0xeb, 0x74, 0x3e, 0xeb,
            0x24, 0x3f, 0xcd, 0x52, 0xea, 0x62, 0xb8, 0x1b, 0x82, 0xb5, 0x0c, 0x27, 0x64, 0x6e, 0xd5,
            0x76, 0x2f
        ]
    );
    let k2 = KDF(vec![1, 2], vec![3]);
    assert_eq!(k2, shake256_ref(&[1, 2, 3], 32));
}

#[test]
fn rho_and_sigma_known_answer() {
    // SHA3-512("") = a69f73cc a23a9ac5 ... 281dcd26
    let (rho, sigma) = generate_rho_and_sigma(Vec::new());
    assert_eq!(rho.len(), 32);
    assert_eq!(sigma.len(), 32);
    assert_eq!(&rho[..4], &[0xa6, 0x9f, 0x73, 0xcc]);
    assert_eq!(&sigma[28..], &[0x28, 0x1d, 0xcd, 0x26]);
    let (kb, r) = derive_coins(vec![1], vec![2]);
    let (kb2, r2) = generate_rho_and_sigma(vec![1, 2]);
    assert_eq!((kb, r), (kb2, r2));
}

#[test]
fn hash_public_key_is_sha3_256() {
    let (pk, _) = key_material(9);
    let h = hash_public_key(&pk);
    assert_eq!(h.len(), 32);
    let mut bytes = pk.t.encode(12);
    bytes.extend_from_slice(&pk.rho);
    assert_eq!(h, sha3::Sha3_256::digest(&bytes).to_vec());
}

#[test]
fn matrix_is_sampled_from_shake128() {
    let seed: Vec<u8> = (100..132).collect();
    #[allow(non_snake_case)]
    let A = generate_A_from_seed(&seed);
    // entry (row 1, column 2) of A comes from SHAKE128(seed || 2 || 1)
    let mut data = seed.clone();
    data.push(2);
    data.push(1);
    let stream = shake128_ref(&data, 1680);
    let mut expected = Vec::new();
    for block in stream.chunks(3) {
        let c1 = block[0] as i32 + 256 * (block[1] as i32 % 16);
        let c2 = block[1] as i32 / 16 + 16 * block[2] as i32;
        if c1 < 3329 && expected.len() < 256 {
            expected.push(c1);
        }
        if c2 < 3329 && expected.len() < 256 {
            expected.push(c2);
        }
    }
    assert_eq!(expected.len(), 256);
    assert_eq!(A.row_vecs[1].c[2].c.to_vec(), expected);
    assert_eq!(A.col_vecs[2].c[1].c.to_vec(), expected);
    let again = generate_A_from_seed(&seed);
    assert_eq!(again.row_vecs[0].c[0].c, A.row_vecs[0].c[0].c);
}

#[test]
fn encapsulate_then_decapsulate_agree() {
    let (pk, sk) = key_material(1);
    let mut rng = NistPqcAes256CtrRng::from_seed([5u8; 48].into());
    let (msg, bytes) = generate_message_from_seed(&mut rng);
    assert_eq!(msg.encode(1), bytes);
    let (c, key) = encapsulate(&pk, msg);
    assert_eq!(key.len(), 32);
    let key2 = decapsulate(c.clone(), sk.clone());
    assert_eq!(key, key2);
}

#[test]
fn decapsulate_rejects_a_modified_ciphertext() {
    let (pk, sk) = key_material(2);
    let msg = Vector::new(&[0; 256], Q);
    let (c, key) = encapsulate(&pk, msg);
    let mut bad: EncryptedMessage = c.clone();
    bad.v.c[0] = (bad.v.c[0] + 1) % 16;
    let rejected = decapsulate(bad.clone(), sk.clone());
    assert_ne!(rejected, key);
    // implicit rejection: KDF(z, H(c))
    let mut bytes = bad.u.encode(D_U as usize);
    bytes.extend_from_slice(&bad.v.encode(D_V as usize));
    let hc = sha3::Sha3_256::digest(&bytes).to_vec();
    assert_eq!(rejected, KDF(sk.z.clone(), hc));
}

#[test]
fn key_pair_is_consistent() {
    let sigma: Vec<u8> = vec![11; 32];
    let (pk, sk) = generate_key_pair(&sigma);
    assert_eq!(pk.rho.len(), 32);
    assert_eq!(sk.pk.rho, pk.rho);
    assert!(sk.hashed_pk.is_empty());
    let msg = Vector::new(&[1; 256], Q);
    let c = encrypt(pk.A, pk.t, msg, vec![4; 32]);
    assert_eq!(decrypt(&c, sk.s).c, msg.c);
    let again = PublicKey::new(pk.rho.clone(), pk.t);
    assert_eq!(again.A.row_vecs[2].c[1].c, pk.A.row_vecs[2].c[1].c);
}

#[test]
fn strings_survive_encryption() {
    let (pk, sk) = key_material(4);
    let text = "Kyber chiffre cette phrase, qui fait plus de trente-deux octets !";
    let mut chunks = encrypt_string(text, &pk);
    assert_eq!(chunks.len(), 3);
    let back = decrypt_string(&mut chunks, &sk);
    assert_eq!(back, text);
    assert_eq!(chunks.len(), 3);
}

#[test]
fn d_and_z_come_from_the_generator() {
    let mut rng = NistPqcAes256CtrRng::from_seed([3u8; 48].into());
    let (d, z) = generate_d_and_z(&mut rng);
    let mut rng2 = NistPqcAes256CtrRng::from_seed([3u8; 48].into());
    let (d2, z2) = generate_d_and_z(&mut rng2);
    assert_eq!(d, d2);
    assert_eq!(z, z2);
    assert_ne!(d, z);
    assert_eq!(d.len(), 32);
}

#[test]
fn compression_laws_hold_for_every_width() {
    for d in 1..=11 {
        let mut y = [0i32; 256];
        for (i, c) in y.iter_mut().enumerate() {
            *c = (i as i32 * 37 + 5) % (1 << d);
        }
        let back = compress(decompress(Vector::new(&y, Q), d), d);
        assert_eq!(back.c, y, "d = {d}");
        let bound = (3329 + (1 << d)) / (1 << (d + 1));
        let mut x = [0i32; 256];
        for (i, c) in x.iter_mut().enumerate() {
            *c = (i as i32 * 13 + 3300) % 3329;
        }
        let r = decompress(compress(Vector::new(&x, Q), d), d);
        for i in 0..256 {
            assert!((0..3329).contains(&r.c[i]));
            let diff = (r.c[i] - x[i]).rem_euclid(3329);
            assert!(diff.min(3329 - diff) <= bound, "d = {d}, x = {}", x[i]);
        }
    }
}
