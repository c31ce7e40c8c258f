use kibeurre::format_utils::{kat_value_check, parse_kat_line, parse_kat_lines, try_parse_kat_field};
use kibeurre::kem::message_from_bytes;
use kibeurre::format_utils::{
    parse_AES_CTR_DRBG_seed, parse_cyphertext, parse_pk_hash, parse_polyvector_bytes,
    parse_public_key, parse_secret_key, parse_shared_secret, parse_z, string_to_vectors,
    vectors_to_string,
};
use kibeurre::format_utils::{KyberTestCase, parse_kat_field, parse_usize};
use kibeurre::math_utils::{PolyVector, Vector, empty_polyvector, empty_vector};
use kibeurre::parameters::Q;

fn hex(bytes: &[u8]) -> String {
    bytes.iter().map(|b| format!("{:02x}", b)).collect()
}

#[test]
fn string_roundtrip() {
    for text in ["", "a", "hello", "exactly thirty-two bytes long!!!", "é à ü — 漢字 and more than thirty two bytes"] {
        let vs = string_to_vectors(text);
        assert_eq!(vs.len(), (text.len() + 31) / 32);
        assert_eq!(vectors_to_string(vs), text);
    }
}

#[test]
fn string_bits_are_lsb_first() {
    let vs = string_to_vectors("A");
    // 'A' = 0x41 = 0b0100_0001
    assert_eq!(&vs[0].c[..8], &[1, 0, 0, 0, 0, 0, 1, 0]);
    assert!(vs[0].c[8..].iter().all(|&x| x == 0));
}

#[test]
fn zero_byte_ends_a_chunk() {
    let vs = string_to_vectors("ab\0cd");
    assert_eq!(vectors_to_string(vs), "ab");
}

#[test]
fn invalid_utf8_is_reported() {
    let mut c = [0i32; 256];
    // 0xff is never valid UTF-8
    for j in 0..8 {
        c[j] = 1;
    }
    assert_eq!(vectors_to_string(vec![Vector::new(&c, Q)]), "Invalid UTF-8");
}

#[test]
fn polyvector_bytes_roundtrip_with_encode() {
    let mut pv = PolyVector::new(&[Vector::new(&[0; 256], Q); 3], Q);
    for i in 0..3 {
        for j in 0..256 {
            pv.c[i].c[j] = ((i * 1000 + j * 7) % 3329) as i32;
        }
    }
    let bytes = pv.encode(12);
    assert_eq!(bytes.len(), 1152);
    let back = parse_polyvector_bytes(&bytes);
    for i in 0..3 {
        assert_eq!(back.c[i].c, pv.c[i].c);
    }
}

#[test]
fn partial_polyvector_bytes_leave_zeros() {
    let bytes = [0xffu8, 0x0f, 0x01, 0x23, 0x45, 0x67];
    let pv = parse_polyvector_bytes(&bytes);
    // no complete polynomial: everything stays 0
    assert!(pv.c.iter().all(|p| p.c.iter().all(|&x| x == 0)));
}

#[test]
fn public_key_and_secret_key_fields() {
    let mut pv = PolyVector::new(&[Vector::new(&[0; 256], Q); 3], Q);
    for i in 0..3 {
        for j in 0..256 {
            pv.c[i].c[j] = ((i * 31 + j * 11) % 3329) as i32;
        }
    }
    let t_hex = hex(&pv.encode(12));
    let rho: Vec<u8> = (0..32).collect();
    let pk_text = format!("  {}{}\n", t_hex, hex(&rho));
    let (seed, t) = parse_public_key(&pk_text);
    assert_eq!(seed, rho);
    assert_eq!(t.c[2].c, pv.c[2].c);

    let h: Vec<u8> = (50..82).collect();
    let z: Vec<u8> = (200..232).collect();
    let sk_text = format!("{}{}{}{}{}", t_hex, t_hex, hex(&rho), hex(&h), hex(&z));
    assert_eq!(parse_secret_key(&sk_text).c[1].c, pv.c[1].c);
    assert_eq!(parse_pk_hash(&sk_text), h);
    assert_eq!(parse_z(&sk_text), z);
}

#[test]
fn ciphertext_fields() {
    let mut u = PolyVector::new(&[Vector::new(&[0; 256], Q); 3], Q);
    for i in 0..3 {
        for j in 0..256 {
            u.c[i].c[j] = ((i * 100 + j * 3) % 1024) as i32;
        }
    }
    let mut v = Vector::new(&[0; 256], Q);
    for j in 0..256 {
        v.c[j] = (j % 16) as i32;
    }
    let text = format!("{}{}", hex(&u.encode(10)), hex(&v.encode(4)));
    let (pu, pv) = parse_cyphertext(&text);
    for i in 0..3 {
        assert_eq!(pu.c[i].c, u.c[i].c);
    }
    assert_eq!(pv.c, v.c);
}

#[test]
fn hex_fields() {
    assert_eq!(parse_shared_secret("00ff10Ab"), vec![0x00, 0xff, 0x10, 0xab]);
    assert_eq!(parse_AES_CTR_DRBG_seed("0102"), vec![1, 2]);
}

#[test]
fn test_vector_fields_fill_a_case() {
    let mut case = KyberTestCase {
        count: 0,
        rho: Vec::new(),
        rng_seed: Vec::new(),
        t: empty_polyvector(),
        sk: empty_polyvector(),
        pk_hash: Vec::new(),
        z: Vec::new(),
        ct: (empty_polyvector(), empty_vector()),
        ss: Vec::new(),
    };
    assert!(!parse_kat_field(&mut case, "count", "42"));
    assert_eq!(case.count, 42);
    assert!(!parse_kat_field(&mut case, "count", "x"));
    assert_eq!(case.count, 0);
    assert!(!parse_kat_field(&mut case, "seed", "0a0b"));
    assert_eq!(case.rng_seed, vec![10, 11]);
    assert!(!parse_kat_field(&mut case, "other", "zz"));
    assert!(parse_kat_field(&mut case, "ss", "ff"));
    assert_eq!(case.ss, vec![255]);
    assert_eq!(parse_usize("+17"), Some(17));
    assert_eq!(parse_usize("-1"), None);
    assert_eq!(parse_usize(""), None);
    assert_eq!(parse_usize("99999999999999999999999"), None);
}

#[test]
fn kat_lines_split_into_trimmed_fields() {
    assert_eq!(parse_kat_line("  count = 7  "), Some(("count".to_string(), "7".to_string())));
    assert_eq!(parse_kat_line("ss=ab=cd"), Some(("ss".to_string(), "ab=cd".to_string())));
    assert_eq!(parse_kat_line("# kyber768"), None);
    assert_eq!(parse_kat_line("   "), None);
    assert_eq!(parse_kat_line("no separator"), None);
}

#[test]
fn malformed_fields_are_refused_and_leave_the_case() {
    let mut case = KyberTestCase {
        count: 3,
        rho: Vec::new(),
        rng_seed: Vec::new(),
        t: empty_polyvector(),
        sk: empty_polyvector(),
        pk_hash: Vec::new(),
        z: Vec::new(),
        ct: (empty_polyvector(), empty_vector()),
        ss: Vec::new(),
    };
    assert!(!kat_value_check("ss", "abc"));
    assert!(!kat_value_check("seed", "zz"));
    assert!(kat_value_check("count", "anything"));
    assert_eq!(try_parse_kat_field(&mut case, "ss", "0g"), None);
    assert!(case.ss.is_empty());
    assert_eq!(try_parse_kat_field(&mut case, "ss", "0aff"), Some(true));
    assert_eq!(case.ss, vec![0x0a, 0xff]);
    assert_eq!(try_parse_kat_field(&mut case, "count", " 12 "), Some(false));
}

#[test]
fn kat_lines_gather_the_cases() {
    let lines: Vec<String> = vec![
        "# ML-KEM-768".to_string(),
        "".to_string(),
        "count = 0".to_string(),
        "seed = 0a0b".to_string(),
        "ss = ff00".to_string(),
        "count = 1".to_string(),
        "ss = 01".to_string(),
        "count = 2".to_string(),
    ];
    let cases = parse_kat_lines(&lines).unwrap();
    assert_eq!(cases.len(), 2);
    assert_eq!(cases[0].count, 0);
    assert_eq!(cases[0].rng_seed, vec![0x0a, 0x0b]);
    assert_eq!(cases[0].ss, vec![0xff, 0x00]);
    assert_eq!(cases[1].count, 1);
    assert_eq!(cases[1].rng_seed, vec![0x0a, 0x0b]);
    assert_eq!(cases[1].ss, vec![0x01]);
    let bad: Vec<String> = vec!["count = 0".to_string(), "ss = 0g".to_string()];
    assert!(parse_kat_lines(&bad).is_none());
}

#[test]
fn message_polynomial_of_bytes() {
    let mut bytes = vec![0u8; 32];
    bytes[0] = 0b1000_0101;
    bytes[31] = 0x80;
    let m = message_from_bytes(&bytes);
    assert_eq!(&m.c[..8], &[1, 0, 1, 0, 0, 0, 0, 1]);
    assert_eq!(m.c[255], 1);
    assert_eq!(m.c.iter().sum::<i32>(), 4);
    assert_eq!(m.encode(1), bytes);
}
