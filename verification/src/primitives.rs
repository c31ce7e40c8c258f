//! The calls into outside crates and into parts of std that vstd does not
//! specify. Each item here is trusted: its contract is taken as given, and its doc
//! comment says what the contract claims of the code it calls.
use vstd::prelude::*;
use vstd::utf8::{valid_utf8, decode_utf8};

verus! {

/// The deterministic random bit generator of the NIST PQC known answer tests
/// (AES-256 in counter mode); its state is opaque here.
#[verifier::external_type_specification]
#[verifier::external_body]
pub struct ExNistPqcAes256CtrRng(nist_pqc_seeded_rng::NistPqcAes256CtrRng);

/// The error `hex::decode` returns on malformed input.
#[verifier::external_type_specification]
#[verifier::external_body]
pub struct ExFromHexError(hex::FromHexError);

/// The first `len` bytes of the SHAKE128 extendable output of `data`.
pub uninterp spec fn shake128_bytes(data: Seq<u8>, len: nat) -> Seq<u8>;

/// The first `len` bytes of the SHAKE256 extendable output of `data`.
pub uninterp spec fn shake256_bytes(data: Seq<u8>, len: nat) -> Seq<u8>;

/// The SHA3-256 digest of `data`.
pub uninterp spec fn sha3_256_bytes(data: Seq<u8>) -> Seq<u8>;

/// The SHA3-512 digest of `data`.
pub uninterp spec fn sha3_512_bytes(data: Seq<u8>) -> Seq<u8>;

/// Calls `shake::Shake128`: absorbs `data`, then reads `out_len` bytes from the
/// extendable output. Claimed: the bytes are the name `shake128_bytes` of the input
/// and the length, and there are `out_len` of them (`XofReader::read` fills the buffer).
#[verifier::external_body]
pub(crate) fn shake128(data: &[u8], out_len: usize) -> (out: Vec<u8>)
    ensures
        out@ == shake128_bytes(data@, out_len as nat),
        out@.len() == out_len,
{
    let mut hasher = shake::Shake128::default();
    shake::Update::update(&mut hasher, data);
    let mut reader = shake::ExtendableOutput::finalize_xof(hasher);
    let mut out = vec![0u8; out_len];
    shake::XofReader::read(&mut reader, &mut out);
    out
}

/// Calls `shake::Shake256`: absorbs `data`, then reads `out_len` bytes from the
/// extendable output. Claimed: the bytes are the name `shake256_bytes` of the input
/// and the length, and there are `out_len` of them.
#[verifier::external_body]
pub(crate) fn shake256(data: &[u8], out_len: usize) -> (out: Vec<u8>)
    ensures
        out@ == shake256_bytes(data@, out_len as nat),
        out@.len() == out_len,
{
    let mut hasher = shake::Shake256::default();
    shake::Update::update(&mut hasher, data);
    let mut reader = shake::ExtendableOutput::finalize_xof(hasher);
    let mut out = vec![0u8; out_len];
    shake::XofReader::read(&mut reader, &mut out);
    out
}

/// Calls `sha3::Sha3_256::digest`. Claimed: the digest is the name `sha3_256_bytes`
/// of the input, 32 bytes long.
#[verifier::external_body]
pub(crate) fn sha3_256(data: &[u8]) -> (out: Vec<u8>)
    ensures
        out@ == sha3_256_bytes(data@),
        out@.len() == 32,
{
    <sha3::Sha3_256 as sha3::Digest>::digest(data).to_vec()
}

/// Calls `sha3::Sha3_512::digest`. Claimed: the digest is the name `sha3_512_bytes`
/// of the input, 64 bytes long.
#[verifier::external_body]
pub(crate) fn sha3_512(data: &[u8]) -> (out: Vec<u8>)
    ensures
        out@ == sha3_512_bytes(data@),
        out@.len() == 64,
{
    <sha3::Sha3_512 as sha3::Digest>::digest(data).to_vec()
}

/// Calls `rand::random::<u8>()`. Nothing is claimed of the byte: it comes from the
/// thread's random generator.
#[verifier::external_body]
pub(crate) fn random_u8() -> u8 {
    rand::random::<u8>()
}

/// Calls `fill_bytes` of the generator on a 32-byte buffer. Nothing is claimed of
/// the bytes: they depend on the generator's hidden state, which the call advances.
#[verifier::external_body]
pub(crate) fn rng_fill_32(rng: &mut nist_pqc_seeded_rng::NistPqcAes256CtrRng) -> [u8; 32] {
    let mut buf = [0u8; 32];
    nist_pqc_seeded_rng::Rng::fill_bytes(rng, &mut buf);
    buf
}

/// Value of an ASCII hexadecimal digit (either case), if `c` is one.
pub open spec fn hex_digit(c: u8) -> Option<int> {
    if 48 <= c <= 57 {
        Some(c - 48)
    } else if 65 <= c <= 70 {
        Some(c - 55)
    } else if 97 <= c <= 102 {
        Some(c - 87)
    } else {
        None
    }
}

/// The text has an even number of characters, all hexadecimal digits.
pub open spec fn hex_valid(s: Seq<u8>) -> bool {
    &&& s.len() % 2 == 0
    &&& forall|i: int| 0 <= i < s.len() ==> (#[trigger] hex_digit(s[i])) is Some
}

/// The bytes that pairs of hexadecimal digits denote, high digit first.
pub open spec fn hex_bytes(s: Seq<u8>) -> Seq<u8> {
    Seq::new(
        s.len() / 2,
        |i: int| (hex_digit(s[2 * i])->0 * 16 + hex_digit(s[2 * i + 1])->0) as u8,
    )
}

/// Calls `hex::decode`. Claimed, as its source shows: it succeeds exactly on an even
/// number of hexadecimal digits of either case, and then gives the byte of each pair
/// of digits, high digit first.
#[verifier::external_body]
pub(crate) fn hex_decode(data: &[u8]) -> (res: Result<Vec<u8>, hex::FromHexError>)
    ensures
        res is Ok <==> hex_valid(data@),
        res matches Ok(v) ==> v@ == hex_bytes(data@),
{
    hex::decode(data)
}

/// Calls `String::from_utf8`. Claimed, as std documents it: it succeeds exactly on
/// valid UTF-8, and the string then holds the characters the bytes encode.
#[verifier::external_body]
pub(crate) fn string_from_utf8(bytes: Vec<u8>) -> (res: Option<String>)
    ensures
        res is Some <==> valid_utf8(bytes@),
        res matches Some(s) ==> s@ == decode_utf8(bytes@),
{
    match String::from_utf8(bytes) {
        Ok(s) => Some(s),
        Err(_) => None,
    }
}

/// Whitespace as `str::trim` removes it: the characters of Unicode's `White_Space`
/// property (tab to carriage return, space, next line, no-break space, ogham space mark,
/// the spaces U+2000 to U+200A, line and paragraph separators, narrow no-break space,
/// medium mathematical space and ideographic space).
pub open spec fn is_whitespace(c: char) -> bool {
    let x = c as u32;
    ||| 0x09 <= x <= 0x0D
    ||| x == 0x20
    ||| x == 0x85
    ||| x == 0xA0
    ||| x == 0x1680
    ||| 0x2000 <= x <= 0x200A
    ||| x == 0x2028
    ||| x == 0x2029
    ||| x == 0x202F
    ||| x == 0x205F
    ||| x == 0x3000
}

/// The characters without their leading whitespace.
pub open spec fn trim_start(s: Seq<char>) -> Seq<char>
    decreases s.len(),
{
    if s.len() > 0 && is_whitespace(s[0]) {
        trim_start(s.drop_first())
    } else {
        s
    }
}

/// The characters without their trailing whitespace.
pub open spec fn trim_end(s: Seq<char>) -> Seq<char>
    decreases s.len(),
{
    if s.len() > 0 && is_whitespace(s.last()) {
        trim_end(s.drop_last())
    } else {
        s
    }
}

/// The characters without leading and trailing whitespace, as `str::trim` gives them.
pub open spec fn trimmed(s: Seq<char>) -> Seq<char> {
    trim_end(trim_start(s))
}

#[verifier::external_body]
pub(crate) fn str_trim(s: &str) -> (res: &str)
    ensures
        res@ == trimmed(s@),
{
    s.trim()
}

/// Calls `String::push`. Claimed, as std documents it: the character is appended.
#[verifier::external_body]
pub(crate) fn string_push(s: &mut String, c: char)
    ensures
        final(s)@ == old(s)@.push(c),
{
    s.push(c)
}

/// Calls `String::pop`. Claimed, as std documents it: the last character is removed
/// and returned, and nothing happens to an empty string, which gives `None`.
#[verifier::external_body]
pub(crate) fn string_pop(s: &mut String) -> (r: Option<char>)
    ensures
        old(s)@.len() == 0 ==> r is None && final(s)@ == old(s)@,
        old(s)@.len() > 0 ==> r == Some(old(s)@.last()) && final(s)@ == old(s)@.drop_last(),
{
    s.pop()
}

} // verus!
