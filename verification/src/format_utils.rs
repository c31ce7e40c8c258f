//! Conversions between text and message polynomials (one bit per coefficient),
//! and the parsers of the hexadecimal fields of the ML-KEM known answer tests.
use vstd::prelude::*;
use vstd::string::StringSliceAdditionalSpecFns;
use vstd::utf8::{valid_utf8, decode_utf8, encode_utf8, encode_utf8_valid_utf8, encode_utf8_decode_utf8};
use crate::parameters::{N, K, Q};
use crate::math_utils::{Vector, PolyVector, coeffs, empty_vector, empty_polyvector};
use crate::kyber::bit_at;
use crate::encoding::{byte_encode, pv_encode, bits_value, encoded_bit, int_bit, lemma_bits_value_bound};
use vstd::arithmetic::power2::{pow2, lemma2_to64};
use vstd::bits::lemma_u16_shr_is_div;
use crate::primitives::{
    string_from_utf8, str_trim, trimmed, string_push, hex_decode, hex_valid, hex_bytes, hex_digit,
};

verus! {

/// Number of 32-byte chunks (the last one possibly shorter) of `len` bytes.
pub open spec fn chunk_count(len: nat) -> nat {
    (len + 31) / 32
}

/// The message polynomial of chunk `k` of a byte string: coefficient `8 i + j` is
/// bit `j` of byte `32 k + i`, and 0 past the end of the bytes.
pub open spec fn chunk_poly(bytes: Seq<u8>, k: int) -> Seq<int> {
    Seq::new(256, |p: int| if 32 * k + p / 8 < bytes.len() { bit_at(bytes, 256 * k + p) } else { 0 })
}

/// Splits a string into chunks of 32 bytes, each turned into a message polynomial
/// with one bit per coefficient (least significant bit of each byte first); the
/// last chunk is padded with zero bits.
pub fn string_to_vectors(input: &str) -> (res: Vec<Vector<N>>)
    ensures
        res@.len() == chunk_count(input.spec_bytes().len()),
        forall|k: int| 0 <= k < res@.len() ==> (#[trigger] res@[k]).m == Q,
        forall|k: int| 0 <= k < res@.len() ==> coeffs(#[trigger] res@[k]) == chunk_poly(input.spec_bytes(), k),
{
    let bytes = input.as_bytes();
    let ghost bs = input.spec_bytes();
    let len = bytes.len();
    let nchunks: usize = if len % 32 == 0 { len / 32 } else { len / 32 + 1 };
    let mut vectors: Vec<Vector<N>> = Vec::new();
    let mut k: usize = 0;
    while k < nchunks
        invariant
            bytes@ == bs,
            len == bs.len(),
            nchunks == chunk_count(len as nat),
            0 <= k <= nchunks,
            vectors@.len() == k,
            forall|x: int| 0 <= x < k ==> (#[trigger] vectors@[x]).m == Q,
            forall|x: int| 0 <= x < k ==> coeffs(#[trigger] vectors@[x]) == chunk_poly(bs, x),
        decreases nchunks - k,
    {
        let start = k * 32;
        // filled with zeros, they pad the last chunk
        let mut vector = empty_vector();
        let mut i: usize = 0;
        while i < 32 && i < len - start
            invariant
                bytes@ == bs,
                len == bs.len(),
                start == 32 * k,
                start < len,
                0 <= i <= 32,
                vector.m == Q,
                forall|p: int| 0 <= p < 8 * i ==> #[trigger] vector.c[p] == chunk_poly(bs, k as int)[p],
                forall|p: int| 8 * i <= p < 256 ==> #[trigger] vector.c[p] == 0,
            decreases 32 - i,
        {
            let byte = bytes[start + i];
            let mut j: usize = 0;
            while j < 8
                invariant
                    bytes@ == bs,
                    len == bs.len(),
                    start == 32 * k,
                    0 <= i < 32,
                    start + i < len,
                    0 <= j <= 8,
                    byte == bs[start + i],
                    vector.m == Q,
                    forall|p: int| 0 <= p < 8 * i + j ==> #[trigger] vector.c[p] == chunk_poly(bs, k as int)[p],
                    forall|p: int| 8 * i + j <= p < 256 ==> #[trigger] vector.c[p] == 0,
                decreases 8 - j,
            {
                let bit = (byte >> (j as u8)) & 1;
                proof {
                    let p = 8 * i + j;
                    assert(p / 8 == i);
                    assert((256 * k + p) / 8 == start + i);
                    assert((256 * k + p) % 8 == j);
                }
                vector.set(i * 8 + j, bit as i32);
                j += 1;
            }
            i += 1;
        }
        proof {
            assert forall|p: int| 0 <= p < 256 implies #[trigger] vector.c[p] == chunk_poly(bs, k as int)[p] by {
                if p >= 8 * i {
                    assert(32 * k + p / 8 >= len);
                }
            }
        }
        assert(coeffs(vector) =~= chunk_poly(bs, k as int));
        vectors.push(vector);
        k += 1;
    }
    vectors
}

/// Byte `i` as the decoder reads it from the coefficients `c`: the first `count`
/// coefficients `8 i + j`, each truncated to a byte and shifted left by `j`, OR'ed
/// together (zero ones are skipped).
pub open spec fn read_byte(c: Seq<i32>, i: int, count: int) -> u8
    decreases count,
{
    if count <= 0 {
        0
    } else {
        or_bit(read_byte(c, i, count - 1), c[8 * i + count - 1] as u8, (count - 1) as u8)
    }
}

/// `prev` with `bit << j` OR'ed in, unless `bit` is zero.
pub open spec fn or_bit(prev: u8, bit: u8, j: u8) -> u8 {
    if bit != 0 {
        prev | (bit << j)
    } else {
        prev
    }
}

/// Index of the first zero byte of `s` at or after `i`, or the length of `s`.
pub open spec fn first_zero(s: Seq<u8>, i: int) -> int
    decreases s.len() - i,
{
    if i >= s.len() {
        s.len() as int
    } else if s[i] == 0 {
        i
    } else {
        first_zero(s, i + 1)
    }
}

/// The 32 bytes a polynomial is read back into.
pub open spec fn vector_bytes(c: Seq<i32>) -> Seq<u8> {
    Seq::new(32, |i: int| read_byte(c, i, 8))
}

/// The bytes of a polynomial up to its first zero byte (a zero byte ends the text of
/// the chunk).
pub open spec fn chunk_text(c: Seq<i32>) -> Seq<u8> {
    vector_bytes(c).take(first_zero(vector_bytes(c), 0))
}

/// The bytes read back from a sequence of polynomials: the text of each chunk in turn.
pub open spec fn decoded_bytes(cs: Seq<Seq<i32>>) -> Seq<u8>
    decreases cs.len(),
{
    if cs.len() == 0 {
        Seq::empty()
    } else {
        decoded_bytes(cs.drop_last()) + chunk_text(cs.last())
    }
}

/// The coefficients of each polynomial of a sequence.
pub open spec fn vectors_coeffs(vs: Seq<Vector<N>>) -> Seq<Seq<i32>> {
    Seq::new(vs.len(), |k: int| vs[k].c@)
}

/// The text of the bytes: their characters if they are valid UTF-8, else the text
/// `"Invalid UTF-8"` (given as its characters).
pub open spec fn text_of_bytes(b: Seq<u8>, invalid: Seq<char>) -> Seq<char> {
    if valid_utf8(b) {
        decode_utf8(b)
    } else {
        invalid
    }
}

pub proof fn lemma_first_zero(s: Seq<u8>, i: int)
    requires
        0 <= i <= s.len(),
        forall|j: int| 0 <= j < i ==> #[trigger] s[j] != 0,
    ensures
        first_zero(s, 0) == first_zero(s, i),
    decreases i,
{
    if i > 0 {
        lemma_first_zero_step(s, 0, i);
    }
}

proof fn lemma_first_zero_step(s: Seq<u8>, a: int, i: int)
    requires
        0 <= a <= i <= s.len(),
        forall|j: int| 0 <= j < i ==> #[trigger] s[j] != 0,
    ensures
        first_zero(s, a) == first_zero(s, i),
    decreases i - a,
{
    if a < i {
        lemma_first_zero_step(s, a + 1, i);
    }
}

/// Reads back the text held by message polynomials: each gives 32 bytes (bit `j` of
/// byte `i` from coefficient `8 i + j`), a zero byte ends the chunk's text, and the
/// bytes are decoded as UTF-8 (`"Invalid UTF-8"` if they are not valid).
pub fn vectors_to_string(vectors: Vec<Vector<N>>) -> (res: String)
    ensures
        res@ == text_of_bytes(decoded_bytes(vectors_coeffs(vectors@)), "Invalid UTF-8"@),
{
    let mut bytes: Vec<u8> = Vec::new();
    let mut t: usize = 0;
    while t < vectors.len()
        invariant
            0 <= t <= vectors@.len(),
            bytes@ == decoded_bytes(vectors_coeffs(vectors@).subrange(0, t as int)),
        decreases vectors@.len() - t,
    {
        let vector = vectors[t];
        let ghost vb = vector_bytes(vector.c@);
        let ghost before = bytes@;
        let mut i: usize = 0;
        let mut done = false;
        while i < 32 && !done
            invariant
                0 <= i <= 32,
                vb == vector_bytes(vector.c@),
                forall|j: int| 0 <= j < i ==> #[trigger] vb[j] != 0,
                done ==> first_zero(vb, 0) == i,
                bytes@ == before + vb.take(i as int),
            decreases 32 - i + (if done { 0int } else { 1int }),
        {
            let mut byte: u8 = 0;
            let mut j: usize = 0;
            while j < 8
                invariant
                    0 <= i < 32,
                    0 <= j <= 8,
                    byte == read_byte(vector.c@, i as int, j as int),
                decreases 8 - j,
            {
                let bit = vector.get(i * 8 + j) as u8;
                if bit != 0 {
                    byte |= bit << (j as u8);
                }
                j += 1;
            }
            proof {
                assert(vb[i as int] == byte);
            }
            // a zero byte ends the text of the chunk
            if byte == 0 {
                proof {
                    lemma_first_zero(vb, i as int);
                }
                done = true;
            } else {
                bytes.push(byte);
                proof {
                    assert(vb.take(i as int + 1) =~= vb.take(i as int).push(byte));
                }
                i += 1;
            }
        }
        proof {
            if !done {
                lemma_first_zero(vb, 32);
                assert(vb.take(32) =~= vb);
            }
            let sub = vectors_coeffs(vectors@).subrange(0, t as int + 1);
            assert(sub.drop_last() =~= vectors_coeffs(vectors@).subrange(0, t as int));
            assert(sub.last() == vector.c@);
        }
        t += 1;
    }
    assert(vectors_coeffs(vectors@).subrange(0, vectors@.len() as int) =~= vectors_coeffs(vectors@));
    match string_from_utf8(bytes) {
        Some(s) => s,
        None => "Invalid UTF-8".to_owned(),
    }
}

/// Bit `j` of a byte, as an integer 0 or 1.
pub open spec fn byte_bit(b: u8, j: u8) -> u8 {
    (b >> j) & 1u8
}

/// A byte is read back from its eight bits.
proof fn lemma_read_byte(c: Seq<i32>, i: int, b: u8)
    requires
        forall|j: int| 0 <= j < 8 ==> #[trigger] c[8 * i + j] == byte_bit(b, j as u8) as i32,
    ensures
        read_byte(c, i, 8) == b,
{
    reveal_with_fuel(read_byte, 9);
    assert forall|j: int| 0 <= j < 8 implies #[trigger] (c[8 * i + j] as u8) == byte_bit(b, j as u8) by {
        let ju = j as u8;
        let bb = byte_bit(b, ju);
        assert(bb <= 1) by (bit_vector)
            requires bb == (b >> ju) & 1u8;
    }
    assert(c[8 * i + 0] as u8 == byte_bit(b, 0));
    assert(c[8 * i + 1] as u8 == byte_bit(b, 1));
    assert(c[8 * i + 2] as u8 == byte_bit(b, 2));
    assert(c[8 * i + 3] as u8 == byte_bit(b, 3));
    assert(c[8 * i + 4] as u8 == byte_bit(b, 4));
    assert(c[8 * i + 5] as u8 == byte_bit(b, 5));
    assert(c[8 * i + 6] as u8 == byte_bit(b, 6));
    assert(c[8 * i + 7] as u8 == byte_bit(b, 7));
    assert(b == or_bit(or_bit(or_bit(or_bit(or_bit(or_bit(or_bit(or_bit(0u8, byte_bit(b, 0), 0),
        byte_bit(b, 1), 1), byte_bit(b, 2), 2), byte_bit(b, 3), 3), byte_bit(b, 4), 4), byte_bit(b, 5),
        5), byte_bit(b, 6), 6), byte_bit(b, 7), 7)) by (bit_vector);
}

/// Zero coefficients are read back as a zero byte.
proof fn lemma_read_zero_byte(c: Seq<i32>, i: int)
    requires
        forall|j: int| 0 <= j < 8 ==> #[trigger] c[8 * i + j] == 0,
    ensures
        read_byte(c, i, 8) == 0,
{
    reveal_with_fuel(read_byte, 9);
    assert(c[8 * i + 0] == 0);
    assert(c[8 * i + 1] == 0);
    assert(c[8 * i + 2] == 0);
    assert(c[8 * i + 3] == 0);
    assert(c[8 * i + 4] == 0);
    assert(c[8 * i + 5] == 0);
    assert(c[8 * i + 6] == 0);
    assert(c[8 * i + 7] == 0);
}

/// `c` holds the coefficients of the message polynomial of chunk `k` of `bs`.
pub open spec fn is_chunk_coeffs(c: Seq<i32>, bs: Seq<u8>, k: int) -> bool {
    &&& c.len() == 256
    &&& forall|p: int| 0 <= p < 256 ==> #[trigger] c[p] as int == chunk_poly(bs, k)[p]
}

/// The text read back from the polynomial of chunk `k` is the chunk's bytes, when no
/// byte of the string is zero.
proof fn lemma_chunk_text(bs: Seq<u8>, k: int, c: Seq<i32>)
    requires
        0 <= k,
        32 * k < bs.len(),
        forall|i: int| 0 <= i < bs.len() ==> #[trigger] bs[i] != 0,
        is_chunk_coeffs(c, bs, k),
    ensures
        chunk_text(c) == bs.subrange(32 * k, if 32 * k + 32 <= bs.len() { 32 * k + 32 } else { bs.len() as int }),
{
    let end = if 32 * k + 32 <= bs.len() { 32 * k + 32 } else { bs.len() as int };
    let vb = vector_bytes(c);
    assert forall|i: int| 0 <= i < 32 implies #[trigger] vb[i] == (if 32 * k + i < bs.len() { bs[32 * k + i] } else { 0u8 }) by {
        if 32 * k + i < bs.len() {
            let b = bs[32 * k + i];
            assert forall|j: int| 0 <= j < 8 implies #[trigger] c[8 * i + j] == byte_bit(b, j as u8) as i32 by {
                let p = 8 * i + j;
                assert(c[p] as int == chunk_poly(bs, k)[p]);
                assert(p / 8 == i);
                assert((256 * k + p) / 8 == 32 * k + i);
                assert((256 * k + p) % 8 == j);
                assert(chunk_poly(bs, k)[p] == bit_at(bs, 256 * k + p));
                assert(bit_at(bs, 256 * k + p) == byte_bit(b, j as u8) as int);
            }
            lemma_read_byte(c, i, b);
        } else {
            assert forall|j: int| 0 <= j < 8 implies #[trigger] c[8 * i + j] == 0 by {
                let p = 8 * i + j;
                assert(c[p] as int == chunk_poly(bs, k)[p]);
                assert(p / 8 == i);
                assert(chunk_poly(bs, k)[p] == 0);
            }
            lemma_read_zero_byte(c, i);
        }
    }
    let r = end - 32 * k;
    assert forall|j: int| 0 <= j < r implies #[trigger] vb[j] != 0 by {}
    lemma_first_zero(vb, r);
    if r < 32 {
        assert(vb[r] == 0);
    }
    assert(first_zero(vb, 0) == r);
    assert(chunk_text(c) =~= bs.subrange(32 * k, end));
}

/// The bytes read back from the first `k` chunk polynomials of a string are the
/// string's first `32 k` bytes (all of them once `32 k` passes the end).
proof fn lemma_decoded_prefix(bs: Seq<u8>, cs: Seq<Seq<i32>>, k: int)
    requires
        0 <= k <= cs.len(),
        cs.len() == chunk_count(bs.len()),
        forall|i: int| 0 <= i < bs.len() ==> #[trigger] bs[i] != 0,
        forall|x: int| 0 <= x < cs.len() ==> is_chunk_coeffs(#[trigger] cs[x], bs, x),
    ensures
        decoded_bytes(cs.subrange(0, k)) == bs.subrange(0, if 32 * k <= bs.len() { 32 * k } else { bs.len() as int }),
    decreases k,
{
    if k == 0 {
        assert(cs.subrange(0, 0) =~= Seq::<Seq<i32>>::empty());
        assert(bs.subrange(0, 0) =~= Seq::<u8>::empty());
    } else {
        lemma_decoded_prefix(bs, cs, k - 1);
        let sub = cs.subrange(0, k);
        assert(sub.drop_last() =~= cs.subrange(0, k - 1));
        assert(sub.last() == cs[k - 1]);
        assert(32 * (k - 1) < bs.len());
        lemma_chunk_text(bs, k - 1, cs[k - 1]);
        let e1 = 32 * (k - 1);
        let e2 = if 32 * k <= bs.len() { 32 * k } else { bs.len() as int };
        assert(bs.subrange(0, e1) + bs.subrange(e1, e2) =~= bs.subrange(0, e2));
    }
}

/// Reading back the message polynomials of some bytes gives the bytes again, provided
/// none is zero (a zero byte ends the text of its chunk).
pub proof fn lemma_bytes_roundtrip(bs: Seq<u8>, cs: Seq<Seq<i32>>)
    requires
        forall|i: int| 0 <= i < bs.len() ==> #[trigger] bs[i] != 0,
        cs.len() == chunk_count(bs.len()),
        forall|x: int| 0 <= x < cs.len() ==> is_chunk_coeffs(#[trigger] cs[x], bs, x),
    ensures
        decoded_bytes(cs) == bs,
{
    lemma_decoded_prefix(bs, cs, cs.len() as int);
    assert(cs.subrange(0, cs.len() as int) =~= cs);
    assert(32 * cs.len() >= bs.len());
    assert(bs.subrange(0, bs.len() as int) =~= bs);
}

/// Reading back the message polynomials of a text gives the text again, provided it
/// holds no zero byte (a zero byte ends the text of its chunk): for polynomials as
/// `string_to_vectors` makes them, what `vectors_to_string` returns is the string.
pub proof fn lemma_string_roundtrip(s: &str, vs: Seq<Vector<N>>, invalid: Seq<char>)
    requires
        forall|i: int| 0 <= i < s.spec_bytes().len() ==> #[trigger] s.spec_bytes()[i] != 0,
        vs.len() == chunk_count(s.spec_bytes().len()),
        forall|k: int| 0 <= k < vs.len() ==> coeffs(#[trigger] vs[k]) == chunk_poly(s.spec_bytes(), k),
    ensures
        decoded_bytes(vectors_coeffs(vs)) == s.spec_bytes(),
        text_of_bytes(decoded_bytes(vectors_coeffs(vs)), invalid) == s@,
{
    let bs = s.spec_bytes();
    let cs = vectors_coeffs(vs);
    assert forall|x: int| 0 <= x < cs.len() implies is_chunk_coeffs(#[trigger] cs[x], bs, x) by {
        assert forall|p: int| 0 <= p < 256 implies #[trigger] cs[x][p] as int == chunk_poly(bs, x)[p] by {
            assert(coeffs(vs[x])[p] == chunk_poly(bs, x)[p]);
        }
    }
    lemma_bytes_roundtrip(bs, cs);
    encode_utf8_valid_utf8(s@);
    encode_utf8_decode_utf8(s@);
}

/// The characters of a string, in order.
fn chars_of(s: &str) -> (res: Vec<char>)
    ensures
        res@ == s@,
{
    let mut out: Vec<char> = Vec::new();
    for c in it: s.chars()
        invariant
            out@ == it.seq().take(it.index() as int),
    {
        out.push(c);
    }
    out
}

/// A hexadecimal digit, either case.
pub open spec fn is_hex_char(c: char) -> bool {
    ('0' <= c <= '9') || ('a' <= c <= 'f') || ('A' <= c <= 'F')
}

/// An even number of hexadecimal digits: text that `hex::decode` accepts.
pub open spec fn hex_text(cs: Seq<char>) -> bool {
    &&& cs.len() % 2 == 0
    &&& forall|i: int| 0 <= i < cs.len() ==> is_hex_char(#[trigger] cs[i])
}

/// The bytes of ASCII characters.
pub open spec fn ascii_bytes(cs: Seq<char>) -> Seq<u8> {
    Seq::new(cs.len(), |i: int| cs[i] as u8)
}

/// The bytes that hexadecimal text denotes.
pub open spec fn hex_value(cs: Seq<char>) -> Seq<u8> {
    hex_bytes(ascii_bytes(cs))
}

/// The characters `from .. from + count` of the trimmed text (fewer where it ends),
/// as `s.trim().chars().skip(from).take(count)` gives them.
pub open spec fn trimmed_part(s: Seq<char>, from: nat, count: nat) -> Seq<char> {
    let cs = trimmed(s);
    let a = if from <= cs.len() { from as int } else { cs.len() as int };
    let b = if from + count <= cs.len() { (from + count) as int } else { cs.len() as int };
    cs.subrange(a, b)
}

/// Decodes the hexadecimal characters `from .. to` of `cs`.
fn decode_hex_chars(cs: &Vec<char>, from: usize, to: usize) -> (res: Vec<u8>)
    requires
        from <= to <= cs@.len(),
        hex_text(cs@.subrange(from as int, to as int)),
    ensures
        res@ == hex_value(cs@.subrange(from as int, to as int)),
        res@.len() == (to - from) / 2,
{
    let ghost part = cs@.subrange(from as int, to as int);
    let mut text: Vec<u8> = Vec::new();
    let mut i: usize = from;
    while i < to
        invariant
            from <= i <= to <= cs@.len(),
            part == cs@.subrange(from as int, to as int),
            text@ == ascii_bytes(cs@.subrange(from as int, i as int)),
        decreases to - i,
    {
        let c = cs[i];
        text.push(c as u8);
        proof {
            assert(ascii_bytes(cs@.subrange(from as int, i + 1)) =~= ascii_bytes(
                cs@.subrange(from as int, i as int),
            ).push(c as u8));
        }
        i += 1;
    }
    proof {
        assert forall|j: int| 0 <= j < text@.len() implies (#[trigger] hex_digit(text@[j])) is Some by {
            assert(is_hex_char(part[j]));
            assert(text@[j] == part[j] as u8);
        }
    }
    match hex_decode(text.as_slice()) {
        Ok(v) => v,
        Err(_) => {
            proof {
                assert(false);
            }
            Vec::new()
        },
    }
}

/// Coefficient `h` (0 or 1) of the 12-bit pair that starts at byte `b`:
/// `b0 + 256 (b1 mod 16)` or `b1 / 16 + 16 b2`.
pub open spec fn coef12(bytes: Seq<u8>, b: int, h: int) -> int {
    if h == 0 {
        bytes[b] + 256 * (bytes[b + 1] % 16)
    } else {
        bytes[b + 1] / 16 + 16 * bytes[b + 2]
    }
}

/// Polynomial `i` of a vector packed 12 bits per coefficient (384 bytes per
/// polynomial); zero when the bytes hold no complete polynomial `i`.
pub open spec fn parse12_poly(bytes: Seq<u8>, i: int) -> Seq<int> {
    Seq::new(
        256,
        |j: int| if 384 * (i + 1) <= bytes.len() { coef12(bytes, 384 * i + 3 * (j / 2), j % 2) } else { 0 },
    )
}

/// Coefficient `h` (0 to 3) of the four 10-bit numbers packed in the 5 bytes from `b`.
pub open spec fn coef10(bytes: Seq<u8>, b: int, h: int) -> int {
    if h == 0 {
        bytes[b] + 256 * (bytes[b + 1] % 4)
    } else if h == 1 {
        bytes[b + 1] / 4 + 64 * (bytes[b + 2] % 16)
    } else if h == 2 {
        bytes[b + 2] / 16 + 16 * (bytes[b + 3] % 64)
    } else {
        bytes[b + 3] / 64 + 4 * bytes[b + 4]
    }
}

/// Polynomial `i` of a vector packed 10 bits per coefficient (320 bytes per
/// polynomial); zero when the bytes hold no complete polynomial `i`.
pub open spec fn parse10_poly(bytes: Seq<u8>, i: int) -> Seq<int> {
    Seq::new(
        256,
        |j: int| if 320 * (i + 1) <= bytes.len() { coef10(bytes, 320 * i + 5 * (j / 4), j % 4) } else { 0 },
    )
}

/// The polynomial packed 4 bits per coefficient, low half of each byte first; zero
/// past the bytes.
pub open spec fn parse4_poly(bytes: Seq<u8>) -> Seq<int> {
    Seq::new(
        256,
        |j: int| if j / 2 < bytes.len() { if j % 2 == 0 { (bytes[j / 2] % 16) as int } else { (bytes[j / 2] / 16) as int } } else { 0 },
    )
}

/// A vector of `K` polynomials packed 12 bits per coefficient, two coefficients in
/// every 3 bytes (little endian); a trailing incomplete polynomial is dropped.
pub fn parse_polyvector_bytes(bytes: &[u8]) -> (res: PolyVector<K>)
    requires
        bytes@.len() % 3 == 0,
        bytes@.len() / 384 <= K,
    ensures
        res.m == Q,
        forall|i: int| 0 <= i < K ==> #[trigger] res.c[i].m == Q,
        forall|i: int| 0 <= i < K ==> #[trigger] coeffs(res.c[i]) == parse12_poly(bytes@, i),
{
    let mut vector = empty_polyvector();
    let mut tmp = empty_vector();
    // index of the polynomial being parsed
    let mut poly_index: usize = 0;
    // index of the coefficient being parsed in that polynomial
    let mut rel_coef_index: usize = 0;
    let mut byte_index: usize = 0;
    let ghost bs = bytes@;
    while byte_index < bytes.len()
        invariant
            bs == bytes@,
            bs.len() % 3 == 0,
            bs.len() / 384 <= K,
            byte_index % 3 == 0,
            byte_index <= bs.len(),
            rel_coef_index % 2 == 0,
            rel_coef_index < 256,
            byte_index == 384 * poly_index + 3 * (rel_coef_index / 2),
            poly_index <= K,
            poly_index < K ==> poly_index * 384 <= bs.len(),
            vector.m == Q,
            tmp.m == Q,
            forall|i: int| 0 <= i < K ==> #[trigger] vector.c[i].m == Q,
            forall|i: int| 0 <= i < poly_index ==> #[trigger] coeffs(vector.c[i]) == parse12_poly(bs, i),
            forall|i: int, j: int| poly_index <= i < K && 0 <= j < 256 ==> #[trigger] vector.c[i].c[j] == 0,
            forall|j: int|
                0 <= j < rel_coef_index ==> #[trigger] tmp.c[j] == coef12(
                    bs,
                    384 * poly_index + 3 * (j / 2),
                    j % 2,
                ),
            forall|j: int| rel_coef_index <= j < 256 ==> #[trigger] tmp.c[j] == 0,
        decreases bs.len() - byte_index,
    {
        let b0 = bytes[byte_index] as i32;
        let b1 = bytes[byte_index + 1] as i32;
        let b2 = bytes[byte_index + 2] as i32;
        // 3 bytes hold 2 coefficients of 12 bits
        let coef_1: i32 = b0 + 256 * (b1 % 16);
        let coef_2: i32 = b1 / 16 + 16 * b2;
        tmp.c[rel_coef_index] = coef_1;
        tmp.c[rel_coef_index + 1] = coef_2;
        rel_coef_index += 2;
        byte_index += 3;
        // 256 * 12 bits = 384 bytes make a polynomial
        if rel_coef_index == 256 {
            proof {
                assert(byte_index == 384 * (poly_index + 1));
                assert(poly_index < K);
                assert forall|j: int| 0 <= j < 256 implies #[trigger] coeffs(tmp)[j] == parse12_poly(
                    bs,
                    poly_index as int,
                )[j] by {
                    assert(384 * (poly_index + 1) <= bs.len());
                }
                assert(coeffs(tmp) =~= parse12_poly(bs, poly_index as int));
            }
            vector.c[poly_index] = tmp;
            poly_index += 1;
            rel_coef_index = 0;
            tmp = empty_vector();
            proof {
                if poly_index < K {
                    assert(poly_index * 384 <= bs.len());
                }
            }
        }
    }
    proof {
        assert forall|i: int| poly_index <= i < K implies #[trigger] coeffs(vector.c[i]) == parse12_poly(bs, i) by {
            assert(384 * (i + 1) > bs.len());
            assert(coeffs(vector.c[i]) =~= parse12_poly(bs, i));
        }
    }
    vector
}

/// A vector of `K` polynomials packed 10 bits per coefficient, four coefficients in
/// every 5 bytes (little endian); a trailing incomplete polynomial is dropped.
fn parse_compressed_polyvector_bytes(bytes: &[u8]) -> (res: PolyVector<K>)
    requires
        bytes@.len() % 5 == 0,
        bytes@.len() / 320 <= K,
    ensures
        res.m == Q,
        forall|i: int| 0 <= i < K ==> #[trigger] res.c[i].m == Q,
        forall|i: int| 0 <= i < K ==> #[trigger] coeffs(res.c[i]) == parse10_poly(bytes@, i),
{
    let mut vector = empty_polyvector();
    let mut tmp = empty_vector();
    let mut poly_index: usize = 0;
    let mut rel_coef_index: usize = 0;
    let mut byte_index: usize = 0;
    let ghost bs = bytes@;
    while byte_index < bytes.len()
        invariant
            bs == bytes@,
            bs.len() % 5 == 0,
            bs.len() / 320 <= K,
            byte_index % 5 == 0,
            byte_index <= bs.len(),
            rel_coef_index % 4 == 0,
            rel_coef_index < 256,
            byte_index == 320 * poly_index + 5 * (rel_coef_index / 4),
            poly_index <= K,
            poly_index < K ==> poly_index * 320 <= bs.len(),
            vector.m == Q,
            tmp.m == Q,
            forall|i: int| 0 <= i < K ==> #[trigger] vector.c[i].m == Q,
            forall|i: int| 0 <= i < poly_index ==> #[trigger] coeffs(vector.c[i]) == parse10_poly(bs, i),
            forall|i: int, j: int| poly_index <= i < K && 0 <= j < 256 ==> #[trigger] vector.c[i].c[j] == 0,
            forall|j: int|
                0 <= j < rel_coef_index ==> #[trigger] tmp.c[j] == coef10(
                    bs,
                    320 * poly_index + 5 * (j / 4),
                    j % 4,
                ),
            forall|j: int| rel_coef_index <= j < 256 ==> #[trigger] tmp.c[j] == 0,
        decreases bs.len() - byte_index,
    {
        let b0 = bytes[byte_index] as i32;
        let b1 = bytes[byte_index + 1] as i32;
        let b2 = bytes[byte_index + 2] as i32;
        let b3 = bytes[byte_index + 3] as i32;
        let b4 = bytes[byte_index + 4] as i32;
        // 5 bytes hold 4 coefficients of 10 bits
        tmp.c[rel_coef_index] = b0 + 256 * (b1 % 4);
        tmp.c[rel_coef_index + 1] = b1 / 4 + 64 * (b2 % 16);
        tmp.c[rel_coef_index + 2] = b2 / 16 + 16 * (b3 % 64);
        tmp.c[rel_coef_index + 3] = b3 / 64 + 4 * b4;
        rel_coef_index += 4;
        byte_index += 5;
        if rel_coef_index == 256 {
            proof {
                assert(byte_index == 320 * (poly_index + 1));
                assert(poly_index < K);
                assert forall|j: int| 0 <= j < 256 implies #[trigger] coeffs(tmp)[j] == parse10_poly(
                    bs,
                    poly_index as int,
                )[j] by {
                    assert(320 * (poly_index + 1) <= bs.len());
                }
                assert(coeffs(tmp) =~= parse10_poly(bs, poly_index as int));
            }
            vector.c[poly_index] = tmp;
            poly_index += 1;
            rel_coef_index = 0;
            tmp = empty_vector();
            proof {
                if poly_index < K {
                    assert(poly_index * 320 <= bs.len());
                }
            }
        }
    }
    proof {
        assert forall|i: int| poly_index <= i < K implies #[trigger] coeffs(vector.c[i]) == parse10_poly(bs, i) by {
            assert(320 * (i + 1) > bs.len());
            assert(coeffs(vector.c[i]) =~= parse10_poly(bs, i));
        }
    }
    vector
}

/// A polynomial packed 4 bits per coefficient, two in every byte, low half first.
fn parse_compressed_vector_bytes(bytes: &[u8]) -> (res: Vector<N>)
    requires
        bytes@.len() <= 128,
    ensures
        res.m == Q,
        coeffs(res) == parse4_poly(bytes@),
{
    let mut v = empty_vector();
    let mut i: usize = 0;
    while i < bytes.len()
        invariant
            bytes@.len() <= 128,
            0 <= i <= bytes@.len(),
            v.m == Q,
            forall|j: int| 0 <= j < 2 * i ==> #[trigger] v.c[j] == parse4_poly(bytes@)[j],
            forall|j: int| 2 * i <= j < 256 ==> #[trigger] v.c[j] == 0,
        decreases bytes@.len() - i,
    {
        let byte = bytes[i] as i32;
        // 8 bits per byte, 4 bits per coefficient
        v.c[2 * i] = byte % 16;
        v.c[2 * i + 1] = byte / 16;
        i += 1;
    }
    assert(coeffs(v) =~= parse4_poly(bytes@));
    v
}

/// The characters of the trimmed text from `from` on (none if it is shorter), as
/// `s.trim().chars().skip(from)` gives them.
pub open spec fn trimmed_rest(s: Seq<char>, from: nat) -> Seq<char> {
    let cs = trimmed(s);
    let a = if from <= cs.len() { from as int } else { cs.len() as int };
    cs.subrange(a, cs.len() as int)
}

/// `min(a, b)`.
fn min_usize(a: usize, b: usize) -> (res: usize)
    ensures
        res == if a <= b { a } else { b },
{
    if a <= b { a } else { b }
}

/// Decodes the hexadecimal characters `from .. from + count` of the trimmed text
/// (fewer where it ends).
fn trimmed_hex_part(string: &str, from: usize, count: usize) -> (res: Vec<u8>)
    requires
        from + count <= usize::MAX,
        hex_text(trimmed_part(string@, from as nat, count as nat)),
    ensures
        res@ == hex_value(trimmed_part(string@, from as nat, count as nat)),
{
    let cs = chars_of(str_trim(string));
    let a = min_usize(from, cs.len());
    let b = min_usize(from + count, cs.len());
    decode_hex_chars(&cs, a, b)
}

/// The seed of the generator of the known answer tests, from its hexadecimal text.
#[allow(non_snake_case)]
pub fn parse_AES_CTR_DRBG_seed(string: &str) -> (res: Vec<u8>)
    requires
        hex_text(string@),
    ensures
        res@ == hex_value(string@),
{
    let cs = chars_of(string);
    proof {
        assert(cs@.subrange(0, cs@.len() as int) =~= cs@);
    }
    decode_hex_chars(&cs, 0, cs.len())
}

/// A shared secret, from its hexadecimal text.
pub fn parse_shared_secret(string: &str) -> (res: Vec<u8>)
    requires
        hex_text(string@),
    ensures
        res@ == hex_value(string@),
{
    let cs = chars_of(string);
    proof {
        assert(cs@.subrange(0, cs@.len() as int) =~= cs@);
    }
    decode_hex_chars(&cs, 0, cs.len())
}

/// A public key as the known answer tests write it: `t` (12 bits per coefficient,
/// the first 2304 hexadecimal digits), then the seed `rho` of the matrix.
pub fn parse_public_key(string: &str) -> (res: (Vec<u8>, PolyVector<K>))
    requires
        hex_text(trimmed_part(string@, 0, 2304)),
        hex_value(trimmed_part(string@, 0, 2304)).len() % 3 == 0,
        hex_text(trimmed_rest(string@, 2304)),
    ensures
        res.0@ == hex_value(trimmed_rest(string@, 2304)),
        res.1.m == Q,
        forall|i: int| 0 <= i < K ==> #[trigger] res.1.c[i].m == Q,
        forall|i: int|
            0 <= i < K ==> #[trigger] coeffs(res.1.c[i]) == parse12_poly(
                hex_value(trimmed_part(string@, 0, 2304)),
                i,
            ),
{
    let cs = chars_of(str_trim(string));
    let a = min_usize(2304, cs.len());
    let t_bytes = decode_hex_chars(&cs, 0, a);
    let t = parse_polyvector_bytes(t_bytes.as_slice());
    let seed = decode_hex_chars(&cs, a, cs.len());
    (seed, t)
}

/// A ciphertext as the known answer tests write it: `u` (10 bits per coefficient, the
/// first 1920 hexadecimal digits), then `v` (4 bits per coefficient).
pub fn parse_cyphertext(string: &str) -> (res: (PolyVector<K>, Vector<N>))
    requires
        hex_text(trimmed_part(string@, 0, 1920)),
        hex_value(trimmed_part(string@, 0, 1920)).len() % 5 == 0,
        hex_text(trimmed_rest(string@, 1920)),
        hex_value(trimmed_rest(string@, 1920)).len() <= 128,
    ensures
        res.0.m == Q,
        forall|i: int| 0 <= i < K ==> #[trigger] res.0.c[i].m == Q,
        forall|i: int|
            0 <= i < K ==> #[trigger] coeffs(res.0.c[i]) == parse10_poly(
                hex_value(trimmed_part(string@, 0, 1920)),
                i,
            ),
        res.1.m == Q,
        coeffs(res.1) == parse4_poly(hex_value(trimmed_rest(string@, 1920))),
{
    let cs = chars_of(str_trim(string));
    let a = min_usize(1920, cs.len());
    let u_bytes = decode_hex_chars(&cs, 0, a);
    let u = parse_compressed_polyvector_bytes(u_bytes.as_slice());
    let v_bytes = decode_hex_chars(&cs, a, cs.len());
    let v = parse_compressed_vector_bytes(v_bytes.as_slice());
    (u, v)
}

/// The secret vector `s` of a secret key as the known answer tests write it (12 bits
/// per coefficient, the first 2304 hexadecimal digits).
pub fn parse_secret_key(string: &str) -> (res: PolyVector<K>)
    requires
        hex_text(trimmed_part(string@, 0, 2304)),
        hex_value(trimmed_part(string@, 0, 2304)).len() % 3 == 0,
    ensures
        res.m == Q,
        forall|i: int| 0 <= i < K ==> #[trigger] res.c[i].m == Q,
        forall|i: int|
            0 <= i < K ==> #[trigger] coeffs(res.c[i]) == parse12_poly(
                hex_value(trimmed_part(string@, 0, 2304)),
                i,
            ),
{
    let bytes = trimmed_hex_part(string, 0, 2304);
    parse_polyvector_bytes(bytes.as_slice())
}

/// The hash `H(pk)` stored in a secret key (`s || t || rho || H(pk) || z`): the 64
/// hexadecimal digits after the first 4672.
pub fn parse_pk_hash(string: &str) -> (res: Vec<u8>)
    requires
        hex_text(trimmed_part(string@, 4672, 64)),
    ensures
        res@ == hex_value(trimmed_part(string@, 4672, 64)),
{
    trimmed_hex_part(string, 4672, 64)
}

/// The rejection secret `z` stored in a secret key (`s || t || rho || H(pk) || z`): the
/// 64 hexadecimal digits after the first 4736.
pub fn parse_z(string: &str) -> (res: Vec<u8>)
    requires
        hex_text(trimmed_part(string@, 4736, 64)),
    ensures
        res@ == hex_value(trimmed_part(string@, 4736, 64)),
{
    trimmed_hex_part(string, 4736, 64)
}

/// One case of the ML-KEM known answer tests: its number, the public key (`rho`, `t`),
/// the secret vector, `H(pk)` and `z` of the secret key, the seed of the generator,
/// the ciphertext `(u, v)` and the shared secret.
#[derive(Debug)]
pub struct KyberTestCase {
    pub count: usize,
    pub rho: Vec<u8>,
    pub t: PolyVector<K>,
    pub sk: PolyVector<K>,
    pub pk_hash: Vec<u8>,
    pub z: Vec<u8>,
    pub rng_seed: Vec<u8>,
    pub ct: (PolyVector<K>, Vector<N>),
    pub ss: Vec<u8>,
}

impl Clone for KyberTestCase {
    fn clone(&self) -> (res: Self)
        ensures
            res.count == self.count,
            res.rho@ == self.rho@,
            res.t == self.t,
            res.sk == self.sk,
            res.pk_hash@ == self.pk_hash@,
            res.z@ == self.z@,
            res.rng_seed@ == self.rng_seed@,
            res.ct == self.ct,
            res.ss@ == self.ss@,
    {
        KyberTestCase {
            count: self.count,
            rho: self.rho.clone(),
            t: self.t,
            sk: self.sk,
            pk_hash: self.pk_hash.clone(),
            z: self.z.clone(),
            rng_seed: self.rng_seed.clone(),
            ct: self.ct,
            ss: self.ss.clone(),
        }
    }
}

/// Bit `j` of `x`, 0 or 1.
pub open spec fn bit16(x: u16, j: u16) -> u16 {
    (x >> j) & 1u16
}

/// The low 8 bits of `x` as a number.
pub open spec fn low_byte(x: u16) -> int {
    bit16(x, 0) + bit16(x, 1) * 2 + bit16(x, 2) * 4 + bit16(x, 3) * 8 + bit16(x, 4) * 16 + bit16(x, 5) * 32
        + bit16(x, 6) * 64 + bit16(x, 7) * 128
}

/// Bits 8 to 11 of `x` followed by bits 0 to 3 of `y`, as a number.
pub open spec fn middle_byte(x: u16, y: u16) -> int {
    bit16(x, 8) + bit16(x, 9) * 2 + bit16(x, 10) * 4 + bit16(x, 11) * 8 + bit16(y, 0) * 16 + bit16(y, 1) * 32
        + bit16(y, 2) * 64 + bit16(y, 3) * 128
}

/// Bits 4 to 11 of `y`, as a number.
pub open spec fn high_byte(y: u16) -> int {
    bit16(y, 4) + bit16(y, 5) * 2 + bit16(y, 6) * 4 + bit16(y, 7) * 8 + bit16(y, 8) * 16 + bit16(y, 9) * 32
        + bit16(y, 10) * 64 + bit16(y, 11) * 128
}

/// Two 12-bit numbers packed in three bytes are read back by `coef12`'s formulas.
proof fn lemma_pack12(x: u16, y: u16)
    requires
        x < 4096,
        y < 4096,
    ensures
        x == low_byte(x) + 256 * (middle_byte(x, y) % 16),
        y == middle_byte(x, y) / 16 + 16 * high_byte(y),
        0 <= middle_byte(x, y) < 256,
{
    assert(x == low_byte(x) + 256 * (middle_byte(x, y) % 16) && y == middle_byte(x, y) / 16 + 16 * high_byte(
        y,
    ) && 0 <= middle_byte(x, y) < 256) by (bit_vector)
        requires
            x < 4096,
            y < 4096,
    ;
}

/// Bit `j` of a 16-bit number in the arithmetic and the bitwise readings agree.
proof fn lemma_int_bit_u16(x: u16, j: u16)
    requires
        j < 16,
    ensures
        int_bit(x as int, j as nat) == bit16(x, j) as int,
{
    lemma_u16_shr_is_div(x, j);
    let s = x >> j;
    assert(s & 1u16 == s % 2) by (bit_vector);
}

/// The three bytes of the 12-bit encoding that hold coefficients `2m` and `2m + 1`
/// give them back through `coef12`.
proof fn lemma_encode12_pair(c: Seq<int>, m: int)
    requires
        c.len() == 256,
        forall|j: int| 0 <= j < 256 ==> 0 <= #[trigger] c[j] < 4096,
        0 <= m < 128,
    ensures
        coef12(byte_encode(c, 12), 3 * m, 0) == c[2 * m],
        coef12(byte_encode(c, 12), 3 * m, 1) == c[2 * m + 1],
{
    let x = c[2 * m] as u16;
    let y = c[2 * m + 1] as u16;
    let e = byte_encode(c, 12);
    lemma2_to64();
    reveal_with_fuel(bits_value, 9);
    assert forall|j: int| 0 <= j < 8 implies #[trigger] encoded_bit(c, 12, 24 * m + j) == bit16(x, j as u16) as int by {
        assert((24 * m + j) / 12 == 2 * m);
        assert((24 * m + j) % 12 == j);
        lemma_int_bit_u16(x, j as u16);
    }
    assert forall|j: int| 0 <= j < 8 implies #[trigger] encoded_bit(c, 12, 24 * m + 8 + j) == (if j < 4 {
        bit16(x, (8 + j) as u16)
    } else {
        bit16(y, (j - 4) as u16)
    }) as int by {
        if j < 4 {
            assert((24 * m + 8 + j) / 12 == 2 * m);
            assert((24 * m + 8 + j) % 12 == 8 + j);
            lemma_int_bit_u16(x, (8 + j) as u16);
        } else {
            assert((24 * m + 8 + j) / 12 == 2 * m + 1);
            assert((24 * m + 8 + j) % 12 == j - 4);
            lemma_int_bit_u16(y, (j - 4) as u16);
        }
    }
    assert forall|j: int| 0 <= j < 8 implies #[trigger] encoded_bit(c, 12, 24 * m + 16 + j) == bit16(
        y,
        (4 + j) as u16,
    ) as int by {
        assert((24 * m + 16 + j) / 12 == 2 * m + 1);
        assert((24 * m + 16 + j) % 12 == 4 + j);
        lemma_int_bit_u16(y, (4 + j) as u16);
    }
    let v0 = bits_value(c, 12, 24 * m, 8);
    let v1 = bits_value(c, 12, 24 * m + 8, 8);
    let v2 = bits_value(c, 12, 24 * m + 16, 8);
    crate::encoding::lemma_bits_value8(c, 12, 24 * m);
    crate::encoding::lemma_bits_value8(c, 12, 24 * m + 8);
    crate::encoding::lemma_bits_value8(c, 12, 24 * m + 16);
    assert(encoded_bit(c, 12, 24 * m + 0) == bit16(x, 0) as int);
    assert(encoded_bit(c, 12, 24 * m + 1) == bit16(x, 1) as int);
    assert(encoded_bit(c, 12, 24 * m + 2) == bit16(x, 2) as int);
    assert(encoded_bit(c, 12, 24 * m + 3) == bit16(x, 3) as int);
    assert(encoded_bit(c, 12, 24 * m + 4) == bit16(x, 4) as int);
    assert(encoded_bit(c, 12, 24 * m + 5) == bit16(x, 5) as int);
    assert(encoded_bit(c, 12, 24 * m + 6) == bit16(x, 6) as int);
    assert(encoded_bit(c, 12, 24 * m + 7) == bit16(x, 7) as int);
    assert(bits_value(c, 12, 24 * m, 0) == 0);
    assert(bits_value(c, 12, 24 * m, 1) == encoded_bit(c, 12, 24 * m) * pow2(0));
    assert(pow2(0) == 1);
    assert(encoded_bit(c, 12, 24 * m) == bit16(x, 0) as int);
    assert(bits_value(c, 12, 24 * m, 1) == bit16(x, 0) as int);
    assert(bits_value(c, 12, 24 * m, 2) == bit16(x, 0) + bit16(x, 1) * 2);
    assert(bits_value(c, 12, 24 * m, 4) == bit16(x, 0) + bit16(x, 1) * 2 + bit16(x, 2) * 4 + bit16(x, 3) * 8);
    assert(v0 == low_byte(x));
    assert(encoded_bit(c, 12, 24 * m + 8 + 0) == bit16(x, 8) as int);
    assert(encoded_bit(c, 12, 24 * m + 8 + 1) == bit16(x, 9) as int);
    assert(encoded_bit(c, 12, 24 * m + 8 + 2) == bit16(x, 10) as int);
    assert(encoded_bit(c, 12, 24 * m + 8 + 3) == bit16(x, 11) as int);
    assert(encoded_bit(c, 12, 24 * m + 8 + 4) == bit16(y, 0) as int);
    assert(encoded_bit(c, 12, 24 * m + 8 + 5) == bit16(y, 1) as int);
    assert(encoded_bit(c, 12, 24 * m + 8 + 6) == bit16(y, 2) as int);
    assert(encoded_bit(c, 12, 24 * m + 8 + 7) == bit16(y, 3) as int);
    assert(v1 == middle_byte(x, y));
    assert(encoded_bit(c, 12, 24 * m + 16 + 0) == bit16(y, 4) as int);
    assert(encoded_bit(c, 12, 24 * m + 16 + 1) == bit16(y, 5) as int);
    assert(encoded_bit(c, 12, 24 * m + 16 + 2) == bit16(y, 6) as int);
    assert(encoded_bit(c, 12, 24 * m + 16 + 3) == bit16(y, 7) as int);
    assert(encoded_bit(c, 12, 24 * m + 16 + 4) == bit16(y, 8) as int);
    assert(encoded_bit(c, 12, 24 * m + 16 + 5) == bit16(y, 9) as int);
    assert(encoded_bit(c, 12, 24 * m + 16 + 6) == bit16(y, 10) as int);
    assert(encoded_bit(c, 12, 24 * m + 16 + 7) == bit16(y, 11) as int);
    assert(v2 == high_byte(y));
    lemma_bits_value_bound(c, 12, 24 * m, 8);
    lemma_bits_value_bound(c, 12, 24 * m + 8, 8);
    lemma_bits_value_bound(c, 12, 24 * m + 16, 8);
    assert(e[3 * m] == v0);
    assert(e[3 * m + 1] == v1);
    assert(e[3 * m + 2] == v2);
    lemma_pack12(x, y);
}

/// The encoding of a vector of polynomials holds the encoding of polynomial `i` at
/// the bytes `32 d i .. 32 d (i + 1)`.
proof fn lemma_pv_encode_index(x: Seq<Seq<int>>, d: nat, i: int, b: int)
    requires
        forall|a: int| 0 <= a < x.len() ==> (#[trigger] x[a]).len() == 256,
        0 <= i < x.len(),
        0 <= b < 32 * d,
    ensures
        pv_encode(x, d).len() == 32 * d * x.len(),
        pv_encode(x, d)[32 * d * i + b] == byte_encode(x[i], d)[b],
    decreases x.len(),
{
    lemma_pv_encode_len(x, d);
    let p = x.drop_last();
    lemma_pv_encode_len(p, d);
    assert(256 * d / 8 == 32 * d) by {
        assert(256 * d == 8 * (32 * d));
    }
    assert(32 * d * x.len() == 32 * d * p.len() + 32 * d) by (nonlinear_arith)
        requires p.len() + 1 == x.len();
    if i < x.len() - 1 {
        assert(32 * d * i + b < 32 * d * p.len()) by (nonlinear_arith)
            requires i + 1 <= p.len(), b < 32 * d;
        lemma_pv_encode_index(p, d, i, b);
    } else {
        assert(32 * d * i == 32 * d * p.len());
    }
}

/// The encoding of a vector of polynomials is `32 d` bytes per polynomial.
proof fn lemma_pv_encode_len(x: Seq<Seq<int>>, d: nat)
    requires
        forall|a: int| 0 <= a < x.len() ==> (#[trigger] x[a]).len() == 256,
    ensures
        pv_encode(x, d).len() == 32 * d * x.len(),
    decreases x.len(),
{
    if x.len() > 0 {
        let p = x.drop_last();
        lemma_pv_encode_len(p, d);
        assert(256 * d / 8 == 32 * d) by {
            assert(256 * d == 8 * (32 * d));
        }
        assert(32 * d * x.len() == 32 * d * p.len() + 32 * d) by (nonlinear_arith)
            requires p.len() + 1 == x.len();
    }
}

/// Parsing the 12-bit encoding of a vector of polynomials with coefficients below
/// 4096 gives the vector back: `parse_polyvector_bytes` reads the layout that
/// `PolyVector::encode(12)` writes.
pub proof fn lemma_parse_encode12(t: Seq<Seq<int>>, i: int)
    requires
        t.len() == K,
        forall|a: int| 0 <= a < K ==> (#[trigger] t[a]).len() == 256,
        forall|a: int, j: int| 0 <= a < K && 0 <= j < 256 ==> 0 <= #[trigger] t[a][j] < 4096,
        0 <= i < K,
    ensures
        parse12_poly(pv_encode(t, 12), i) == t[i],
{
    let bytes = pv_encode(t, 12);
    lemma_pv_encode_len(t, 12);
    assert forall|j: int| 0 <= j < 256 implies #[trigger] parse12_poly(bytes, i)[j] == t[i][j] by {
        let m = j / 2;
        assert forall|x: int| 0 <= x < 256 implies 0 <= #[trigger] t[i][x] < 4096 by {}
        lemma_encode12_pair(t[i], m);
        lemma_pv_encode_index(t, 12, i, 3 * m);
        lemma_pv_encode_index(t, 12, i, 3 * m + 1);
        lemma_pv_encode_index(t, 12, i, 3 * m + 2);
        assert(384 * i + 3 * m == 32 * 12 * i + 3 * m);
    }
    assert(parse12_poly(bytes, i) =~= t[i]);
}

/// The number that decimal digits denote, most significant first.
pub open spec fn decimal_value(ds: Seq<char>) -> int
    decreases ds.len(),
{
    if ds.len() == 0 {
        0
    } else {
        decimal_value(ds.drop_last()) * 10 + (ds.last() as int - '0' as int)
    }
}

/// Every character is a decimal digit.
pub open spec fn all_digits(ds: Seq<char>) -> bool {
    forall|i: int| 0 <= i < ds.len() ==> '0' <= #[trigger] ds[i] <= '9'
}

/// What `str::parse::<usize>` gives: an optional `+`, then at least one decimal digit,
/// with a value that fits in a `usize`; `None` for any other text.
pub open spec fn parse_usize_spec(cs: Seq<char>) -> Option<nat> {
    let ds = if cs.len() > 0 && cs[0] == '+' { cs.drop_first() } else { cs };
    if ds.len() > 0 && all_digits(ds) && decimal_value(ds) <= usize::MAX {
        Some(decimal_value(ds) as nat)
    } else {
        None
    }
}

proof fn lemma_decimal_value_nonneg(ds: Seq<char>)
    requires
        all_digits(ds),
    ensures
        decimal_value(ds) >= 0,
    decreases ds.len(),
{
    if ds.len() > 0 {
        lemma_decimal_value_nonneg(ds.drop_last());
    }
}

/// Once the value of a prefix overflows, the value of the whole does too.
proof fn lemma_decimal_value_grows(ds: Seq<char>, i: int)
    requires
        all_digits(ds),
        0 <= i <= ds.len(),
    ensures
        decimal_value(ds.subrange(0, i)) <= decimal_value(ds),
    decreases ds.len() - i,
{
    if i < ds.len() {
        lemma_decimal_value_grows(ds, i + 1);
        let p = ds.subrange(0, i + 1);
        assert(p.drop_last() =~= ds.subrange(0, i));
        lemma_decimal_value_nonneg(ds.subrange(0, i));
    } else {
        assert(ds.subrange(0, i) =~= ds);
    }
}

/// Parses an unsigned decimal number as `str::parse::<usize>` does.
pub fn parse_usize(s: &str) -> (res: Option<usize>)
    ensures
        match res {
            Some(v) => parse_usize_spec(s@) == Some(v as nat),
            None => parse_usize_spec(s@) is None,
        },
{
    let cs = chars_of(s);
    let start: usize = if cs.len() > 0 && cs[0] == '+' { 1 } else { 0 };
    let ghost ds = if cs@.len() > 0 && cs@[0] == '+' { cs@.drop_first() } else { cs@ };
    proof {
        assert(ds =~= cs@.subrange(start as int, cs@.len() as int));
    }
    if start >= cs.len() {
        return None;
    }
    let mut value: usize = 0;
    let mut i: usize = start;
    while i < cs.len()
        invariant
            start <= i <= cs@.len(),
            start < cs@.len(),
            cs@ == s@,
            ds == cs@.subrange(start as int, cs@.len() as int),
            ds == (if s@.len() > 0 && s@[0] == '+' { s@.drop_first() } else { s@ }),
            all_digits(ds.subrange(0, i - start)),
            value == decimal_value(ds.subrange(0, i - start)),
        decreases cs@.len() - i,
    {
        let c = cs[i];
        if !('0' <= c && c <= '9') {
            proof {
                assert(ds[i - start] == c);
                assert(!all_digits(ds));
                assert(parse_usize_spec(s@) is None);
            }
            return None;
        }
        let digit = (c as u32 - '0' as u32) as usize;
        let ghost p = ds.subrange(0, (i + 1 - start) as int);
        proof {
            assert(p.drop_last() =~= ds.subrange(0, i - start));
            assert(p.last() == c);
            assert(all_digits(p));
        }
        match value.checked_mul(10) {
            Some(v10) => match v10.checked_add(digit) {
                Some(v) => {
                    value = v;
                },
                None => {
                    proof {
                        assert(decimal_value(p) == value * 10 + digit);
                        if all_digits(ds) {
                            lemma_decimal_value_grows(ds, (i + 1 - start) as int);
                        }
                        assert(parse_usize_spec(s@) is None);
                    }
                    return None;
                },
            },
            None => {
                proof {
                    assert(decimal_value(p) == value * 10 + digit);
                    if all_digits(ds) {
                        lemma_decimal_value_grows(ds, (i + 1 - start) as int);
                    }
                    assert(parse_usize_spec(s@) is None);
                }
                return None;
            },
        }
        i += 1;
    }
    proof {
        assert(ds.subrange(0, ds.len() as int) =~= ds);
    }
    Some(value)
}

/// The text `s` is the literal `lit`.
fn str_is(s: &str, lit: &str) -> (res: bool)
    ensures
        res == (s@ == lit@),
{
    let a = chars_of(s);
    let b = chars_of(lit);
    if a.len() != b.len() {
        return false;
    }
    let mut i: usize = 0;
    while i < a.len()
        invariant
            a@ == s@,
            b@ == lit@,
            a@.len() == b@.len(),
            0 <= i <= a@.len(),
            forall|j: int| 0 <= j < i ==> a@[j] == b@[j],
        decreases a@.len() - i,
    {
        if a[i] != b[i] {
            return false;
        }
        i += 1;
    }
    assert(a@ =~= b@);
    true
}

/// The fields of a test case as plain values, in declaration order.
pub open spec fn kat_fields(c: KyberTestCase) -> (
    nat,
    Seq<u8>,
    PolyVector<K>,
    PolyVector<K>,
    Seq<u8>,
    Seq<u8>,
    Seq<u8>,
    (PolyVector<K>, Vector<N>),
    Seq<u8>,
) {
    (c.count as nat, c.rho@, c.t, c.sk, c.pk_hash@, c.z@, c.rng_seed@, c.ct, c.ss@)
}

/// `t` is the vector packed 12 bits per coefficient in `bytes`, every modulus `Q`.
pub open spec fn is_parse12(t: PolyVector<K>, bytes: Seq<u8>) -> bool {
    &&& t.m == Q
    &&& forall|i: int| 0 <= i < K ==> #[trigger] t.c[i].m == Q
    &&& forall|i: int| 0 <= i < K ==> #[trigger] coeffs(t.c[i]) == parse12_poly(bytes, i)
}

/// `u` is the vector packed 10 bits per coefficient in `bytes`, every modulus `Q`.
pub open spec fn is_parse10(u: PolyVector<K>, bytes: Seq<u8>) -> bool {
    &&& u.m == Q
    &&& forall|i: int| 0 <= i < K ==> #[trigger] u.c[i].m == Q
    &&& forall|i: int| 0 <= i < K ==> #[trigger] coeffs(u.c[i]) == parse10_poly(bytes, i)
}

/// The value of the field `key` is one its parser accepts (the parsers of `pk`, `sk`
/// and `ct` want hexadecimal text with whole groups of packed bytes).
pub open spec fn kat_value_ok(key: Seq<char>, value: Seq<char>) -> bool {
    if key == "seed"@ || key == "ss"@ {
        hex_text(value)
    } else if key == "pk"@ {
        &&& hex_text(trimmed_part(value, 0, 2304))
        &&& hex_value(trimmed_part(value, 0, 2304)).len() % 3 == 0
        &&& hex_text(trimmed_rest(value, 2304))
    } else if key == "sk"@ {
        &&& hex_text(trimmed_part(value, 0, 2304))
        &&& hex_value(trimmed_part(value, 0, 2304)).len() % 3 == 0
        &&& hex_text(trimmed_part(value, 4672, 64))
        &&& hex_text(trimmed_part(value, 4736, 64))
    } else if key == "ct"@ {
        &&& hex_text(trimmed_part(value, 0, 1920))
        &&& hex_value(trimmed_part(value, 0, 1920)).len() % 5 == 0
        &&& hex_text(trimmed_rest(value, 1920))
        &&& hex_value(trimmed_rest(value, 1920)).len() <= 128
    } else {
        true
    }
}

/// What reading the field `key = value` of the test vector file does to the case being
/// read: `count` takes the number (0 if the text is not one), `seed`, `pk`, `sk`, `ct`
/// and `ss` take what their parsers give, any other key changes nothing.
pub open spec fn kat_field_effect(o: KyberTestCase, n: KyberTestCase, key: Seq<char>, value: Seq<char>) -> bool {
    let a = kat_fields(o);
    let b = kat_fields(n);
    if key == "count"@ {
        b == (
            match parse_usize_spec(value) {
                Some(v) => v,
                None => 0nat,
            },
            a.1,
            a.2,
            a.3,
            a.4,
            a.5,
            a.6,
            a.7,
            a.8,
        )
    } else if key == "seed"@ {
        b == (a.0, a.1, a.2, a.3, a.4, a.5, hex_value(value), a.7, a.8)
    } else if key == "pk"@ {
        &&& (b.0, b.3, b.4, b.5, b.6, b.7, b.8) == (a.0, a.3, a.4, a.5, a.6, a.7, a.8)
        &&& b.1 == hex_value(trimmed_rest(value, 2304))
        &&& is_parse12(b.2, hex_value(trimmed_part(value, 0, 2304)))
    } else if key == "sk"@ {
        &&& (b.0, b.1, b.2, b.6, b.7, b.8) == (a.0, a.1, a.2, a.6, a.7, a.8)
        &&& is_parse12(b.3, hex_value(trimmed_part(value, 0, 2304)))
        &&& b.4 == hex_value(trimmed_part(value, 4672, 64))
        &&& b.5 == hex_value(trimmed_part(value, 4736, 64))
    } else if key == "ct"@ {
        &&& (b.0, b.1, b.2, b.3, b.4, b.5, b.6, b.8) == (a.0, a.1, a.2, a.3, a.4, a.5, a.6, a.8)
        &&& is_parse10(b.7.0, hex_value(trimmed_part(value, 0, 1920)))
        &&& b.7.1.m == Q
        &&& coeffs(b.7.1) == parse4_poly(hex_value(trimmed_rest(value, 1920)))
    } else if key == "ss"@ {
        b == (a.0, a.1, a.2, a.3, a.4, a.5, a.6, a.7, hex_value(value))
    } else {
        b == a
    }
}

/// Reading a secret key field: the stored hash of the public key is the 32 bytes of the
/// hexadecimal digits 4672 .. 4736 of the trimmed value, and the rejection secret `z`
/// those of the digits 4736 .. 4800 (the key is `s || t || rho || H(pk) || z`).
pub proof fn lemma_kat_secret_key_field(o: KyberTestCase, n: KyberTestCase, value: Seq<char>)
    requires
        kat_field_effect(o, n, "sk"@, value),
    ensures
        n.pk_hash@ == hex_value(trimmed_part(value, 4672, 64)),
        n.z@ == hex_value(trimmed_part(value, 4736, 64)),
{
    reveal_strlit("count");
    reveal_strlit("seed");
    reveal_strlit("pk");
    reveal_strlit("sk");
    assert("sk"@.len() == 2 && "count"@.len() == 5 && "seed"@.len() == 4);
    assert("sk"@[0] != "pk"@[0]);
}

/// Reads the field `key = value` of a line of the known answer test file into the
/// case being read; returns whether the case is complete (`ss` is its last field).
pub fn parse_kat_field(current: &mut KyberTestCase, key: &str, value: &str) -> (complete: bool)
    requires
        kat_value_ok(key@, value@),
    ensures
        kat_field_effect(*old(current), *final(current), key@, value@),
        complete == (key@ == "ss"@),
        key@ == "sk"@ ==> final(current).pk_hash@ == hex_value(trimmed_part(value@, 4672, 64)),
        key@ == "sk"@ ==> final(current).z@ == hex_value(trimmed_part(value@, 4736, 64)),
        key@ == "pk"@ ==> final(current).rho@ == hex_value(trimmed_rest(value@, 2304)),
        key@ == "seed"@ ==> final(current).rng_seed@ == hex_value(value@),
        key@ == "ss"@ ==> final(current).ss@ == hex_value(value@),
{
    proof {
        reveal_strlit("count");
        reveal_strlit("seed");
        reveal_strlit("pk");
        reveal_strlit("sk");
        reveal_strlit("ct");
        reveal_strlit("ss");
        assert("sk"@.len() == 2 && "count"@.len() == 5 && "seed"@.len() == 4 && "ss"@.len() == 2);
        assert("sk"@[0] != "pk"@[0] && "ss"@[0] != "pk"@[0] && "ss"@[1] != "sk"@[1] && "ct"@[0] != "ss"@[0]);
    }
    let is_ss = str_is(key, "ss");
    if str_is(key, "count") {
        current.count = match parse_usize(value) {
            Some(v) => v,
            None => 0,
        };
    } else if str_is(key, "seed") {
        current.rng_seed = parse_AES_CTR_DRBG_seed(value);
    } else if str_is(key, "pk") {
        proof {
            assert("pk"@[0] != "ss"@[0]);
            assert(key@.len() != "seed"@.len());
        }
        let (seed, t) = parse_public_key(value);
        current.rho = seed;
        current.t = t;
    } else if str_is(key, "sk") {
        proof {
            assert("sk"@[1] != "ss"@[1]);
            assert("sk"@[0] != "pk"@[0]);
            assert(key@.len() != "seed"@.len());
        }
        current.sk = parse_secret_key(value);
        current.pk_hash = parse_pk_hash(value);
        current.z = parse_z(value);
    } else if str_is(key, "ct") {
        proof {
            assert("ct"@[0] != "ss"@[0]);
            assert("ct"@[0] != "pk"@[0]);
            assert("ct"@[0] != "sk"@[0]);
            assert(key@.len() != "seed"@.len());
        }
        current.ct = parse_cyphertext(value);
    } else if is_ss {
        current.ss = parse_shared_secret(value);
    }
    is_ss
}


/// The characters `a .. b` of `cs` are hexadecimal text.
fn hex_range_ok(cs: &Vec<char>, a: usize, b: usize) -> (ok: bool)
    requires
        a <= b <= cs@.len(),
    ensures
        ok == hex_text(cs@.subrange(a as int, b as int)),
{
    let ghost part = cs@.subrange(a as int, b as int);
    if (b - a) % 2 != 0 {
        return false;
    }
    let mut i: usize = a;
    while i < b
        invariant
            a <= i <= b <= cs@.len(),
            part == cs@.subrange(a as int, b as int),
            forall|j: int| a <= j < i ==> is_hex_char(#[trigger] cs@[j]),
        decreases b - i,
    {
        let c = cs[i];
        if !(('0' <= c && c <= '9') || ('a' <= c && c <= 'f') || ('A' <= c && c <= 'F')) {
            assert(!is_hex_char(part[i - a]));
            return false;
        }
        i += 1;
    }
    assert forall|j: int| 0 <= j < part.len() implies is_hex_char(#[trigger] part[j]) by {
        assert(part[j] == cs@[a + j]);
    }
    true
}

/// The characters `from .. from + count` of `cs` (fewer where it ends) are hexadecimal
/// text; also gives how many there are.
fn hex_window_ok(cs: &Vec<char>, from: usize, count: usize) -> (res: (bool, usize))
    requires
        from + count <= usize::MAX,
    ensures
        ({
            let a = if from <= cs@.len() { from as int } else { cs@.len() as int };
            let b = if from + count <= cs@.len() { (from + count) as int } else { cs@.len() as int };
            &&& res.0 == hex_text(cs@.subrange(a, b))
            &&& res.1 == b - a
        }),
{
    let a = min_usize(from, cs.len());
    let b = min_usize(from + count, cs.len());
    (hex_range_ok(cs, a, b), b - a)
}

/// The characters of the trimmed text from `from` on are hexadecimal text; also gives
/// how many there are.
fn hex_rest_ok(cs: &Vec<char>, from: usize) -> (res: (bool, usize))
    ensures
        ({
            let a = if from <= cs@.len() { from as int } else { cs@.len() as int };
            &&& res.0 == hex_text(cs@.subrange(a, cs@.len() as int))
            &&& res.1 == cs@.len() - a
        }),
{
    let a = min_usize(from, cs.len());
    (hex_range_ok(cs, a, cs.len()), cs.len() - a)
}

/// The bytes of hexadecimal text are half as many as its characters.
proof fn lemma_hex_value_len(cs: Seq<char>)
    ensures
        hex_value(cs).len() == cs.len() / 2,
{
}

/// Whether the value of a field of the test vector file is what the field's parser
/// reads (see `kat_value_ok`).
pub fn kat_value_check(key: &str, value: &str) -> (ok: bool)
    ensures
        ok == kat_value_ok(key@, value@),
{
    proof {
        reveal_strlit("seed");
        reveal_strlit("ss");
        reveal_strlit("pk");
        reveal_strlit("sk");
        reveal_strlit("ct");
    }
    let cs = chars_of(str_trim(value));
    let ghost t = trimmed(value@);
    proof {
        lemma_hex_value_len(trimmed_part(value@, 0, 2304));
        lemma_hex_value_len(trimmed_part(value@, 0, 1920));
        lemma_hex_value_len(trimmed_rest(value@, 1920));
    }
    if str_is(key, "seed") || str_is(key, "ss") {
        let all = chars_of(value);
        proof {
            assert(all@.subrange(0, all@.len() as int) =~= all@);
        }
        hex_range_ok(&all, 0, all.len())
    } else if str_is(key, "pk") {
        let (h0, n0) = hex_window_ok(&cs, 0, 2304);
        let (h1, _) = hex_rest_ok(&cs, 2304);
        h0 && (n0 / 2) % 3 == 0 && h1
    } else if str_is(key, "sk") {
        let (h0, n0) = hex_window_ok(&cs, 0, 2304);
        let (h1, _) = hex_window_ok(&cs, 4672, 64);
        let (h2, _) = hex_window_ok(&cs, 4736, 64);
        h0 && (n0 / 2) % 3 == 0 && h1 && h2
    } else if str_is(key, "ct") {
        let (h0, n0) = hex_window_ok(&cs, 0, 1920);
        let (h1, n1) = hex_rest_ok(&cs, 1920);
        h0 && (n0 / 2) % 5 == 0 && h1 && n1 / 2 <= 128
    } else {
        true
    }
}

/// Reads the field `key = value` into the case being read when its value is what the
/// field's parser reads (`Some`, with whether the case is complete), and leaves the
/// case unchanged otherwise (`None`).
pub fn try_parse_kat_field(current: &mut KyberTestCase, key: &str, value: &str) -> (res: Option<bool>)
    ensures
        res is Some <==> kat_value_ok(key@, value@),
        res matches Some(complete) ==> kat_field_effect(*old(current), *final(current), key@, value@)
            && complete == (key@ == "ss"@),
        res is None ==> *final(current) == *old(current),
{
    if kat_value_check(key, value) {
        Some(parse_kat_field(current, key, value))
    } else {
        None
    }
}

/// The index of the first `=` in `t` from `i` on, or its length if there is none.
pub open spec fn find_eq(t: Seq<char>, i: nat) -> nat
    decreases t.len() - i,
{
    if i >= t.len() {
        t.len()
    } else if t[i as int] == '=' {
        i
    } else {
        find_eq(t, i + 1)
    }
}

/// What a line of the test vector file holds: nothing for a blank line, a comment
/// (`#` first) or a line without `=`; else the key and the value on either side of
/// the first `=`, each trimmed.
pub open spec fn kat_line(line: Seq<char>) -> Option<(Seq<char>, Seq<char>)> {
    let t = trimmed(line);
    let p = find_eq(t, 0);
    if t.len() == 0 || t[0] == '#' || p >= t.len() {
        None
    } else {
        Some((trimmed(t.subrange(0, p as int)), trimmed(t.subrange((p + 1) as int, t.len() as int))))
    }
}

/// The string of the characters `a .. b` of `cs`.
fn string_of_chars(cs: &Vec<char>, a: usize, b: usize) -> (res: String)
    requires
        a <= b <= cs@.len(),
    ensures
        res@ == cs@.subrange(a as int, b as int),
{
    let mut out = String::new();
    let mut i = a;
    while i < b
        invariant
            a <= i <= b <= cs@.len(),
            out@ == cs@.subrange(a as int, i as int),
        decreases b - i,
    {
        string_push(&mut out, cs[i]);
        assert(cs@.subrange(a as int, i + 1) =~= cs@.subrange(a as int, i as int).push(cs@[i as int]));
        i += 1;
    }
    out
}

/// Splits a line of the test vector file into its key and value (see `kat_line`).
pub fn parse_kat_line(line: &str) -> (res: Option<(String, String)>)
    ensures
        match res {
            Some((k, v)) => kat_line(line@) == Some((k@, v@)),
            None => kat_line(line@) is None,
        },
{
    let t = chars_of(str_trim(line));
    if t.len() == 0 || t[0] == '#' {
        return None;
    }
    let mut p: usize = 0;
    while p < t.len() && t[p] != '='
        invariant
            0 <= p <= t@.len(),
            find_eq(t@, 0) == find_eq(t@, p as nat),
        decreases t@.len() - p,
    {
        p += 1;
    }
    if p >= t.len() {
        return None;
    }
    let key = string_of_chars(&t, 0, p);
    let value = string_of_chars(&t, p + 1, t.len());
    let k = str_trim(key.as_str());
    let v = str_trim(value.as_str());
    Some((k.to_string(), v.to_string()))
}


/// A case before any field is read: count 0, no bytes, and every polynomial zero with
/// modulus `Q`.
pub open spec fn is_blank_case(c: KyberTestCase) -> bool {
    &&& c.count == 0
    &&& c.rho@.len() == 0 && c.pk_hash@.len() == 0 && c.z@.len() == 0 && c.rng_seed@.len() == 0
        && c.ss@.len() == 0
    &&& c.t.m == Q && c.sk.m == Q && c.ct.0.m == Q && c.ct.1.m == Q
    &&& forall|i: int| 0 <= i < K ==> #[trigger] c.t.c[i].m == Q && c.sk.c[i].m == Q && c.ct.0.c[i].m == Q
    &&& forall|i: int, j: int|
        0 <= i < K && 0 <= j < N ==> #[trigger] c.t.c[i].c[j] == 0 && c.sk.c[i].c[j] == 0 && c.ct.0.c[i].c[j]
            == 0
    &&& forall|j: int| 0 <= j < N ==> #[trigger] c.ct.1.c[j] == 0
}

/// A case before any field is read.
pub fn blank_case() -> (res: KyberTestCase)
    ensures
        is_blank_case(res),
{
    KyberTestCase {
        count: 0,
        rho: Vec::new(),
        rng_seed: Vec::new(),
        t: empty_polyvector(),
        sk: empty_polyvector(),
        pk_hash: Vec::new(),
        z: Vec::new(),
        ct: (empty_polyvector(), empty_vector()),
        ss: Vec::new(),
    }
}

/// What one line of the test vector file does to the case being read: nothing for a
/// line without a field, else the effect of the field, whose value must be readable.
pub open spec fn kat_step(o: KyberTestCase, n: KyberTestCase, line: Seq<char>) -> bool {
    match kat_line(line) {
        None => n == o,
        Some((k, v)) => kat_value_ok(k, v) && kat_field_effect(o, n, k, v),
    }
}

/// The line holds a field whose value its parser cannot read.
pub open spec fn kat_line_fails(line: Seq<char>) -> bool {
    match kat_line(line) {
        Some((k, v)) => !kat_value_ok(k, v),
        None => false,
    }
}

/// The line holds the field `ss`, the last of a case.
pub open spec fn is_ss_line(line: Seq<char>) -> bool {
    match kat_line(line) {
        Some((k, v)) => k == "ss"@,
        None => false,
    }
}

/// The characters of each line.
pub open spec fn line_chars(lines: Seq<String>) -> Seq<Seq<char>> {
    Seq::new(lines.len(), |i: int| lines[i]@)
}

/// `states[i]` is the case being read before line `i`: it starts blank, and each line
/// takes it to the next.
pub open spec fn kat_trace(states: Seq<KyberTestCase>, lines: Seq<Seq<char>>) -> bool {
    &&& states.len() == lines.len() + 1
    &&& is_blank_case(states[0])
    &&& forall|j: int| 0 <= j < lines.len() ==> #[trigger] kat_step(states[j], states[j + 1], lines[j])
}

/// The cases completed by the first `n` lines: the case after each `ss` line.
pub open spec fn kat_collected(states: Seq<KyberTestCase>, lines: Seq<Seq<char>>, n: nat) -> Seq<KyberTestCase>
    decreases n,
{
    if n == 0 {
        Seq::empty()
    } else {
        let prev = kat_collected(states, lines, (n - 1) as nat);
        if is_ss_line(lines[n - 1]) {
            prev.push(states[n as int])
        } else {
            prev
        }
    }
}

/// The cases of the lines of a test vector file: `None` when a field's value cannot be
/// read; else the case completed at each `ss` line, the fields of the case being read
/// taking the values of the lines in turn.
pub fn parse_kat_lines(lines: &Vec<String>) -> (res: Option<Vec<KyberTestCase>>)
    ensures
        res is None <==> exists|i: int| 0 <= i < lines@.len() && kat_line_fails(#[trigger] lines@[i]@),
        res matches Some(cases) ==> exists|states: Seq<KyberTestCase>|
            #[trigger] kat_trace(states, line_chars(lines@)) && cases@.len() == kat_collected(
                states,
                line_chars(lines@),
                lines@.len(),
            ).len() && forall|j: int|
                0 <= j < cases@.len() ==> #[trigger] kat_fields(cases@[j]) == kat_fields(
                    kat_collected(states, line_chars(lines@), lines@.len())[j],
                ),
{
    let ghost ls = line_chars(lines@);
    let mut current = blank_case();
    let ghost mut states: Seq<KyberTestCase> = seq![current];
    let mut cases: Vec<KyberTestCase> = Vec::new();
    let mut i: usize = 0;
    while i < lines.len()
        invariant
            0 <= i <= lines@.len(),
            ls == line_chars(lines@),
            states.len() == i + 1,
            is_blank_case(states[0]),
            states.last() == current,
            forall|j: int| 0 <= j < i ==> #[trigger] kat_step(states[j], states[j + 1], ls[j]),
            forall|j: int| 0 <= j < i ==> !kat_line_fails(#[trigger] lines@[j]@),
            cases@.len() == kat_collected(states, ls, i as nat).len(),
            forall|j: int|
                0 <= j < cases@.len() ==> #[trigger] kat_fields(cases@[j]) == kat_fields(
                    kat_collected(states, ls, i as nat)[j],
                ),
        decreases lines@.len() - i,
    {
        let ghost old_states = states;
        let ghost old_current = current;
        assert(ls[i as int] == lines@[i as int]@);
        match parse_kat_line(lines[i].as_str()) {
            Some((key, value)) => {
                match try_parse_kat_field(&mut current, key.as_str(), value.as_str()) {
                    Some(complete) => {
                        proof {
                            states = states.push(current);
                        }
                        if complete {
                            cases.push(current.clone());
                        }
                    },
                    None => {
                        assert(kat_line_fails(lines@[i as int]@));
                        return None;
                    },
                }
            },
            None => {
                proof {
                    states = states.push(current);
                }
            },
        }
        proof {
            assert(states.last() == current);
            assert forall|j: int| 0 <= j <= i implies #[trigger] kat_step(states[j], states[j + 1], ls[j]) by {
                if j < i {
                    assert(states[j] == old_states[j] && states[j + 1] == old_states[j + 1]);
                }
            }
            assert(kat_collected(states, ls, i as nat) == kat_collected(old_states, ls, i as nat)) by {
                lemma_kat_collected_prefix(old_states, states, ls, i as nat);
            }
            let c = kat_collected(states, ls, (i + 1) as nat);
            assert forall|j: int| 0 <= j < cases@.len() implies #[trigger] kat_fields(cases@[j]) == kat_fields(c[j]) by {
                if j < kat_collected(states, ls, i as nat).len() {
                    assert(c[j] == kat_collected(states, ls, i as nat)[j]);
                }
            }
        }
        i += 1;
    }
    proof {
        assert(kat_trace(states, ls));
    }
    Some(cases)
}

/// The completed cases of the first `n` lines only depend on the first `n + 1` states.
proof fn lemma_kat_collected_prefix(a: Seq<KyberTestCase>, b: Seq<KyberTestCase>, ls: Seq<Seq<char>>, n: nat)
    requires
        a.len() == n + 1,
        b.len() >= n + 1,
        forall|j: int| 0 <= j <= n ==> #[trigger] b[j] == a[j],
    ensures
        kat_collected(b, ls, n) == kat_collected(a, ls, n),
    decreases n,
{
    if n > 0 {
        lemma_kat_collected_prefix(a.drop_last(), b, ls, (n - 1) as nat);
        assert(kat_collected(a.drop_last(), ls, (n - 1) as nat) == kat_collected(a, ls, (n - 1) as nat)) by {
            lemma_kat_collected_prefix(a.drop_last(), a, ls, (n - 1) as nat);
        }
    }
}

} // verus!
