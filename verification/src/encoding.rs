//! Byte encoding of polynomials (`ByteEncode_d` of ML-KEM): every coefficient
//! contributes its `d` low bits, least significant first, and the bit string is
//! cut into bytes, least significant bit first.
use vstd::prelude::*;
use vstd::arithmetic::power2::{pow2, lemma_pow2_unfold, lemma_pow2_pos, lemma2_to64};
use vstd::arithmetic::div_mod::*;
use vstd::bits::{lemma_u32_shr_is_div, lemma_u32_shl_is_mul};
use crate::math_utils::{Vector, PolyVector, coeffs, pv_model};

verus! {

/// Bit `j` of the nonnegative integer `x`.
pub open spec fn int_bit(x: int, j: nat) -> int {
    (x / (pow2(j) as int)) % 2
}

/// Bit `p` of the `d`-bit encoding of `coefs`: bit `p % d` of coefficient `p / d`.
pub open spec fn encoded_bit(coefs: Seq<int>, d: nat, p: int) -> int {
    int_bit(coefs[p / (d as int)], (p % (d as int)) as nat)
}

/// The number whose binary digits are the `count` bits of the encoding that start
/// at bit `start`, the first one least significant.
pub open spec fn bits_value(coefs: Seq<int>, d: nat, start: int, count: nat) -> int
    decreases count,
{
    if count == 0 {
        0
    } else {
        bits_value(coefs, d, start, (count - 1) as nat) + encoded_bit(coefs, d, start + count - 1)
            * pow2((count - 1) as nat)
    }
}

/// Eight bits of an encoding, as a number.
pub proof fn lemma_bits_value8(c: Seq<int>, d: nat, s: int)
    ensures
        bits_value(c, d, s, 8) == encoded_bit(c, d, s) + encoded_bit(c, d, s + 1) * 2 + encoded_bit(c, d, s + 2)
            * 4 + encoded_bit(c, d, s + 3) * 8 + encoded_bit(c, d, s + 4) * 16 + encoded_bit(c, d, s + 5) * 32
            + encoded_bit(c, d, s + 6) * 64 + encoded_bit(c, d, s + 7) * 128,
{
    lemma2_to64();
    assert(bits_value(c, d, s, 0) == 0);
    assert(bits_value(c, d, s, 1) == bits_value(c, d, s, 0) + encoded_bit(c, d, s) * pow2(0));
    assert(bits_value(c, d, s, 2) == bits_value(c, d, s, 1) + encoded_bit(c, d, s + 1) * pow2(1));
    assert(bits_value(c, d, s, 3) == bits_value(c, d, s, 2) + encoded_bit(c, d, s + 2) * pow2(2));
    assert(bits_value(c, d, s, 4) == bits_value(c, d, s, 3) + encoded_bit(c, d, s + 3) * pow2(3));
    assert(bits_value(c, d, s, 5) == bits_value(c, d, s, 4) + encoded_bit(c, d, s + 4) * pow2(4));
    assert(bits_value(c, d, s, 6) == bits_value(c, d, s, 5) + encoded_bit(c, d, s + 5) * pow2(5));
    assert(bits_value(c, d, s, 7) == bits_value(c, d, s, 6) + encoded_bit(c, d, s + 6) * pow2(6));
    assert(bits_value(c, d, s, 8) == bits_value(c, d, s, 7) + encoded_bit(c, d, s + 7) * pow2(7));
}

/// `ByteEncode_d`: byte `k` holds the bits `8k .. 8k + 8` of the encoding.
pub open spec fn byte_encode(coefs: Seq<int>, d: nat) -> Seq<u8> {
    Seq::new(coefs.len() * d / 8, |k: int| bits_value(coefs, d, 8 * k, 8) as u8)
}

/// The encodings of the polynomials of a vector, one after the other.
pub open spec fn pv_encode(x: Seq<Seq<int>>, d: nat) -> Seq<u8>
    decreases x.len(),
{
    if x.len() == 0 {
        Seq::empty()
    } else {
        pv_encode(x.drop_last(), d) + byte_encode(x.last(), d)
    }
}

pub proof fn lemma_bits_value_bound(coefs: Seq<int>, d: nat, start: int, count: nat)
    requires
        d > 0,
    ensures
        0 <= bits_value(coefs, d, start, count) < pow2(count),
    decreases count,
{
    lemma_pow2_pos(count);
    if count > 0 {
        lemma_bits_value_bound(coefs, d, start, (count - 1) as nat);
        lemma_pow2_unfold(count);
        let p = start + count - 1;
        lemma_mod_bound(coefs[p / (d as int)] / (pow2((p % (d as int)) as nat) as int), 2);
        let e = encoded_bit(coefs, d, p);
        assert(e == 0 || e == 1);
        if e == 0 {
            assert(e * pow2((count - 1) as nat) == 0);
        } else {
            assert(e * pow2((count - 1) as nat) == pow2((count - 1) as nat));
        }
    }
}

impl Vector<256> {
    /// `ByteEncode_d` of the polynomial: `32 * d` bytes holding the `d` low bits of
    /// every coefficient in turn, least significant bit first.
    pub fn encode(&self, d: usize) -> (res: Vec<u8>)
        requires
            1 <= d <= 24,
            forall|i: int| 0 <= i < 256 ==> 0 <= #[trigger] self.c[i],
        ensures
            res@ == byte_encode(coeffs(*self), d as nat),
            res@.len() == 32 * d,
    {
        let ghost cs = coeffs(*self);
        let mut out: Vec<u8> = Vec::new();
        let mut acc: u32 = 0;
        let total: usize = 256 * d;
        let mut p: usize = 0;
        proof {
            lemma2_to64();
        }
        while p < total
            invariant
                1 <= d <= 24,
                total == 256 * d,
                p <= total,
                cs == coeffs(*self),
                forall|i: int| 0 <= i < 256 ==> 0 <= #[trigger] self.c[i],
                out@.len() == p / 8,
                forall|k: int| 0 <= k < p / 8 ==> #[trigger] out@[k] == bits_value(cs, d as nat, 8 * k, 8) as u8,
                acc == bits_value(cs, d as nat, 8 * (p / 8), (p % 8) as nat),
                pow2(8) == 256,
            decreases total - p,
        {
            proof {
                lemma_div_by_multiple_is_strongly_ordered(p as int, total as int, 256, d as int);
                lemma_div_multiples_vanish(256, d as int);
                assert(d * 256 == 256 * d) by (nonlinear_arith);
            }
            let coef = self.c[p / d] as u32;
            let j = (p % d) as u32;
            let b = (p % 8) as u32;
            proof {
                lemma_u32_shr_is_div(coef, j);
                lemma_u32_pow2_facts(b);
                lemma_u32_shl_is_mul(1, b);
                lemma_bits_value_bound(cs, d as nat, 8 * (p / 8), (p % 8) as nat);
                lemma_mod_bound((coef >> j) as int, 2);
            }
            let bit = (coef >> j) % 2;
            let sh = 1u32 << b;
            proof {
                assert(bit * sh <= sh) by (nonlinear_arith)
                    requires bit <= 1;
            }
            acc = acc + bit * sh;
            proof {
                assert(cs[(p / d) as int] == coef);
                assert(bit == encoded_bit(cs, d as nat, p as int));
                assert(8 * (p / 8) + (p % 8) as nat + 1 - 1 == p);
                assert(acc == bits_value(cs, d as nat, 8 * (p / 8), (p % 8 + 1) as nat));
                lemma_bits_value_bound(cs, d as nat, 8 * (p / 8), (p % 8 + 1) as nat);
            }
            p += 1;
            if p % 8 == 0 {
                proof {
                    assert((p - 1) % 8 == 7);
                    assert((p - 1) / 8 == p / 8 - 1);
                }
                out.push(acc as u8);
                acc = 0;
            } else {
                proof {
                    assert((p - 1) / 8 == p / 8);
                    assert((p - 1) % 8 + 1 == p % 8);
                }
            }
        }
        proof {
            assert(cs.len() * (d as nat) / 8 == 32 * d);
        }
        assert(out@ =~= byte_encode(cs, d as nat));
        out
    }
}

/// `pow2(b)` fits the shifts of a byte's bits.
proof fn lemma_u32_pow2_facts(b: u32)
    requires
        b < 8,
    ensures
        1 * pow2(b as nat) <= u32::MAX,
        pow2(b as nat) <= 128,
{
    lemma2_to64();
    if b == 0 {
    } else if b == 1 {
    } else if b == 2 {
    } else if b == 3 {
    } else if b == 4 {
    } else if b == 5 {
    } else if b == 6 {
    } else {
    }
}

impl<const S: usize> PolyVector<S> {
    /// The encodings of the polynomials of the vector, one after the other.
    pub fn encode(&self, d: usize) -> (res: Vec<u8>)
        requires
            1 <= d <= 24,
            S <= 64,
            forall|i: int, j: int| 0 <= i < S && 0 <= j < 256 ==> 0 <= #[trigger] self.c[i].c[j],
        ensures
            res@ == pv_encode(pv_model(*self), d as nat),
    {
        let mut out: Vec<u8> = Vec::new();
        let mut i: usize = 0;
        while i < S
            invariant
                0 <= i <= S,
                1 <= d <= 24,
                forall|a: int, j: int| 0 <= a < S && 0 <= j < 256 ==> 0 <= #[trigger] self.c[a].c[j],
                out@ == pv_encode(pv_model(*self).subrange(0, i as int), d as nat),
            decreases S - i,
        {
            let bytes = self.c[i].encode(d);
            proof {
                let x = pv_model(*self).subrange(0, i as int + 1);
                assert(x.drop_last() =~= pv_model(*self).subrange(0, i as int));
                assert(x.last() == coeffs(self.c[i as int]));
            }
            out.extend_from_slice(bytes.as_slice());
            i += 1;
        }
        assert(pv_model(*self).subrange(0, S as int) =~= pv_model(*self));
        out
    }
}

} // verus!
