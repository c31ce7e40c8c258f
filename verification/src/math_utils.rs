//! Vectors and matrices over Z/mZ, vectors and matrices of polynomials of
//! degree 256, modular exponentiation, and modular multiplication in
//! Montgomery form for the modulus 3329.
use vstd::prelude::*;
use vstd::arithmetic::power::*;
use vstd::arithmetic::div_mod::*;
use vstd::arithmetic::mul::*;
use crate::parameters::{N, K, Q};
use crate::ntt::{poly_mult, basemul_spec, is_reduced};
use crate::arith::{
    mont_encode, mont_reduce, mont_to_standard, reduce_fits, lemma_mont_reduce, lemma_shr12,
    mont_product, lemma_mont_product, trunc_rem, lemma_trunc_rem, trunc_div, abs,
};

verus! {

/// A vector of `VECTOR_SIZE` integers (the coefficients of a polynomial when
/// `VECTOR_SIZE` is 256) with the modulus `m` of its additions.
#[derive(Copy, Clone, Debug, PartialEq, Eq)]
pub struct Vector<const VECTOR_SIZE: usize> {
    pub c: [i32; VECTOR_SIZE],
    pub m: i32,
}

/// The coefficients of a vector as mathematical integers. The modulus `m` is not part
/// of it: contracts state it on its own wherever it is fixed.
pub open spec fn coeffs<const S: usize>(v: Vector<S>) -> Seq<int> {
    Seq::new(S as nat, |i: int| v.c[i] as int)
}

/// Sum of the first `t` products `mont_product(a[i], b[i])` that `Vector::dot` adds up.
pub open spec fn dot_sum(a: Seq<i32>, b: Seq<i32>, t: int) -> int
    decreases t,
{
    if t <= 0 {
        0
    } else {
        dot_sum(a, b, t - 1) + mont_product(a[t - 1], b[t - 1])
    }
}

/// Sum of the first `t` products `a[i] * b[i] mod 3329`.
pub open spec fn dot_sum_mod(a: Seq<i32>, b: Seq<i32>, t: int) -> int
    decreases t,
{
    if t <= 0 {
        0
    } else {
        dot_sum_mod(a, b, t - 1) + (a[t - 1] * b[t - 1]) % 3329
    }
}

/// For entries in `[0, 2^19)`, each Montgomery product is the product modulo 3329.
pub proof fn lemma_dot_sum_mod(a: Seq<i32>, b: Seq<i32>, t: int)
    requires
        0 <= t <= a.len(),
        t <= b.len(),
        forall|i: int| 0 <= i < t ==> 0 <= #[trigger] a[i] < 524288 && 0 <= b[i] < 524288,
    ensures
        dot_sum(a, b, t) == dot_sum_mod(a, b, t),
    decreases t,
{
    if t > 0 {
        lemma_dot_sum_mod(a, b, t - 1);
        lemma_mont_product(a[t - 1], b[t - 1]);
    }
}

/// The zero polynomial, with the modulus `Q`.
pub fn empty_vector() -> (res: Vector<N>)
    ensures
        res.m == Q,
        forall|i: int| 0 <= i < N ==> #[trigger] res.c[i] == 0,
{
    Vector::new(&[0i32;256], Q)
}

/// The vector of `K` zero polynomials, each and the vector with the modulus `Q`.
pub fn empty_polyvector() -> (res: PolyVector<K>)
    ensures
        res.m == Q,
        forall|i: int| 0 <= i < K ==> #[trigger] res.c[i].m == Q,
        forall|i: int, j: int| 0 <= i < K && 0 <= j < N ==> #[trigger] res.c[i].c[j] == 0,
{
    PolyVector::new(&[Vector::new(&[0i32;256], Q);3], Q)
}

/// The `K x K` matrix of zero polynomials, every modulus `Q`.
pub fn empty_polymatrix() -> (res: PolyMatrix<K, K>)
    ensures
        res.m == Q,
        res.wf(),
        forall|i: int| 0 <= i < K ==> #[trigger] res.row_vecs[i].m == Q,
        forall|i: int| 0 <= i < K ==> #[trigger] res.col_vecs[i].m == Q,
        forall|i: int, j: int| 0 <= i < K && 0 <= j < K ==> #[trigger] res.row_vecs[i].c[j].m == Q,
        forall|i: int, j: int| 0 <= i < K && 0 <= j < K ==> #[trigger] res.col_vecs[i].c[j].m == Q,
        forall|i: int, j: int, l: int|
            0 <= i < K && 0 <= j < K && 0 <= l < N ==> #[trigger] res.row_vecs[i].c[j].c[l] == 0,
        forall|i: int, j: int, l: int|
            0 <= i < K && 0 <= j < K && 0 <= l < N ==> #[trigger] res.col_vecs[i].c[j].c[l] == 0,
{
    let row = PolyVector::new(&[Vector::new(&[0i32;256], Q);3], Q);
    PolyMatrix::new([row;3], Q)
}

/// The four bytes of the two's complement of `x`, least significant first (what
/// `i32::to_le_bytes` gives).
pub open spec fn i32_le_bytes(x: i32) -> Seq<u8> {
    let u = if x >= 0 { x as int } else { x + 0x1_0000_0000 };
    seq![(u % 256) as u8, ((u / 256) % 256) as u8, ((u / 65536) % 256) as u8, ((u / 16777216) % 256) as u8]
}

/// The little-endian bytes of every integer of `c` in turn.
pub open spec fn le_bytes_of(c: Seq<i32>) -> Seq<u8>
    decreases c.len(),
{
    if c.len() == 0 {
        Seq::empty()
    } else {
        le_bytes_of(c.drop_last()) + i32_le_bytes(c.last())
    }
}

/// Rust's `x % m` on `i32` is defined: `m` is not zero, and not `-1` with `x` the
/// least `i32` (that overflows).
pub open spec fn rem_defined(x: int, m: int) -> bool {
    m != 0 && !(m == -1 && x == i32::MIN)
}

/// The truncated remainder in terms of the Euclidean one, for a divisor of either sign.
pub proof fn lemma_signed_rem(x: int, m: int)
    requires
        m != 0,
    ensures
        trunc_rem(x, m) == (if x >= 0 { x % m } else { -((-x) % m) }),
{
    if m < 0 {
        lemma_mod_neg_divisor(x, m);
        lemma_mod_neg_divisor(-x, m);
    }
}

impl<const VECTOR_SIZE: usize> Vector<VECTOR_SIZE> {
    /// The coefficients as bytes: the 4 little-endian bytes of each in turn.
    pub fn get_bytes(&self) -> (res: Vec<u8>)
        ensures
            res@ == le_bytes_of(self.c@),
    {
        let mut ret: Vec<u8> = Vec::new();
        let mut i: usize = 0;
        while i < VECTOR_SIZE
            invariant
                0 <= i <= VECTOR_SIZE,
                ret@ == le_bytes_of(self.c@.subrange(0, i as int)),
            decreases VECTOR_SIZE - i,
        {
            let x = self.c[i];
            let u: u32 = if x >= 0 { x as u32 } else { (x as i64 + 0x1_0000_0000i64) as u32 };
            ret.push((u % 256) as u8);
            ret.push(((u / 256) % 256) as u8);
            ret.push(((u / 65536) % 256) as u8);
            ret.push(((u / 16777216) % 256) as u8);
            proof {
                let sub = self.c@.subrange(0, i as int + 1);
                assert(sub.drop_last() =~= self.c@.subrange(0, i as int));
                assert(sub.last() == x);
                assert(i32_le_bytes(x) =~= seq![(u % 256) as u8, ((u / 256) % 256) as u8, ((u / 65536) % 256) as u8, ((u / 16777216) % 256) as u8]);
            }
            i += 1;
        }
        assert(self.c@.subrange(0, VECTOR_SIZE as int) =~= self.c@);
        ret
    }

    pub fn new(val: &[i32; VECTOR_SIZE], _m: i32) -> (res: Vector<VECTOR_SIZE>)
        ensures
            res.c == *val,
            res.m == _m,
    {
        Vector { c: *val, m: _m }
    }

    pub fn set(&mut self, index: usize, v: i32)
        requires
            index < VECTOR_SIZE,
        ensures
            final(self).c@ == old(self).c@.update(index as int, v),
            final(self).m == old(self).m,
    {
        self.c[index] = v;
    }

    pub fn get(&self, index: usize) -> (res: i32)
        requires
            index < VECTOR_SIZE,
        ensures
            res == self.c[index as int],
    {
        self.c[index]
    }

    /// Multiplies every coefficient by `v` through Montgomery form modulo 3329
    /// (whatever the vector's modulus): `x * v mod 3329` for `0 <= x, v < 2^19`.
    pub fn scalar_mult(&mut self, v: i32)
        ensures
            final(self).m == old(self).m,
            forall|i: int|
                0 <= i < VECTOR_SIZE ==> #[trigger] final(self).c[i] == mont_product(v, old(self).c[i]),
            forall|i: int|
                0 <= i < VECTOR_SIZE ==> -3329 < #[trigger] final(self).c[i] < 3329,
            0 <= v < 524288 ==> forall|i: int|
                0 <= i < VECTOR_SIZE && 0 <= old(self).c[i] < 524288 ==> #[trigger] final(self).c[i]
                    == (v * old(self).c[i]) % 3329,
    {
        let ghost old_c = self.c;
        let mut i: usize = 0;
        while i < VECTOR_SIZE
            invariant
                0 <= i <= VECTOR_SIZE,
                self.m == old(self).m,
                old_c == old(self).c,
                forall|j: int| i <= j < VECTOR_SIZE ==> self.c[j] == old_c[j],
                forall|j: int| 0 <= j < i ==> #[trigger] self.c[j] == mont_product(v, old_c[j]),
                forall|j: int| 0 <= j < i ==> -3329 < #[trigger] self.c[j] < 3329,
                0 <= v < 524288 ==> forall|j: int|
                    0 <= j < i && 0 <= old_c[j] < 524288 ==> #[trigger] self.c[j] == (v * old_c[j])
                        % 3329,
            decreases VECTOR_SIZE - i,
        {
            proof {
                lemma_mont_product(v, self.c[i as int]);
            }
            let tmp = MontgomeryForm::new(v);
            self.c[i] = tmp.mult(self.c[i]).to_standard();
            i += 1;
        }
    }

    /// Adds `v2` coefficient by coefficient, each sum reduced with Rust's `%` by the
    /// (positive) modulus `m`.
    pub fn add(&mut self, v2: Vector<VECTOR_SIZE>)
        requires
            forall|i: int|
                0 <= i < VECTOR_SIZE ==> i32::MIN <= #[trigger] old(self).c[i] + v2.c[i] <= i32::MAX
                    && rem_defined(old(self).c[i] + v2.c[i], old(self).m as int),
        ensures
            final(self).m == old(self).m,
            forall|i: int|
                0 <= i < VECTOR_SIZE ==> #[trigger] final(self).c[i] == trunc_rem(
                    old(self).c[i] + v2.c[i],
                    old(self).m as int,
                ),
    {
        let ghost old_c = self.c;
        let mut i: usize = 0;
        while i < VECTOR_SIZE
            invariant
                0 <= i <= VECTOR_SIZE,
                self.m == old(self).m,
                old_c == old(self).c,
                forall|j: int|
                    #![trigger old_c[j]]
                    0 <= j < VECTOR_SIZE ==> i32::MIN <= old_c[j] + v2.c[j] <= i32::MAX && rem_defined(
                        old_c[j] + v2.c[j],
                        self.m as int,
                    ),
                forall|j: int| i <= j < VECTOR_SIZE ==> self.c[j] == old_c[j],
                forall|j: int|
                    0 <= j < i ==> #[trigger] self.c[j] == trunc_rem(old_c[j] + v2.c[j], self.m as int),
            decreases VECTOR_SIZE - i,
        {
            proof {
                assert(i32::MIN <= old_c[i as int] + v2.c[i as int] <= i32::MAX);
                assert(rem_defined(old_c[i as int] + v2.c[i as int], self.m as int));
                lemma_signed_rem(old_c[i as int] + v2.c[i as int], self.m as int);
            }
            self.c[i] = (self.c[i] + v2.c[i]) % self.m;
            i += 1;
        }
    }

    /// Subtracts `v2` coefficient by coefficient modulo `m`, each difference
    /// reduced into `[0, m)`.
    pub fn sub(&mut self, v2: Vector<VECTOR_SIZE>)
        requires
            old(self).m > 0,
            forall|i: int|
                0 <= i < VECTOR_SIZE ==> i32::MIN <= #[trigger] old(self).c[i] - v2.c[i] <= i32::MAX,
        ensures
            final(self).m == old(self).m,
            forall|i: int|
                0 <= i < VECTOR_SIZE ==> #[trigger] final(self).c[i] == (old(self).c[i] - v2.c[i])
                    % (old(self).m as int),
    {
        let ghost old_c = self.c;
        let mut i: usize = 0;
        while i < VECTOR_SIZE
            invariant
                0 <= i <= VECTOR_SIZE,
                self.m == old(self).m,
                self.m > 0,
                old_c == old(self).c,
                forall|j: int|
                    #![trigger old_c[j]]
                    0 <= j < VECTOR_SIZE ==> i32::MIN <= old_c[j] - v2.c[j] <= i32::MAX,
                forall|j: int| i <= j < VECTOR_SIZE ==> self.c[j] == old_c[j],
                forall|j: int|
                    0 <= j < i ==> #[trigger] self.c[j] == (old_c[j] - v2.c[j]) % (self.m as int),
            decreases VECTOR_SIZE - i,
        {
            proof {
                assert(i32::MIN <= old_c[i as int] - v2.c[i as int] <= i32::MAX);
            }
            let d = (self.c[i] - v2.c[i]) % self.m;
            proof {
                let x = old_c[i as int] - v2.c[i as int];
                lemma_trunc_rem(x, self.m as int);
                lemma_mod_bound(x, self.m as int);
                if x >= 0 {
                } else {
                    // d == x - m * w with -m < d <= 0
                    lemma_fundamental_div_mod(x, self.m as int);
                    let w = lemma_trunc_rem(x, self.m as int);
                    let m = self.m as int;
                    assert(x == m * (w - 1) + (d + m)) by (nonlinear_arith)
                        requires x - d == m * w;
                    if d < 0 {
                        lemma_fundamental_div_mod_converse(x, self.m as int, w - 1, d + self.m);
                    } else {
                        lemma_fundamental_div_mod_converse(x, self.m as int, w, 0);
                    }
                }
            }
            if d < 0 {
                self.c[i] = d + self.m;
            } else {
                self.c[i] = d;
            }
            i += 1;
        }
    }

    /// Dot product: the sum of the coefficientwise products taken through Montgomery
    /// form modulo 3329, then reduced with Rust's `%` by `m`. For coefficients in
    /// `[0, 2^19)` each product is `x * y mod 3329`.
    pub fn dot(&mut self, v2: Vector<VECTOR_SIZE>) -> (res: i32)
        requires
            rem_defined(dot_sum(old(self).c@, v2.c@, VECTOR_SIZE as int), old(self).m as int),
            forall|t: int|
                0 <= t <= VECTOR_SIZE ==> i32::MIN < #[trigger] dot_sum(old(self).c@, v2.c@, t)
                    <= i32::MAX,
        ensures
            *final(self) == *old(self),
            res == trunc_rem(dot_sum(old(self).c@, v2.c@, VECTOR_SIZE as int), old(self).m as int),
            (forall|i: int|
                0 <= i < VECTOR_SIZE ==> 0 <= #[trigger] old(self).c[i] < 524288 && 0 <= v2.c[i]
                    < 524288) ==> res == trunc_rem(
                dot_sum_mod(old(self).c@, v2.c@, VECTOR_SIZE as int),
                old(self).m as int,
            ),
    {
        let mut ret: i32 = 0;
        let mut i: usize = 0;
        while i < VECTOR_SIZE
            invariant
                0 <= i <= VECTOR_SIZE,
                *self == *old(self),
                rem_defined(dot_sum(self.c@, v2.c@, VECTOR_SIZE as int), self.m as int),
                forall|t: int|
                    0 <= t <= VECTOR_SIZE ==> i32::MIN < #[trigger] dot_sum(self.c@, v2.c@, t)
                        <= i32::MAX,
                ret == dot_sum(self.c@, v2.c@, i as int),
            decreases VECTOR_SIZE - i,
        {
            proof {
                lemma_mont_product(self.c[i as int], v2.c[i as int]);
                assert(dot_sum(self.c@, v2.c@, i + 1) == dot_sum(self.c@, v2.c@, i as int)
                    + mont_product(self.c@[i as int], v2.c@[i as int]));
            }
            let tmp = MontgomeryForm::new(self.c[i]);
            ret += tmp.mult(v2.c[i]).to_standard();
            i += 1;
        }
        proof {
            if forall|i: int|
                0 <= i < VECTOR_SIZE ==> 0 <= #[trigger] self.c[i] < 524288 && 0 <= v2.c[i] < 524288 {
                lemma_dot_sum_mod(self.c@, v2.c@, VECTOR_SIZE as int);
            }
            lemma_signed_rem(ret as int, self.m as int);
        }
        ret % self.m
    }
}

/// A vector of `VECTOR_SIZE` polynomials of 256 coefficients, with a modulus `m`.
#[derive(Copy, Clone, Debug, PartialEq, Eq)]
pub struct PolyVector<const VECTOR_SIZE: usize> {
    pub c: [Vector<256>; VECTOR_SIZE],
    pub m: i32,
}

/// Coefficient `j` of the sum of the first `t` products `basemul(a[i], b[i])`,
/// reduced modulo 3329 after each addition.
pub open spec fn ntt_dot_coef(a: Seq<Seq<int>>, b: Seq<Seq<int>>, t: int, j: int) -> int
    decreases t,
{
    if t <= 0 {
        0
    } else {
        (ntt_dot_coef(a, b, t - 1, j) + basemul_spec(a[t - 1], b[t - 1])[j]) % 3329
    }
}

/// The polynomials of a vector, each as the sequence of its coefficients. The moduli of
/// the vector and of its polynomials are not part of it: contracts state them on their
/// own wherever they are fixed.
pub open spec fn pv_model<const S: usize>(v: PolyVector<S>) -> Seq<Seq<int>> {
    Seq::new(S as nat, |i: int| coeffs(v.c[i]))
}

/// Every polynomial of the vector has its coefficients in `[0, 3329)`.
pub open spec fn all_reduced<const S: usize>(v: PolyVector<S>) -> bool {
    forall|t: int| 0 <= t < S ==> #[trigger] is_reduced(v.c[t])
}

/// Adding `v2` to `v` with `Vector::add` on every polynomial cannot overflow.
pub open spec fn poly_add_fits<const S: usize>(v: PolyVector<S>, v2: PolyVector<S>) -> bool {
    forall|t: int, i: int|
        0 <= t < S && 0 <= i < 256 ==> i32::MIN <= #[trigger] v.c[t].c[i] + #[trigger] v2.c[t].c[i]
            <= i32::MAX
}

impl<const VECTOR_SIZE: usize> PolyVector<VECTOR_SIZE> {
    pub fn new(val: &[Vector<256>; VECTOR_SIZE], _m: i32) -> (res: PolyVector<VECTOR_SIZE>)
        ensures
            res.c == *val,
            res.m == _m,
    {
        PolyVector { c: *val, m: _m }
    }

    pub fn set(&mut self, index: usize, v: Vector<256>)
        requires
            index < VECTOR_SIZE,
        ensures
            final(self).c@ == old(self).c@.update(index as int, v),
            final(self).m == old(self).m,
    {
        self.c[index] = v;
    }

    pub fn get(&self, index: usize) -> (res: Vector<256>)
        requires
            index < VECTOR_SIZE,
        ensures
            res == self.c[index as int],
    {
        self.c[index]
    }

    /// Adds `v2` polynomial by polynomial with `Vector::add`.
    pub fn add(&mut self, v2: PolyVector<VECTOR_SIZE>)
        requires
            forall|t: int, i: int|
                0 <= t < VECTOR_SIZE && 0 <= i < 256 ==> rem_defined(
                    #[trigger] old(self).c[t].c[i] + #[trigger] v2.c[t].c[i],
                    old(self).c[t].m as int,
                ),
            poly_add_fits(*old(self), v2),
        ensures
            final(self).m == old(self).m,
            forall|t: int| 0 <= t < VECTOR_SIZE ==> #[trigger] final(self).c[t].m == old(self).c[t].m,
            forall|t: int, i: int|
                0 <= t < VECTOR_SIZE && 0 <= i < 256 ==> #[trigger] final(self).c[t].c[i] == trunc_rem(
                    old(self).c[t].c[i] + v2.c[t].c[i],
                    old(self).c[t].m as int,
                ),
    {
        let ghost old_self = *self;
        let mut k: usize = 0;
        while k < VECTOR_SIZE
            invariant
                0 <= k <= VECTOR_SIZE,
                old_self == *old(self),
                self.m == old_self.m,
                forall|t: int, i: int|
                    0 <= t < VECTOR_SIZE && 0 <= i < 256 ==> rem_defined(
                        #[trigger] old_self.c[t].c[i] + #[trigger] v2.c[t].c[i],
                        old_self.c[t].m as int,
                    ),
                poly_add_fits(old_self, v2),
                forall|t: int| k <= t < VECTOR_SIZE ==> #[trigger] self.c[t] == old_self.c[t],
                forall|t: int| 0 <= t < VECTOR_SIZE ==> #[trigger] self.c[t].m == old_self.c[t].m,
                forall|t: int, i: int|
                    0 <= t < k && 0 <= i < 256 ==> #[trigger] self.c[t].c[i] == trunc_rem(
                        old_self.c[t].c[i] + v2.c[t].c[i],
                        old_self.c[t].m as int,
                    ),
            decreases VECTOR_SIZE - k,
        {
            proof {
                assert forall|i: int| 0 <= i < 256 implies i32::MIN <= #[trigger] self.c[k as int].c[i]
                    + v2.c[k as int].c[i] <= i32::MAX && rem_defined(
                    self.c[k as int].c[i] + v2.c[k as int].c[i],
                    self.c[k as int].m as int,
                ) by {
                    assert(i32::MIN <= old_self.c[k as int].c[i] + v2.c[k as int].c[i] <= i32::MAX);
                    assert(rem_defined(old_self.c[k as int].c[i] + v2.c[k as int].c[i], old_self.c[k as int].m as int));
                }
            }
            self.c[k].add(v2.c[k]);
            k += 1;
        }
    }

    /// Dot product of two vectors of transformed polynomials: the sum of the products
    /// `poly_mult(self[i], v2[i])`, reduced modulo 3329; the result is a transformed
    /// polynomial with the modulus of `self`.
    pub fn ntt_dot(&self, v2: PolyVector<VECTOR_SIZE>) -> (res: Vector<256>)
        requires
            all_reduced(*self),
            all_reduced(v2),
        ensures
            res.m == self.m,
            is_reduced(res),
            forall|j: int|
                0 <= j < 256 ==> #[trigger] res.c[j] == ntt_dot_coef(
                    pv_model(*self),
                    pv_model(v2),
                    VECTOR_SIZE as int,
                    j,
                ),
    {
        let mut ret: Vector<256> = Vector::new(&[0i32;256], self.m);
        let mut poly_index: usize = 0;
        while poly_index < VECTOR_SIZE
            invariant
                0 <= poly_index <= VECTOR_SIZE,
                all_reduced(*self),
                all_reduced(v2),
                ret.m == self.m,
                forall|j: int|
                    0 <= j < 256 ==> #[trigger] ret.c[j] == ntt_dot_coef(
                    pv_model(*self),
                    pv_model(v2),
                        poly_index as int,
                        j,
                    ),
            decreases VECTOR_SIZE - poly_index,
        {
            proof {
                assert(is_reduced(self.c[poly_index as int]));
                assert(is_reduced(v2.c[poly_index as int]));
            }
            let tmp: Vector<256> = poly_mult(self.c[poly_index], v2.c[poly_index]);
            let ghost pre = ret;
            let mut j: usize = 0;
            while j < 256
                invariant
                    0 <= j <= 256,
                    0 <= poly_index < VECTOR_SIZE,
                    ret.m == self.m,
                    is_reduced(tmp),
                    coeffs(tmp) == basemul_spec(
                        coeffs(self.c[poly_index as int]),
                        coeffs(v2.c[poly_index as int]),
                    ),
                    forall|t: int| j <= t < 256 ==> #[trigger] ret.c[t] == pre.c[t],
                    forall|t: int|
                        0 <= t < 256 ==> #[trigger] pre.c[t] == ntt_dot_coef(
                    pv_model(*self),
                    pv_model(v2),
                            poly_index as int,
                            t,
                        ),
                    forall|t: int|
                        0 <= t < j ==> #[trigger] ret.c[t] == ntt_dot_coef(
                    pv_model(*self),
                    pv_model(v2),
                            poly_index + 1,
                            t,
                        ),
                decreases 256 - j,
            {
                proof {
                    lemma_ntt_dot_coef_bound(pv_model(*self), pv_model(v2), poly_index as int, j as int);
                    assert(coeffs(tmp)[j as int] == tmp.c[j as int]);
                }
                ret.c[j] = (ret.c[j] + tmp.c[j]) % 3329;
                j += 1;
            }
            poly_index += 1;
        }
        proof {
            assert forall|j: int| 0 <= j < 256 implies 0 <= #[trigger] ret.c[j] < 3329 by {
                lemma_ntt_dot_coef_bound(pv_model(*self), pv_model(v2), VECTOR_SIZE as int, j);
            }
        }
        ret
    }

    /// Multiplies every polynomial by `v` with `Vector::scalar_mult`.
    pub fn scalar_mult(&mut self, v: i32)
        ensures
            final(self).m == old(self).m,
            forall|t: int| 0 <= t < VECTOR_SIZE ==> #[trigger] final(self).c[t].m == old(self).c[t].m,
            forall|t: int, i: int|
                0 <= t < VECTOR_SIZE && 0 <= i < 256 ==> #[trigger] final(self).c[t].c[i]
                    == mont_product(v, old(self).c[t].c[i]),
    {
        let ghost old_self = *self;
        let mut k: usize = 0;
        while k < VECTOR_SIZE
            invariant
                0 <= k <= VECTOR_SIZE,
                old_self == *old(self),
                self.m == old_self.m,
                forall|t: int| k <= t < VECTOR_SIZE ==> #[trigger] self.c[t] == old_self.c[t],
                forall|t: int| 0 <= t < VECTOR_SIZE ==> #[trigger] self.c[t].m == old_self.c[t].m,
                forall|t: int, i: int|
                    0 <= t < k && 0 <= i < 256 ==> #[trigger] self.c[t].c[i] == mont_product(
                        v,
                        old_self.c[t].c[i],
                    ),
            decreases VECTOR_SIZE - k,
        {
            self.c[k].scalar_mult(v);
            k += 1;
        }
    }
}

/// The accumulated dot product stays in `[0, 3329)`.
pub proof fn lemma_ntt_dot_coef_bound(a: Seq<Seq<int>>, b: Seq<Seq<int>>, t: int, j: int)
    ensures
        0 <= ntt_dot_coef(a, b, t, j) < 3329,
        t >= 0 ==> ntt_dot_coef(a, b, t + 1, j) == (ntt_dot_coef(a, b, t, j) + basemul_spec(
            a[t],
            b[t],
        )[j]) % 3329,
    decreases t,
{
    if t > 0 {
        lemma_ntt_dot_coef_bound(a, b, t - 1, j);
        lemma_mod_bound(
            ntt_dot_coef(a, b, t - 1, j) + basemul_spec(a[t - 1], b[t - 1])[j],
            3329,
        );
    }
}

/// The sums `Vector::dot` accumulates over `a` and `b` all fit in an `i32`.
pub open spec fn dot_fits(a: Seq<i32>, b: Seq<i32>) -> bool {
    forall|t: int| 0 <= t <= a.len() ==> i32::MIN < #[trigger] dot_sum(a, b, t) <= i32::MAX
}

/// A matrix of integers, held both as its rows and as its columns.
#[derive(Copy, Clone, Debug)]
pub struct Matrix<const RN: usize, const CN: usize> {
    pub row_vecs: [Vector<CN>; RN],
    pub col_vecs: [Vector<RN>; CN],
    pub m: i32,
}

impl<const RN: usize, const CN: usize> Matrix<RN, CN> {
    /// The rows and the columns hold the same entries.
    pub open spec fn wf(self) -> bool {
        forall|r: int, c: int|
            0 <= r < RN && 0 <= c < CN ==> #[trigger] self.row_vecs[r].c[c]
                == #[trigger] self.col_vecs[c].c[r]
    }

    /// Builds the matrix from its rows; the columns are read from them.
    pub fn new(val: [[i32; CN]; RN], _m: i32) -> (res: Matrix<RN, CN>)
        ensures
            res.m == _m,
            forall|r: int| 0 <= r < RN ==> #[trigger] res.row_vecs[r].m == _m,
            forall|c: int| 0 <= c < CN ==> #[trigger] res.col_vecs[c].m == _m,
            forall|r: int| 0 <= r < RN ==> #[trigger] res.row_vecs[r].c == val[r],
            forall|r: int, c: int|
                0 <= r < RN && 0 <= c < CN ==> #[trigger] res.col_vecs[c].c[r] == val[r][c],
            res.wf(),
    {
        let mut r_v: [Vector<CN>; RN] = [Vector::new(&[0i32;CN], _m);RN];
        let mut c_v: [Vector<RN>; CN] = [Vector::new(&[0i32;RN], _m);CN];
        let mut i: usize = 0;
        while i < RN
            invariant
                0 <= i <= RN,
                forall|r: int| 0 <= r < RN ==> #[trigger] r_v[r].m == _m,
                forall|r: int| 0 <= r < i ==> #[trigger] r_v[r].c == val[r],
            decreases RN - i,
        {
            r_v[i] = Vector::new(&val[i], _m);
            i += 1;
        }
        let mut i: usize = 0;
        while i < CN
            invariant
                0 <= i <= CN,
                forall|c: int| 0 <= c < CN ==> #[trigger] c_v[c].m == _m,
                forall|r: int, c: int|
                    0 <= r < RN && 0 <= c < i ==> #[trigger] c_v[c].c[r] == val[r][c],
            decreases CN - i,
        {
            let mut j: usize = 0;
            while j < RN
                invariant
                    0 <= i < CN,
                    0 <= j <= RN,
                    forall|c: int| 0 <= c < CN ==> #[trigger] c_v[c].m == _m,
                    forall|r: int, c: int|
                        0 <= r < RN && 0 <= c < i ==> #[trigger] c_v[c].c[r] == val[r][c],
                    forall|r: int| 0 <= r < j ==> #[trigger] c_v[i as int].c[r] == val[r][i as int],
                decreases RN - j,
            {
                c_v[i].c[j] = val[j][i];
                j += 1;
            }
            i += 1;
        }
        Matrix { col_vecs: c_v, row_vecs: r_v, m: _m }
    }

    /// Product with a column vector: entry `i` is `row_i.dot(v)`.
    pub fn mult_vec(&mut self, v: Vector<CN>) -> (res: Vector<RN>)
        requires
            forall|i: int|
                0 <= i < RN ==> rem_defined(
                    dot_sum(#[trigger] old(self).row_vecs[i].c@, v.c@, CN as int),
                    old(self).row_vecs[i].m as int,
                ),
            forall|i: int| 0 <= i < RN ==> dot_fits(#[trigger] old(self).row_vecs[i].c@, v.c@),
        ensures
            *final(self) == *old(self),
            res.m == old(self).m,
            forall|i: int|
                0 <= i < RN ==> #[trigger] res.c[i] == trunc_rem(
                    dot_sum(old(self).row_vecs[i].c@, v.c@, CN as int),
                    old(self).row_vecs[i].m as int,
                ),
    {
        let mut ret: Vector<RN> = Vector::new(&[0i32;RN], self.m);
        let mut i: usize = 0;
        while i < RN
            invariant
                0 <= i <= RN,
                *self == *old(self),
                ret.m == self.m,
                forall|i: int|
                    0 <= i < RN ==> rem_defined(
                        dot_sum(#[trigger] self.row_vecs[i].c@, v.c@, CN as int),
                        self.row_vecs[i].m as int,
                    ),
                forall|i: int| 0 <= i < RN ==> dot_fits(#[trigger] self.row_vecs[i].c@, v.c@),
                forall|t: int|
                    0 <= t < i ==> #[trigger] ret.c[t] == trunc_rem(
                        dot_sum(self.row_vecs[t].c@, v.c@, CN as int),
                        self.row_vecs[t].m as int,
                    ),
            decreases RN - i,
        {
            proof {
                assert(dot_fits(self.row_vecs[i as int].c@, v.c@));
                assert(rem_defined(dot_sum(self.row_vecs[i as int].c@, v.c@, CN as int), self.row_vecs[i as int].m as int));
            }
            let mut row = self.row_vecs[i];
            ret.c[i] = row.dot(v);
            i += 1;
        }
        ret
    }

    /// Product of two square matrices: entry `(i, j)` is `row_i.dot(col_j of b)`;
    /// the result is held consistently by rows and by columns.
    #[allow(non_snake_case)]
    pub fn matmul(&mut self, B: Matrix<CN, RN>) -> (res: Matrix<CN, RN>)
        requires
            RN == CN,
            forall|i: int, j: int|
                0 <= i < RN && 0 <= j < CN ==> rem_defined(
                    dot_sum(#[trigger] old(self).row_vecs[i].c@, #[trigger] B.col_vecs[j].c@, CN as int),
                    old(self).row_vecs[i].m as int,
                ),
            forall|i: int, j: int|
                0 <= i < RN && 0 <= j < CN ==> dot_fits(
                    #[trigger] old(self).row_vecs[i].c@,
                    #[trigger] B.col_vecs[j].c@,
                ),
        ensures
            *final(self) == *old(self),
            res.wf(),
            res.m == old(self).m,
            forall|i: int, j: int|
                0 <= i < RN && 0 <= j < CN ==> #[trigger] res.row_vecs[i].c[j] == trunc_rem(
                    dot_sum(old(self).row_vecs[i].c@, B.col_vecs[j].c@, CN as int),
                    old(self).row_vecs[i].m as int,
                ),
    {
        let mut ret: Matrix<CN, RN> = Matrix::new([[0i32;RN];CN], self.m);
        let mut i: usize = 0;
        while i < RN
            invariant
                RN == CN,
                0 <= i <= RN,
                *self == *old(self),
                ret.m == self.m,
                forall|i: int, j: int|
                    0 <= i < RN && 0 <= j < CN ==> rem_defined(
                        dot_sum(#[trigger] self.row_vecs[i].c@, #[trigger] B.col_vecs[j].c@, CN as int),
                        self.row_vecs[i].m as int,
                    ),
                forall|i: int, j: int|
                    0 <= i < RN && 0 <= j < CN ==> dot_fits(
                        #[trigger] self.row_vecs[i].c@,
                        #[trigger] B.col_vecs[j].c@,
                    ),
                ret.wf(),
                forall|t: int, j: int|
                    0 <= t < i && 0 <= j < CN ==> #[trigger] ret.row_vecs[t].c[j] == trunc_rem(
                        dot_sum(self.row_vecs[t].c@, B.col_vecs[j].c@, CN as int),
                        self.row_vecs[t].m as int,
                    ),
            decreases RN - i,
        {
            let mut j: usize = 0;
            while j < CN
                invariant
                    RN == CN,
                    0 <= i < RN,
                    0 <= j <= CN,
                    *self == *old(self),
                    ret.m == self.m,
                    forall|i: int, j: int|
                        0 <= i < RN && 0 <= j < CN ==> rem_defined(
                            dot_sum(#[trigger] self.row_vecs[i].c@, #[trigger] B.col_vecs[j].c@, CN as int),
                            self.row_vecs[i].m as int,
                        ),
                    forall|i: int, j: int|
                        0 <= i < RN && 0 <= j < CN ==> dot_fits(
                            #[trigger] self.row_vecs[i].c@,
                            #[trigger] B.col_vecs[j].c@,
                        ),
                    ret.wf(),
                    forall|t: int, j: int|
                        0 <= t < i && 0 <= j < CN ==> #[trigger] ret.row_vecs[t].c[j] == trunc_rem(
                            dot_sum(self.row_vecs[t].c@, B.col_vecs[j].c@, CN as int),
                            self.row_vecs[t].m as int,
                        ),
                    forall|u: int|
                        0 <= u < j ==> #[trigger] ret.row_vecs[i as int].c[u] == trunc_rem(
                            dot_sum(self.row_vecs[i as int].c@, B.col_vecs[u].c@, CN as int),
                            self.row_vecs[i as int].m as int,
                        ),
                decreases CN - j,
            {
                proof {
                    assert(dot_fits(self.row_vecs[i as int].c@, B.col_vecs[j as int].c@));
                    assert(rem_defined(
                        dot_sum(self.row_vecs[i as int].c@, B.col_vecs[j as int].c@, CN as int),
                        self.row_vecs[i as int].m as int,
                    ));
                }
                let mut row = self.row_vecs[i];
                let d = row.dot(B.col_vecs[j]);
                ret.row_vecs[i].c[j] = d;
                ret.col_vecs[j].c[i] = ret.row_vecs[i].c[j];
                j += 1;
            }
            i += 1;
        }
        ret
    }

    /// Replaces row `row_index` and writes its entries into the columns.
    pub fn set_row(&mut self, row_index: usize, v: Vector<CN>)
        requires
            row_index < RN,
        ensures
            final(self).m == old(self).m,
            final(self).row_vecs@ == old(self).row_vecs@.update(row_index as int, v),
            forall|c: int| 0 <= c < CN ==> #[trigger] final(self).col_vecs[c].m == old(self).col_vecs[c].m,
            forall|c: int|
                0 <= c < CN ==> #[trigger] final(self).col_vecs[c].c@ == old(self).col_vecs[c].c@.update(
                    row_index as int,
                    v.c[c],
                ),
            old(self).wf() ==> final(self).wf(),
    {
        self.row_vecs[row_index] = v;
        let ghost cols = self.col_vecs;
        let mut col_index: usize = 0;
        while col_index < CN
            invariant
                row_index < RN,
                0 <= col_index <= CN,
                self.m == old(self).m,
                self.row_vecs@ == old(self).row_vecs@.update(row_index as int, v),
                cols == old(self).col_vecs,
                forall|c: int| 0 <= c < CN ==> #[trigger] self.col_vecs[c].m == cols[c].m,
                forall|c: int|
                    0 <= c < col_index ==> #[trigger] self.col_vecs[c].c@ == cols[c].c@.update(
                        row_index as int,
                        v.c[c],
                    ),
                forall|c: int| col_index <= c < CN ==> #[trigger] self.col_vecs[c] == cols[c],
            decreases CN - col_index,
        {
            let x = self.row_vecs[row_index].get(col_index);
            self.col_vecs[col_index].set(row_index, x);
            col_index += 1;
        }
        proof {
            if old(self).wf() {
                assert forall|r: int, c: int|
                    0 <= r < RN && 0 <= c < CN implies #[trigger] self.row_vecs[r].c[c]
                    == #[trigger] self.col_vecs[c].c[r] by {
                    assert(old(self).row_vecs[r].c[c] == old(self).col_vecs[c].c[r]);
                }
            }
        }
    }

    pub fn get_row(&self, row_index: usize) -> (res: Vector<CN>)
        requires
            row_index < RN,
        ensures
            res == self.row_vecs[row_index as int],
    {
        self.row_vecs[row_index]
    }

    /// Replaces column `col_index` and writes its entries into the rows
    /// (`row_vecs[r].c[col_index] = v.c[r]` for every row `r`).
    pub fn set_col(&mut self, col_index: usize, v: Vector<RN>)
        requires
            col_index < CN,
        ensures
            final(self).m == old(self).m,
            final(self).col_vecs@ == old(self).col_vecs@.update(col_index as int, v),
            forall|r: int| 0 <= r < RN ==> #[trigger] final(self).row_vecs[r].m == old(self).row_vecs[r].m,
            forall|r: int|
                0 <= r < RN ==> #[trigger] final(self).row_vecs[r].c@ == old(self).row_vecs[r].c@.update(
                    col_index as int,
                    v.c[r],
                ),
            old(self).wf() ==> final(self).wf(),
    {
        self.col_vecs[col_index] = v;
        let ghost rows = self.row_vecs;
        let mut row_index: usize = 0;
        while row_index < RN
            invariant
                col_index < CN,
                0 <= row_index <= RN,
                self.m == old(self).m,
                self.col_vecs@ == old(self).col_vecs@.update(col_index as int, v),
                rows == old(self).row_vecs,
                forall|r: int| 0 <= r < RN ==> #[trigger] self.row_vecs[r].m == rows[r].m,
                forall|r: int|
                    0 <= r < row_index ==> #[trigger] self.row_vecs[r].c@ == rows[r].c@.update(
                        col_index as int,
                        v.c[r],
                    ),
                forall|r: int| row_index <= r < RN ==> #[trigger] self.row_vecs[r] == rows[r],
            decreases RN - row_index,
        {
            let x = self.col_vecs[col_index].get(row_index);
            self.row_vecs[row_index].set(col_index, x);
            row_index += 1;
        }
        proof {
            if old(self).wf() {
                assert forall|r: int, c: int|
                    0 <= r < RN && 0 <= c < CN implies #[trigger] self.row_vecs[r].c[c]
                    == #[trigger] self.col_vecs[c].c[r] by {
                    assert(old(self).row_vecs[r].c[c] == old(self).col_vecs[c].c[r]);
                    assert(self.row_vecs[r].c@[c] == self.row_vecs[r].c[c]);
                }
            }
        }
    }

    /// Sets the entry of column `col_index` and row `row_index`, in the row and in the column.
    pub fn set_coef(&mut self, col_index: usize, row_index: usize, v: i32)
        requires
            col_index < CN,
            row_index < RN,
        ensures
            final(self).m == old(self).m,
            final(self).row_vecs[row_index as int].c@ == old(self).row_vecs[row_index as int].c@.update(
                col_index as int,
                v,
            ),
            final(self).row_vecs[row_index as int].m == old(self).row_vecs[row_index as int].m,
            forall|r: int|
                0 <= r < RN && r != row_index ==> #[trigger] final(self).row_vecs[r] == old(self).row_vecs[r],
            final(self).col_vecs[col_index as int].c@ == old(self).col_vecs[col_index as int].c@.update(
                row_index as int,
                v,
            ),
            final(self).col_vecs[col_index as int].m == old(self).col_vecs[col_index as int].m,
            forall|c: int|
                0 <= c < CN && c != col_index ==> #[trigger] final(self).col_vecs[c] == old(self).col_vecs[c],
            old(self).wf() ==> final(self).wf(),
    {
        self.row_vecs[row_index].set(col_index, v);
        self.col_vecs[col_index].set(row_index, v);
    }
}

/// A matrix of polynomials, held both as its rows and as its columns.
#[derive(Copy, Clone, Debug)]
pub struct PolyMatrix<const RN: usize, const CN: usize> {
    pub row_vecs: [PolyVector<CN>; RN],
    pub col_vecs: [PolyVector<RN>; CN],
    pub m: i32,
}

/// Every polynomial of every row of the matrix has its coefficients in `[0, 3329)`.
pub open spec fn rows_reduced<const RN: usize, const CN: usize>(a: PolyMatrix<RN, CN>) -> bool {
    forall|i: int| 0 <= i < RN ==> #[trigger] all_reduced(a.row_vecs[i])
}

/// Every polynomial of every column of the matrix has its coefficients in `[0, 3329)`.
pub open spec fn cols_reduced<const RN: usize, const CN: usize>(a: PolyMatrix<RN, CN>) -> bool {
    forall|j: int| 0 <= j < CN ==> #[trigger] all_reduced(a.col_vecs[j])
}

impl<const RN: usize, const CN: usize> PolyMatrix<RN, CN> {
    /// The rows and the columns hold the same polynomials.
    pub open spec fn wf(self) -> bool {
        forall|r: int, c: int|
            0 <= r < RN && 0 <= c < CN ==> #[trigger] self.row_vecs[r].c[c]
                == #[trigger] self.col_vecs[c].c[r]
    }

    /// Builds the matrix from its rows; the columns are read from them.
    pub fn new(val: [PolyVector<CN>; RN], _m: i32) -> (res: PolyMatrix<RN, CN>)
        ensures
            res.m == _m,
            res.row_vecs == val,
            forall|c: int| 0 <= c < CN ==> #[trigger] res.col_vecs[c].m == _m,
            forall|r: int, c: int|
                0 <= r < RN && 0 <= c < CN ==> #[trigger] res.col_vecs[c].c[r] == val[r].c[c],
            res.wf(),
    {
        let r_v: [PolyVector<CN>; RN] = val;
        let mut c_v: [PolyVector<RN>; CN] = [PolyVector::new(
            &[Vector::new(&[0i32;256], _m);RN],
            _m,
        );CN];
        let mut i: usize = 0;
        while i < CN
            invariant
                0 <= i <= CN,
                forall|c: int| 0 <= c < CN ==> #[trigger] c_v[c].m == _m,
                forall|r: int, c: int|
                    0 <= r < RN && 0 <= c < i ==> #[trigger] c_v[c].c[r] == val[r].c[c],
            decreases CN - i,
        {
            let mut j: usize = 0;
            while j < RN
                invariant
                    0 <= i < CN,
                    0 <= j <= RN,
                    forall|c: int| 0 <= c < CN ==> #[trigger] c_v[c].m == _m,
                    forall|r: int, c: int|
                        0 <= r < RN && 0 <= c < i ==> #[trigger] c_v[c].c[r] == val[r].c[c],
                    forall|r: int| 0 <= r < j ==> #[trigger] c_v[i as int].c[r] == val[r].c[i as int],
                decreases RN - j,
            {
                c_v[i].c[j] = val[j].c[i];
                j += 1;
            }
            i += 1;
        }
        PolyMatrix { col_vecs: c_v, row_vecs: r_v, m: _m }
    }

    /// Product with a vector, everything in the transformed domain: entry `i` is
    /// `row_i.ntt_dot(v)`.
    pub fn ntt_mult_vec(&mut self, v: PolyVector<CN>) -> (res: PolyVector<RN>)
        requires
            rows_reduced(*old(self)),
            all_reduced(v),
        ensures
            *final(self) == *old(self),
            res.m == old(self).m,
            all_reduced(res),
            forall|i: int| 0 <= i < RN ==> #[trigger] res.c[i].m == old(self).row_vecs[i].m,
            forall|i: int, j: int|
                0 <= i < RN && 0 <= j < 256 ==> #[trigger] res.c[i].c[j] == ntt_dot_coef(
                    pv_model(old(self).row_vecs[i]),
                    pv_model(v),
                    CN as int,
                    j,
                ),
    {
        let mut ret: PolyVector<RN> = PolyVector::new(&[Vector::new(&[0i32;256], self.m);RN], self.m);
        let mut i: usize = 0;
        while i < RN
            invariant
                0 <= i <= RN,
                *self == *old(self),
                rows_reduced(*self),
                all_reduced(v),
                ret.m == self.m,
                forall|t: int| 0 <= t < i ==> #[trigger] is_reduced(ret.c[t]),
                forall|t: int| 0 <= t < i ==> #[trigger] ret.c[t].m == self.row_vecs[t].m,
                forall|t: int, j: int|
                    0 <= t < i && 0 <= j < 256 ==> #[trigger] ret.c[t].c[j] == ntt_dot_coef(
                        pv_model(self.row_vecs[t]),
                        pv_model(v),
                        CN as int,
                        j,
                    ),
            decreases RN - i,
        {
            proof {
                assert(all_reduced(self.row_vecs[i as int]));
            }
            ret.c[i] = self.row_vecs[i].ntt_dot(v);
            i += 1;
        }
        ret
    }

    /// Product of two square matrices in the transformed domain: entry `(i, j)` is
    /// `row_i.ntt_dot(col_j of b)`; the result is held consistently by rows and columns.
    #[allow(non_snake_case)]
    pub fn matmul(&mut self, B: PolyMatrix<CN, RN>) -> (res: PolyMatrix<CN, RN>)
        requires
            RN == CN,
            rows_reduced(*old(self)),
            cols_reduced(B),
        ensures
            *final(self) == *old(self),
            res.wf(),
            res.m == old(self).m,
            forall|i: int, j: int, t: int|
                0 <= i < RN && 0 <= j < CN && 0 <= t < 256 ==> #[trigger] res.row_vecs[i].c[j].c[t]
                    == ntt_dot_coef(pv_model(old(self).row_vecs[i]), pv_model(B.col_vecs[j]), CN as int, t),
            forall|i: int, j: int|
                0 <= i < RN && 0 <= j < CN ==> #[trigger] res.row_vecs[i].c[j].m == old(self).row_vecs[i].m,
    {
        let mut ret: PolyMatrix<CN, RN> = PolyMatrix::new(
            [PolyVector::new(&[Vector::new(&[0i32;256], self.m);RN], self.m);CN],
            self.m,
        );
        let mut i: usize = 0;
        while i < RN
            invariant
                RN == CN,
                0 <= i <= RN,
                *self == *old(self),
                rows_reduced(*self),
                cols_reduced(B),
                ret.m == self.m,
                ret.wf(),
                forall|r: int, j: int, t: int|
                    0 <= r < i && 0 <= j < CN && 0 <= t < 256 ==> #[trigger] ret.row_vecs[r].c[j].c[t]
                        == ntt_dot_coef(pv_model(self.row_vecs[r]), pv_model(B.col_vecs[j]), CN as int, t),
                forall|r: int, j: int|
                    0 <= r < i && 0 <= j < CN ==> #[trigger] ret.row_vecs[r].c[j].m == self.row_vecs[r].m,
            decreases RN - i,
        {
            let mut j: usize = 0;
            while j < CN
                invariant
                    RN == CN,
                    0 <= i < RN,
                    0 <= j <= CN,
                    *self == *old(self),
                    rows_reduced(*self),
                    cols_reduced(B),
                    ret.m == self.m,
                    ret.wf(),
                    forall|r: int, j: int, t: int|
                        0 <= r < i && 0 <= j < CN && 0 <= t < 256 ==> #[trigger] ret.row_vecs[r].c[j].c[t]
                            == ntt_dot_coef(pv_model(self.row_vecs[r]), pv_model(B.col_vecs[j]), CN as int, t),
                    forall|u: int, t: int|
                        0 <= u < j && 0 <= t < 256 ==> #[trigger] ret.row_vecs[i as int].c[u].c[t]
                            == ntt_dot_coef(pv_model(self.row_vecs[i as int]), pv_model(B.col_vecs[u]), CN as int, t),
                    forall|r: int, j: int|
                        0 <= r < i && 0 <= j < CN ==> #[trigger] ret.row_vecs[r].c[j].m == self.row_vecs[r].m,
                    forall|u: int| 0 <= u < j ==> #[trigger] ret.row_vecs[i as int].c[u].m == self.row_vecs[i as int].m,
                decreases CN - j,
            {
                proof {
                    assert(all_reduced(self.row_vecs[i as int]));
                    assert(all_reduced(B.col_vecs[j as int]));
                }
                let d = self.row_vecs[i].ntt_dot(B.col_vecs[j]);
                ret.row_vecs[i].c[j] = d;
                ret.col_vecs[j].c[i] = ret.row_vecs[i].c[j];
                j += 1;
            }
            i += 1;
        }
        ret
    }

    /// The transposed matrix: its rows are the columns of `self` and its columns the rows.
    pub fn transpose(&self) -> (res: PolyMatrix<CN, RN>)
        ensures
            res.row_vecs == self.col_vecs,
            res.col_vecs == self.row_vecs,
            res.m == self.m,
            self.wf() ==> res.wf(),
    {
        let mut ret: PolyMatrix<CN, RN> = PolyMatrix::new(
            [PolyVector::new(&[Vector::new(&[0i32;256], self.m);RN], self.m);CN],
            self.m,
        );
        ret.col_vecs = self.row_vecs;
        ret.row_vecs = self.col_vecs;
        ret
    }

    /// Replaces row `row_index` and writes its entries into the columns.
    pub fn set_row(&mut self, row_index: usize, v: PolyVector<CN>)
        requires
            row_index < RN,
        ensures
            final(self).m == old(self).m,
            final(self).row_vecs@ == old(self).row_vecs@.update(row_index as int, v),
            forall|c: int| 0 <= c < CN ==> #[trigger] final(self).col_vecs[c].m == old(self).col_vecs[c].m,
            forall|c: int|
                0 <= c < CN ==> #[trigger] final(self).col_vecs[c].c@ == old(self).col_vecs[c].c@.update(
                    row_index as int,
                    v.c[c],
                ),
            old(self).wf() ==> final(self).wf(),
    {
        self.row_vecs[row_index] = v;
        let ghost cols = self.col_vecs;
        let mut col_index: usize = 0;
        while col_index < CN
            invariant
                row_index < RN,
                0 <= col_index <= CN,
                self.m == old(self).m,
                self.row_vecs@ == old(self).row_vecs@.update(row_index as int, v),
                cols == old(self).col_vecs,
                forall|c: int| 0 <= c < CN ==> #[trigger] self.col_vecs[c].m == cols[c].m,
                forall|c: int|
                    0 <= c < col_index ==> #[trigger] self.col_vecs[c].c@ == cols[c].c@.update(
                        row_index as int,
                        v.c[c],
                    ),
                forall|c: int| col_index <= c < CN ==> #[trigger] self.col_vecs[c] == cols[c],
            decreases CN - col_index,
        {
            let x = self.row_vecs[row_index].get(col_index);
            self.col_vecs[col_index].set(row_index, x);
            col_index += 1;
        }
        proof {
            if old(self).wf() {
                assert forall|r: int, c: int|
                    0 <= r < RN && 0 <= c < CN implies #[trigger] self.row_vecs[r].c[c]
                    == #[trigger] self.col_vecs[c].c[r] by {
                    assert(old(self).row_vecs[r].c[c] == old(self).col_vecs[c].c[r]);
                }
            }
        }
    }

    pub fn get_row(&self, row_index: usize) -> (res: PolyVector<CN>)
        requires
            row_index < RN,
        ensures
            res == self.row_vecs[row_index as int],
    {
        self.row_vecs[row_index]
    }

    /// Replaces column `col_index` and writes its entries into the rows
    /// (`row_vecs[r].c[col_index] = v.c[r]` for every row `r`).
    pub fn set_col(&mut self, col_index: usize, v: PolyVector<RN>)
        requires
            col_index < CN,
        ensures
            final(self).m == old(self).m,
            final(self).col_vecs@ == old(self).col_vecs@.update(col_index as int, v),
            forall|r: int| 0 <= r < RN ==> #[trigger] final(self).row_vecs[r].m == old(self).row_vecs[r].m,
            forall|r: int|
                0 <= r < RN ==> #[trigger] final(self).row_vecs[r].c@ == old(self).row_vecs[r].c@.update(
                    col_index as int,
                    v.c[r],
                ),
            old(self).wf() ==> final(self).wf(),
    {
        self.col_vecs[col_index] = v;
        let ghost rows = self.row_vecs;
        let mut row_index: usize = 0;
        while row_index < RN
            invariant
                col_index < CN,
                0 <= row_index <= RN,
                self.m == old(self).m,
                self.col_vecs@ == old(self).col_vecs@.update(col_index as int, v),
                rows == old(self).row_vecs,
                forall|r: int| 0 <= r < RN ==> #[trigger] self.row_vecs[r].m == rows[r].m,
                forall|r: int|
                    0 <= r < row_index ==> #[trigger] self.row_vecs[r].c@ == rows[r].c@.update(
                        col_index as int,
                        v.c[r],
                    ),
                forall|r: int| row_index <= r < RN ==> #[trigger] self.row_vecs[r] == rows[r],
            decreases RN - row_index,
        {
            let x = self.col_vecs[col_index].get(row_index);
            self.row_vecs[row_index].set(col_index, x);
            row_index += 1;
        }
        proof {
            if old(self).wf() {
                assert forall|r: int, c: int|
                    0 <= r < RN && 0 <= c < CN implies #[trigger] self.row_vecs[r].c[c]
                    == #[trigger] self.col_vecs[c].c[r] by {
                    assert(old(self).row_vecs[r].c[c] == old(self).col_vecs[c].c[r]);
                    assert(self.row_vecs[r].c@[c] == self.row_vecs[r].c[c]);
                }
            }
        }
    }

    /// Sets the entry of column `col_index` and row `row_index`, in the row and in the column.
    pub fn set_coef(&mut self, col_index: usize, row_index: usize, v: Vector<256>)
        requires
            col_index < CN,
            row_index < RN,
        ensures
            final(self).m == old(self).m,
            final(self).row_vecs[row_index as int].c@ == old(self).row_vecs[row_index as int].c@.update(
                col_index as int,
                v,
            ),
            final(self).row_vecs[row_index as int].m == old(self).row_vecs[row_index as int].m,
            forall|r: int|
                0 <= r < RN && r != row_index ==> #[trigger] final(self).row_vecs[r] == old(self).row_vecs[r],
            final(self).col_vecs[col_index as int].c@ == old(self).col_vecs[col_index as int].c@.update(
                row_index as int,
                v,
            ),
            final(self).col_vecs[col_index as int].m == old(self).col_vecs[col_index as int].m,
            forall|c: int|
                0 <= c < CN && c != col_index ==> #[trigger] final(self).col_vecs[c] == old(self).col_vecs[c],
            old(self).wf() ==> final(self).wf(),
    {
        self.row_vecs[row_index].set(col_index, v);
        self.col_vecs[col_index].set(row_index, v);
    }
}

/// A number held in Montgomery form for the modulus `q = 3329`, with radix
/// `R = 2^12`, `R^-1 mod q = 2704` and `k = -q^-1 mod R = 3327`.
/// `a` is the Montgomery representative, `n` the last standard value seen.
#[derive(Copy, Clone, Debug)]
pub struct MontgomeryForm {
    a: i32,
    n: i32,
    q: i32,
    r_pow: u32,
    r: i32,
    r_1: i32,
    k: i32,
}

/// The product `a * mont_encode(b)` computed by `MontgomeryForm::mult` fits in an `i32`,
/// and so does the sum computed by the reduction that follows.
pub open spec fn mult_fits(a: i32, b: i32) -> bool {
    &&& i32::MIN <= a * mont_encode(b) <= i32::MAX
    &&& reduce_fits(a * mont_encode(b))
}

impl MontgomeryForm {
    /// The constants of the form never change.
    #[verifier::type_invariant]
    spec fn constants_fixed(self) -> bool {
        &&& self.q == 3329
        &&& self.r_pow == 12
        &&& self.r == 4096
        &&& self.r_1 == 2704
        &&& self.k == 3327
    }

    /// The Montgomery representative.
    pub closed spec fn spec_a(self) -> i32 {
        self.a
    }

    /// The standard value last recorded.
    pub closed spec fn spec_n(self) -> i32 {
        self.n
    }

    /// Puts `v` in Montgomery form: the representative is `(v << 12) % 3329`.
    pub fn new(v: i32) -> (res: MontgomeryForm)
        ensures
            res.spec_a() == mont_encode(v),
            res.spec_n() == v,
    {
        MontgomeryForm { a: (v << 12) % 3329, n: v, q: 3329, r_pow: 12, r: 4096, r_1: 2704, k: 3327 }
    }

    pub fn set_a(&mut self, a: i32)
        ensures
            final(self).spec_a() == a,
            final(self).spec_n() == old(self).spec_n(),
    {
        proof {
            use_type_invariant(&*self);
        }
        self.a = a;
    }

    pub fn set_n(&mut self, v: i32)
        ensures
            final(self).spec_a() == old(self).spec_a(),
            final(self).spec_n() == v,
    {
        proof {
            use_type_invariant(&*self);
        }
        self.n = v;
    }

    pub fn get_a(&self) -> (res: i32)
        ensures
            res == self.spec_a(),
    {
        self.a
    }

    /// Montgomery product with the standard value `b`: `b` is put in Montgomery form,
    /// multiplied with the representative, and the product is reduced.
    pub fn mult(&self, b: i32) -> (res: MontgomeryForm)
        requires
            mult_fits(self.spec_a(), b),
        ensures
            res.spec_a() == mont_reduce(self.spec_a() * mont_encode(b)),
            res.spec_n() == 0,
    {
        proof {
            use_type_invariant(self);
        }
        let b_b: i32 = (b << self.r_pow) % self.q;
        let mut ab = MontgomeryForm {
            a: self.a * b_b,
            n: 0,
            q: self.q,
            r_pow: self.r_pow,
            r: self.r,
            r_1: self.r_1,
            k: self.k,
        };
        let c_b = ab.reduction();
        MontgomeryForm { a: c_b, n: 0, q: self.q, r_pow: self.r_pow, r: self.r, r_1: self.r_1, k: self.k }
    }

    /// Montgomery reduction of the representative: returns (and records in `n`)
    /// `mont_reduce(a)`, which is `a * 4096^-1 mod 3329` in `[0, 3329)` for
    /// `0 <= a < 3329 * 4096`.
    pub fn reduction(&mut self) -> (res: i32)
        requires
            reduce_fits(old(self).spec_a() as int),
        ensures
            res == mont_reduce(old(self).spec_a() as int),
            final(self).spec_a() == old(self).spec_a(),
            final(self).spec_n() == res,
    {
        proof {
            use_type_invariant(&*self);
            lemma_mont_reduce(self.a as int);
        }
        let s: i32 = ((self.a as i64 * self.k as i64) % (self.r as i64)) as i32;
        let t: i32 = self.a + s * self.q;
        proof {
            lemma_shr12(t);
        }
        let u: i32 = t >> self.r_pow;
        if u < self.q {
            self.n = u;
            u
        } else {
            self.n = u - self.q;
            self.n
        }
    }

    /// Leaves the Montgomery domain: `(a * 2704) % 3329`.
    pub fn to_standard(&mut self) -> (res: i32)
        requires
            i32::MIN <= old(self).spec_a() * 2704 <= i32::MAX,
        ensures
            res == mont_to_standard(old(self).spec_a() as int),
            *final(self) == *old(self),
    {
        proof {
            use_type_invariant(&*self);
        }
        (self.a * self.r_1) % self.q
    }
}

/// `x^e mod m`, computed by square and multiply; `x^0` is 1 and `x^1` is `x` as given.
pub fn square_and_mult(x: u32, e: u32, _m: u32) -> (res: u32)
    requires
        e >= 2 ==> 0 < _m <= 65536 && x < 65536,
    ensures
        e == 0 ==> res == 1,
        e == 1 ==> res == x,
        e >= 2 ==> res == pow(x as int, e as nat) % (_m as int),
{
    if e == 0 {
        return 1;
    } else if e == 1 {
        return x;
    }
    let mut ret: u32 = 1;
    let mut iter: u32 = x;
    let mut exp = e;
    let ghost m = _m as int;
    let ghost xe = pow(x as int, (e - e % 2) as nat);
    while exp > 1
        invariant
            1 <= exp <= e,
            e >= 2,
            0 < m <= 65536,
            m == _m,
            x < 65536,
            iter < 65536,
            ret < 65536,
            exp == 1 ==> ret < m,
            xe == pow(x as int, (e - e % 2) as nat),
            xe % m == (ret * pow(iter as int, (exp - exp % 2) as nat)) % m,
        decreases exp,
    {
        let ghost old_iter = iter as int;
        let ghost old_exp = exp as int;
        let ghost old_ret = ret as int;
        let ghost old_exp_u: u32 = exp;
        proof {
            lemma_mul_upper_bound(iter as int, 65535, iter as int, 65535);
        }
        iter = iter * iter % _m;
        exp >>= 1;
        proof {
            assert(exp == old_exp_u / 2) by (bit_vector)
                requires exp == old_exp_u >> 1;
            lemma_mod_bound(old_iter * old_iter, m);
            // old_iter^(2*(old_exp/2)) == (old_iter^2)^(old_exp/2)
            assert(old_exp - old_exp % 2 == 2 * exp);
            lemma_pow_multiplies(old_iter, 2, exp as nat);
            lemma_square_is_pow2(old_iter);
            lemma_pow_mod_noop(old_iter * old_iter, exp as nat, m);
            // the congruence carried by the loop
            assert(xe % m == (old_ret * pow(old_iter * old_iter, exp as nat)) % m);
            lemma_mul_mod_noop_right(old_ret, pow(old_iter * old_iter, exp as nat), m);
            lemma_mul_mod_noop_right(old_ret, pow(iter as int, exp as nat), m);
            assert(xe % m == (old_ret * pow(iter as int, exp as nat)) % m);
        }
        if exp % 2 == 1 {
            proof {
                lemma_mul_upper_bound(ret as int, 65535, iter as int, 65535);
            }
            ret = ret * iter % _m;
            proof {
                lemma_mod_bound(old_ret * iter, m);
                // pow(iter, exp) == iter * pow(iter, exp - 1)
                lemma_pow_adds(iter as int, 1, (exp - 1) as nat);
                lemma_pow1(iter as int);
                assert(pow(iter as int, exp as nat) == iter * pow(iter as int, (exp - 1) as nat));
                lemma_mul_is_associative(old_ret, iter as int, pow(iter as int, (exp - 1) as nat));
                lemma_mul_mod_noop_left(old_ret * iter, pow(iter as int, (exp - 1) as nat), m);
            }
        }
    }
    proof {
        assert(exp == 1);
        lemma_pow0(iter as int);
        lemma_small_mod(ret as nat, m as nat);
        assert(xe % m == ret);
    }
    if e % 2 == 1 {
        proof {
            lemma_mul_upper_bound(ret as int, 65535, x as int, 65535);
        }
        let r = ret * x % _m;
        proof {
            lemma_pow_adds(x as int, (e - 1) as nat, 1);
            lemma_pow1(x as int);
            lemma_mul_mod_noop_left(xe, x as int, m);
        }
        r
    } else {
        ret
    }
}

/// The remainder by a negative divisor is the remainder by its opposite.
pub proof fn lemma_mod_neg_divisor(x: int, b: int)
    requires
        b < 0,
    ensures
        x % b == x % (-b),
        x / b == -(x / (-b)),
{
    let c = -b;
    lemma_fundamental_div_mod(x, c);
    lemma_mod_bound(x, c);
    let q = x / c;
    let r = x % c;
    lemma_fundamental_div_mod(x, b);
    assert(0 <= x % b < c);
    let q1 = x / b;
    let r1 = x % b;
    assert(q1 == -q && r1 == r) by (nonlinear_arith)
        requires x == b * q1 + r1, 0 <= r1 < c, x == c * q + r, 0 <= r < c, c == -b, b < 0;
}

/// `d` divides `a`.
pub open spec fn divides(d: int, a: int) -> bool {
    a % d == 0
}

/// `(a * x) mod n`.
pub open spec fn mul_mod(a: int, x: int, n: int) -> int {
    (a * x) % n
}

/// `zeta` has an inverse modulo `n`.
pub open spec fn invertible_mod(zeta: int, n: int) -> bool {
    exists|x: int| #[trigger] mul_mod(zeta, x, n) == 1
}

/// One step of the extended Euclidean algorithm keeps `r = zeta * s (mod n)`.
proof fn lemma_euclid_step(n: int, z: int, r0: int, r1: int, s0: int, s1: int, q: int)
    requires
        n > 0,
        r0 % n == (z * s0) % n,
        r1 % n == (z * s1) % n,
    ensures
        (r0 - q * r1) % n == (z * ((s0 - q * s1) % n)) % n,
{
    let t = s0 - q * s1;
    lemma_mod_bound(t, n);
    lemma_mod_multiples_vanish(1, t % n, n);
    assert(t % n + n == n * 1 + t % n);
    lemma_small_mod((t % n) as nat, n as nat);
    lemma_mul_mod_noop_right(z, t, n);
    assert(z * t == z * s0 - q * (z * s1)) by (nonlinear_arith)
        requires t == s0 - q * s1;
    lemma_sub_mod_noop(r0, q * r1, n);
    lemma_sub_mod_noop(z * s0, q * (z * s1), n);
    lemma_mul_mod_noop_right(q, r1, n);
    lemma_mul_mod_noop_right(q, z * s1, n);
}

/// Rust's remainder moved into `[0, n)` by adding `n` and reducing is the Euclidean
/// remainder.
proof fn lemma_rem_to_euclid(x: int, n: int)
    requires
        n > 0,
    ensures
        ((if x >= 0 { x % n } else { -((-x) % n) }) + n) % n == x % n,
{
    lemma_mod_bound(x, n);
    if x >= 0 {
        lemma_mod_multiples_vanish(1, x % n, n);
        assert(x % n + n == n * 1 + x % n);
        lemma_small_mod((x % n) as nat, n as nat);
    } else {
        let nx = -x;
        lemma_mod_bound(nx, n);
        lemma_fundamental_div_mod(nx, n);
        let w = nx / n;
        let m = nx % n;
        if m == 0 {
            assert(x == (-w) * n + 0) by (nonlinear_arith)
                requires nx == n * w + m, m == 0, nx == -x;
            lemma_fundamental_div_mod_converse(x, n, -w, 0);
            lemma_mod_self_0(n);
        } else {
            assert(x == (-w - 1) * n + (n - m)) by (nonlinear_arith)
                requires nx == n * w + m, nx == -x;
            lemma_fundamental_div_mod_converse(x, n, -w - 1, n - m);
            lemma_small_mod((n - m) as nat, n as nat);
        }
    }
}

/// A common divisor of `a` and `b` divides `a + q b`.
proof fn lemma_divides_comb(a: int, b: int, q: int, d: int)
    requires
        d > 0,
        a % d == 0,
        b % d == 0,
    ensures
        (a + q * b) % d == 0,
{
    lemma_fundamental_div_mod(a, d);
    lemma_fundamental_div_mod(b, d);
    let ka = a / d;
    let kb = b / d;
    assert(a + q * b == (ka + q * kb) * d) by (nonlinear_arith)
        requires a == d * ka, b == d * kb;
    lemma_mod_multiples_basic(ka + q * kb, d);
}

/// The inverse of `zeta` modulo `n` by the extended Euclidean algorithm on `n` and
/// `zeta mod n`. The result lies in `[0, n)`, and `zeta * res = 1 (mod n)` exactly when
/// `zeta` has an inverse modulo `n` (when their greatest common divisor is 1).
pub fn mod_inv(zeta: i32, _n: i32) -> (res: i32)
    requires
        _n > 1,
    ensures
        0 <= res < _n,
        (zeta * res) % (_n as int) == 1 <==> invertible_mod(zeta as int, _n as int),
{
    let n: i64 = _n as i64;
    let z: i64 = zeta as i64;
    let mut r0: i64 = n;
    let mut r1: i64 = z % n;
    if r1 < 0 {
        r1 = r1 + n;
    }
    let mut s0: i64 = 0;
    let mut s1: i64 = 1;
    proof {
        lemma_signed_rem(z as int, n as int);
        lemma_fundamental_div_mod(z as int, n as int);
        lemma_mod_bound(z as int, n as int);
        if z < 0 {
            let nz = -(z as int);
            lemma_mod_bound(nz, n as int);
            lemma_fundamental_div_mod(nz, n as int);
            let w = nz / (n as int);
            let m = nz % (n as int);
            if m == 0 {
                assert(z == (-w) * n + 0) by (nonlinear_arith)
                    requires nz == n * w + m, m == 0, nz == -z;
                lemma_fundamental_div_mod_converse(z as int, n as int, -w, 0);
            } else {
                assert(z == (-w - 1) * n + (n - m)) by (nonlinear_arith)
                    requires nz == n * w + m, nz == -z;
                lemma_fundamental_div_mod_converse(z as int, n as int, -w - 1, n - m);
            }
        }
        assert(r1 as int == (z as int) % (n as int));
        lemma_small_mod(r1 as nat, n as nat);
        lemma_mod_self_0(n as int);
        lemma_small_mod(1, n as nat);
        assert(z * 0 == 0);
        lemma_small_mod(0, n as nat);
        assert forall|d: int| d > 0 && #[trigger] divides(d, r0 as int) && divides(d, r1 as int) implies divides(d, n as int) && divides(d, z as int) by {
            // z = r1 + k n
            lemma_fundamental_div_mod(z as int, n as int);
            lemma_divides_comb(r1 as int, n as int, (z as int) / (n as int), d);
            assert(r1 + (z as int) / (n as int) * n == z) by (nonlinear_arith)
                requires z == n * ((z as int) / (n as int)) + (z as int) % (n as int), r1 == (z as int) % (n as int);
        }
    }
    while r1 != 0
        invariant
            1 < n <= i32::MAX,
            z == zeta,
            0 <= r1 < r0 <= n,
            0 <= s0 < n,
            0 <= s1 < n,
            (r0 as int) % (n as int) == (z * s0) % (n as int),
            (r1 as int) % (n as int) == (z * s1) % (n as int),
            forall|d: int| d > 0 && #[trigger] divides(d, r0 as int) && divides(d, r1 as int) ==> divides(d, n as int) && divides(d, z as int),
        decreases r1,
    {
        let q = r0 / r1;
        proof {
            lemma_fundamental_div_mod(r0 as int, r1 as int);
            lemma_mod_bound(r0 as int, r1 as int);
            lemma_div_pos_is_pos(r0 as int, r1 as int);
            lemma_div_is_ordered_by_denominator(r0 as int, 1, r1 as int);
            lemma_mul_upper_bound(q as int, n as int, s1 as int, n as int);
            lemma_mul_upper_bound(q as int, r0 as int, r1 as int, r0 as int);
        }
        assert(q as int == (r0 as int) / (r1 as int));
        assert(q * r1 <= r0) by (nonlinear_arith)
            requires r0 == r1 * q + (r0 as int) % (r1 as int), (r0 as int) % (r1 as int) >= 0;
        assert(q <= n);
        assert(0 <= q * s1 <= n * n) by (nonlinear_arith)
            requires 0 <= q <= n, 0 <= s1 < n;
        assert(n * n <= 0x4000_0000_0000_0000) by (nonlinear_arith)
            requires 0 < n <= 0x7fff_ffff;
        let r2 = r0 - q * r1;
        let t = (s0 - q * s1) % n;
        let s2 = (t + n) % n;
        proof {
            lemma_euclid_step(n as int, z as int, r0 as int, r1 as int, s0 as int, s1 as int, q as int);
            lemma_signed_rem((s0 - q * s1) as int, n as int);
            lemma_rem_to_euclid((s0 - q * s1) as int, n as int);
            lemma_mod_bound((s0 - q * s1) as int, n as int);
            let x = (s0 - q * s1) as int;
            assert(t as int == crate::arith::trunc_rem(x, n as int));
            assert(t as int == (if x >= 0 { x % (n as int) } else { -((-x) % (n as int)) }));
            lemma_mod_bound(-x, n as int);
            assert(t + n > 0);
            assert(s2 as int == ((t + n) as int) % (n as int));
            assert(s2 as int == x % (n as int));
            assert(r2 == (r0 as int) % (r1 as int));
            let old_r0 = r0;
            let old_r1 = r1;
            assert forall|d: int| d > 0 && #[trigger] divides(d, old_r1 as int) && divides(d, r2 as int) implies divides(d, n as int) && divides(d, z as int) by {
                lemma_divides_comb(r2 as int, old_r1 as int, q as int, d);
                assert(r2 + q * old_r1 == old_r0);
                assert(divides(d, old_r0 as int) && divides(d, old_r1 as int));
            }
        }
        r0 = r1;
        r1 = r2;
        s0 = s1;
        s1 = s2;
    }
    proof {
        lemma_mod_self_0(r0 as int);
        lemma_small_mod(0, r0 as nat);
        assert(divides(r0 as int, r0 as int) && divides(r0 as int, r1 as int));
        assert((n as int) % (r0 as int) == 0 && (z as int) % (r0 as int) == 0);
        if r0 == 1 {
            lemma_small_mod(1, n as nat);
            assert((zeta * s0) % (_n as int) == 1);
            assert(mul_mod(zeta as int, s0 as int, _n as int) == 1);
        } else {
            assert forall|x: int| !(#[trigger] mul_mod(zeta as int, x, _n as int) == 1) by {
                if mul_mod(zeta as int, x, _n as int) == 1 {
                    let g = r0 as int;
                    assert((zeta * x) % (_n as int) == 1);
                    lemma_fundamental_div_mod(zeta * x, _n as int);
                    lemma_fundamental_div_mod(z as int, g);
                    lemma_fundamental_div_mod(n as int, g);
                    let k = (zeta * x) / (_n as int);
                    let a = (z as int) / g;
                    let b = (n as int) / g;
                    assert(g * (a * x - b * k) == 1) by (nonlinear_arith)
                        requires zeta * x == _n * k + 1, z == g * a, n == g * b, z == zeta, n == _n;
                    assert(false) by (nonlinear_arith)
                        requires g * (a * x - b * k) == 1, g > 1;
                }
            }
            if (zeta * s0) % (_n as int) == 1 {
                assert(mul_mod(zeta as int, s0 as int, _n as int) == 1);
            }
        }
    }
    s0 as i32
}

} // verus!
