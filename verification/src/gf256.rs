//! The finite field GF(2^8) modulo `x^8 + x^4 + x^3 + x^2 + 1`.
//!
//! A byte stands for the polynomial over GF(2) whose coefficient of `x^i` is
//! bit `i`. The spec functions of this module define the field, the proof
//! functions show that it is one, and [`Gf256`] computes in it with the tables
//! of the `galois_2p8` crate.

use galois_2p8::Field;
use vstd::prelude::*;

verus! {

/// The product of `a` and the indeterminate `x`, reduced modulo the field
/// polynomial.
pub open spec fn gf_times_x(a: u8) -> u8 {
    if a & 0x80 == 0x80 {
        ((a & 0x7f) << 1) ^ 0x1d
    } else {
        (a & 0x7f) << 1
    }
}

/// `a` where bit `i` of `b` is set, zero elsewhere.
pub open spec fn gf_term(a: u8, b: u8, i: u8) -> u8 {
    if (b >> i) & 1 == 1 {
        a
    } else {
        0
    }
}

/// The sum of two field elements, which is also their difference.
pub open spec fn gf_add(a: u8, b: u8) -> u8 {
    a ^ b
}

/// The product of two field elements written out: the sum over the bits `i`
/// of `b` of `a * x^i`.
pub open spec fn gf_product(a: u8, b: u8) -> u8 {
    let a1 = gf_times_x(a);
    let a2 = gf_times_x(a1);
    let a3 = gf_times_x(a2);
    let a4 = gf_times_x(a3);
    let a5 = gf_times_x(a4);
    let a6 = gf_times_x(a5);
    let a7 = gf_times_x(a6);
    gf_term(a, b, 0) ^ gf_term(a1, b, 1) ^ gf_term(a2, b, 2) ^ gf_term(a3, b, 3) ^ gf_term(
        a4,
        b,
        4,
    ) ^ gf_term(a5, b, 5) ^ gf_term(a6, b, 6) ^ gf_term(a7, b, 7)
}

/// The product of two field elements. The formula stays out of proofs that
/// need the field laws alone; `reveal(gf_mul)` brings it in, and the product
/// of given elements is then had from `gf_product` by `bit_vector`.
#[verifier::opaque]
pub open spec fn gf_mul(a: u8, b: u8) -> u8 {
    gf_product(a, b)
}

/// The multiplicative inverse of a nonzero element: its 254th power. The
/// inverse of a given element is had from `lemma_inverse_unique`.
#[verifier::opaque]
pub open spec fn gf_inv(a: u8) -> u8 {
    let e2 = gf_mul(a, a);
    let e4 = gf_mul(e2, e2);
    let e8 = gf_mul(e4, e4);
    let e16 = gf_mul(e8, e8);
    let e32 = gf_mul(e16, e16);
    let e64 = gf_mul(e32, e32);
    let e128 = gf_mul(e64, e64);
    gf_mul(e128, gf_mul(e64, gf_mul(e32, gf_mul(e16, gf_mul(e8, gf_mul(e4, e2))))))
}

/// The quotient of `a` by a nonzero `b`.
pub open spec fn gf_div(a: u8, b: u8) -> u8 {
    gf_mul(a, gf_inv(b))
}

/// `dst` with `scale * src[i]` added to each position that `src` covers.
pub open spec fn add_scaled(dst: Seq<u8>, src: Seq<u8>, scale: u8) -> Seq<u8> {
    Seq::new(
        dst.len(),
        |i: int|
            if i < src.len() {
                gf_add(dst[i], gf_mul(scale, src[i]))
            } else {
                dst[i]
            },
    )
}

/// Zero is the identity of addition.
pub proof fn lemma_add_zero(a: u8)
    ensures
        gf_add(a, 0) == a,
        gf_add(0, a) == a,
{
    assert(a ^ 0 == a) by (bit_vector);
    assert(0 ^ a == a) by (bit_vector);
}

/// Every element is its own additive inverse.
pub proof fn lemma_add_self(a: u8)
    ensures
        gf_add(a, a) == 0,
{
    assert(a ^ a == 0) by (bit_vector);
}

/// Addition is commutative.
pub proof fn lemma_add_commutative(a: u8, b: u8)
    ensures
        gf_add(a, b) == gf_add(b, a),
{
    assert(a ^ b == b ^ a) by (bit_vector);
}

/// Addition is associative.
pub proof fn lemma_add_associative(a: u8, b: u8, c: u8)
    ensures
        gf_add(gf_add(a, b), c) == gf_add(a, gf_add(b, c)),
{
    assert((a ^ b) ^ c == a ^ (b ^ c)) by (bit_vector);
}

/// A sum is zero exactly when its two terms are equal.
pub proof fn lemma_add_cancel(a: u8, b: u8)
    ensures
        gf_add(a, b) == 0 <==> a == b,
        gf_add(gf_add(a, b), b) == a,
{
    assert((a ^ b == 0) <==> a == b) by (bit_vector);
    assert((a ^ b) ^ b == a) by (bit_vector);
}

/// Multiplication is commutative.
#[verifier::rlimit(100)]
pub proof fn lemma_mul_commutative(a: u8, b: u8)
    ensures
        gf_mul(a, b) == gf_mul(b, a),
{
    assert(gf_mul(a, b) == gf_mul(b, a)) by (bit_vector);
}

/// Zero annihilates and one is the identity of multiplication.
pub proof fn lemma_mul_zero_one(a: u8)
    ensures
        gf_mul(a, 0) == 0,
        gf_mul(0, a) == 0,
        gf_mul(a, 1) == a,
        gf_mul(1, a) == a,
{
    assert(gf_mul(a, 0) == 0) by (bit_vector);
    assert(gf_mul(0, a) == 0) by (bit_vector);
    assert(gf_mul(a, 1) == a) by (bit_vector);
    assert(gf_mul(1, a) == a) by (bit_vector);
}

/// Multiplication distributes over addition.
#[verifier::rlimit(100)]
pub proof fn lemma_mul_distributive(a: u8, b: u8, c: u8)
    ensures
        gf_mul(a, gf_add(b, c)) == gf_add(gf_mul(a, b), gf_mul(a, c)),
        gf_mul(gf_add(b, c), a) == gf_add(gf_mul(b, a), gf_mul(c, a)),
{
    let bc = b ^ c;
    assert(gf_mul(a, bc) == gf_mul(a, b) ^ gf_mul(a, c)) by (bit_vector)
        requires
            bc == b ^ c,
    ;
    lemma_mul_commutative(a, bc);
    lemma_mul_commutative(a, b);
    lemma_mul_commutative(a, c);
}

/// Multiplying one factor by `x` multiplies the product by `x`.
#[verifier::rlimit(100)]
proof fn lemma_mul_times_x(a: u8, b: u8)
    ensures
        gf_mul(a, gf_times_x(b)) == gf_times_x(gf_mul(a, b)),
{
    let tb = gf_times_x(b);
    let ab = gf_mul(a, b);
    assert(gf_mul(a, tb) == gf_times_x(ab)) by (bit_vector)
        requires
            tb == gf_times_x(b),
            ab == gf_mul(a, b),
    ;
}

proof fn lemma_mul_term(a: u8, v: u8, c: u8, i: u8)
    ensures
        gf_mul(a, gf_term(v, c, i)) == gf_term(gf_mul(a, v), c, i),
{
    lemma_mul_zero_one(a);
}

/// Multiplication is associative.
pub proof fn lemma_mul_associative(a: u8, b: u8, c: u8)
    ensures
        gf_mul(gf_mul(a, b), c) == gf_mul(a, gf_mul(b, c)),
{
    reveal(gf_mul);
    let b1 = gf_times_x(b);
    let b2 = gf_times_x(b1);
    let b3 = gf_times_x(b2);
    let b4 = gf_times_x(b3);
    let b5 = gf_times_x(b4);
    let b6 = gf_times_x(b5);
    let b7 = gf_times_x(b6);
    lemma_mul_times_x(a, b);
    lemma_mul_times_x(a, b1);
    lemma_mul_times_x(a, b2);
    lemma_mul_times_x(a, b3);
    lemma_mul_times_x(a, b4);
    lemma_mul_times_x(a, b5);
    lemma_mul_times_x(a, b6);
    let t0 = gf_term(b, c, 0);
    let t1 = gf_term(b1, c, 1);
    let t2 = gf_term(b2, c, 2);
    let t3 = gf_term(b3, c, 3);
    let t4 = gf_term(b4, c, 4);
    let t5 = gf_term(b5, c, 5);
    let t6 = gf_term(b6, c, 6);
    let t7 = gf_term(b7, c, 7);
    lemma_mul_term(a, b, c, 0);
    lemma_mul_term(a, b1, c, 1);
    lemma_mul_term(a, b2, c, 2);
    lemma_mul_term(a, b3, c, 3);
    lemma_mul_term(a, b4, c, 4);
    lemma_mul_term(a, b5, c, 5);
    lemma_mul_term(a, b6, c, 6);
    lemma_mul_term(a, b7, c, 7);
    let u1 = t0 ^ t1;
    let u2 = u1 ^ t2;
    let u3 = u2 ^ t3;
    let u4 = u3 ^ t4;
    let u5 = u4 ^ t5;
    let u6 = u5 ^ t6;
    lemma_mul_distributive(a, t0, t1);
    lemma_mul_distributive(a, u1, t2);
    lemma_mul_distributive(a, u2, t3);
    lemma_mul_distributive(a, u3, t4);
    lemma_mul_distributive(a, u4, t5);
    lemma_mul_distributive(a, u5, t6);
    lemma_mul_distributive(a, u6, t7);
}

/// A nonzero element times its inverse is one.
#[verifier::rlimit(100)]
pub proof fn lemma_mul_inverse(a: u8)
    requires
        a != 0,
    ensures
        gf_mul(a, gf_inv(a)) == 1,
        gf_mul(gf_inv(a), a) == 1,
        gf_inv(a) != 0,
{
    let e2 = gf_mul(a, a);
    let e4 = gf_mul(e2, e2);
    let e8 = gf_mul(e4, e4);
    let e16 = gf_mul(e8, e8);
    let e32 = gf_mul(e16, e16);
    let e64 = gf_mul(e32, e32);
    let e128 = gf_mul(e64, e64);
    let q6 = gf_mul(e4, e2);
    let q14 = gf_mul(e8, q6);
    let q30 = gf_mul(e16, q14);
    let q62 = gf_mul(e32, q30);
    let q126 = gf_mul(e64, q62);
    let q254 = gf_mul(e128, q126);
    assert(gf_mul(a, q254) == 1) by (bit_vector)
        requires
            a != 0,
            e2 == gf_mul(a, a),
            e4 == gf_mul(e2, e2),
            e8 == gf_mul(e4, e4),
            e16 == gf_mul(e8, e8),
            e32 == gf_mul(e16, e16),
            e64 == gf_mul(e32, e32),
            e128 == gf_mul(e64, e64),
            q6 == gf_mul(e4, e2),
            q14 == gf_mul(e8, q6),
            q30 == gf_mul(e16, q14),
            q62 == gf_mul(e32, q30),
            q126 == gf_mul(e64, q62),
            q254 == gf_mul(e128, q126),
    ;
    assert(q254 == gf_inv(a)) by {
        reveal(gf_inv);
    }
    lemma_mul_commutative(a, q254);
    lemma_mul_zero_one(a);
}

/// An element has one inverse only.
pub proof fn lemma_inverse_unique(a: u8, b: u8)
    requires
        gf_mul(a, b) == 1,
    ensures
        a != 0,
        b == gf_inv(a),
{
    lemma_mul_zero_one(b);
    lemma_mul_commutative(a, b);
    lemma_mul_inverse(a);
    lemma_mul_associative(b, a, gf_inv(a));
    lemma_mul_zero_one(gf_inv(a));
}

/// A product is zero only if one of its factors is.
pub proof fn lemma_mul_nonzero(a: u8, b: u8)
    ensures
        gf_mul(a, b) == 0 <==> (a == 0 || b == 0),
{
    lemma_mul_zero_one(a);
    lemma_mul_zero_one(b);
    if a != 0 && gf_mul(a, b) == 0 {
        lemma_mul_inverse(a);
        lemma_mul_associative(gf_inv(a), a, b);
        lemma_mul_zero_one(gf_inv(a));
    }
}

/// Division undoes multiplication by a nonzero element, and the other way
/// round.
pub proof fn lemma_div_mul(a: u8, b: u8)
    requires
        b != 0,
    ensures
        gf_mul(gf_div(a, b), b) == a,
        gf_div(gf_mul(a, b), b) == a,
{
    lemma_mul_inverse(b);
    lemma_mul_associative(a, gf_inv(b), b);
    lemma_mul_associative(a, b, gf_inv(b));
    lemma_mul_zero_one(a);
}

/// The laws of the field that its users lean on most: zero and one are the
/// identities, multiplication is commutative, every element is its own
/// negative, and division undoes multiplication.
pub proof fn lemma_field_laws(a: u8, b: u8)
    ensures
        gf_add(a, 0) == a,
        gf_mul(a, 1) == a,
        gf_mul(a, b) == gf_mul(b, a),
        gf_add(a, a) == 0,
        b != 0 ==> gf_mul(gf_div(a, b), b) == a,
{
    lemma_add_zero(a);
    lemma_mul_zero_one(a);
    lemma_mul_commutative(a, b);
    lemma_add_self(a);
    if b != 0 {
        lemma_div_mul(a, b);
    }
}

#[verifier::external_type_specification]
#[verifier::external_body]
pub struct ExPrimitivePolynomialField(galois_2p8::PrimitivePolynomialField);

/// The field polynomial `x^8 + x^4 + x^3 + x^2 + 1`, bit `i` for `x^i`.
pub const MODULUS: u16 = 0x11d;

/// The polynomial that the tables of `field` were built for, bit `i` for
/// `x^i`: what `Field::polynomial` gives for it, as `to_u16` writes it.
pub uninterp spec fn field_polynomial(field: galois_2p8::PrimitivePolynomialField) -> u16;

/// GF(2^8) modulo `x^8 + x^4 + x^3 + x^2 + 1`, with the lookup tables that
/// make multiplication and division fast.
pub struct Gf256 {
    field: galois_2p8::PrimitivePolynomialField,
}

/// Builds the tables with `PrimitivePolynomialField::new_might_panic` for the
/// polynomial `Poly84320`, which is primitive, so the call does not panic.
/// The field that it returns keeps that polynomial, `0x1d` below `x^8`.
#[verifier::external_body]
fn primitive_field() -> (r: galois_2p8::PrimitivePolynomialField)
    ensures
        field_polynomial(r) == MODULUS,
{
    galois_2p8::PrimitivePolynomialField::new_might_panic(
        galois_2p8::IrreducablePolynomial::Poly84320,
    )
}

impl Gf256 {
    /// The polynomial that the tables were built for.
    pub closed spec fn polynomial(&self) -> u16 {
        field_polynomial(self.field)
    }

    /// The invariant of the field: its tables are those of [`MODULUS`], the
    /// polynomial that the spec functions of this module reduce by.
    pub open spec fn wf(&self) -> bool {
        self.polynomial() == MODULUS
    }

    /// The field, with its tables built for [`MODULUS`].
    pub fn new() -> (r: Self)
        ensures
            r.wf(),
    {
        Gf256 { field: primitive_field() }
    }

    /// Calls `Field::add`, which returns the exclusive or of its arguments.
    #[verifier::external_body]
    fn table_add(&self, a: u8, b: u8) -> (r: u8)
        ensures
            r == gf_add(a, b),
    {
        self.field.add(a, b)
    }

    /// Calls `Field::sub`, which returns the exclusive or of its arguments.
    #[verifier::external_body]
    fn table_sub(&self, a: u8, b: u8) -> (r: u8)
        ensures
            r == gf_add(a, b),
    {
        self.field.sub(a, b)
    }

    /// Calls `Field::mult` of the table field, which returns the product of
    /// its arguments modulo the polynomial the tables were built for.
    #[verifier::external_body]
    fn table_mult(&self, a: u8, b: u8) -> (r: u8)
        requires
            self.wf(),
        ensures
            r == gf_mul(a, b),
    {
        self.field.mult(a, b)
    }

    /// Calls `Field::div` of the table field, which panics on a zero divisor
    /// and else returns the element whose product with `b` is `a`.
    #[verifier::external_body]
    fn table_div(&self, a: u8, b: u8) -> (r: u8)
        requires
            self.wf(),
            b != 0,
        ensures
            r == gf_div(a, b),
    {
        self.field.div(a, b)
    }

    /// Calls `Field::add_scaled_multiword`, which adds `scale * src[i]`,
    /// modulo the polynomial the tables were built for, to `dst[i]` over the
    /// shorter of the two lengths and leaves the rest of `dst` as it was.
    #[verifier::external_body]
    fn table_add_scaled_multiword(&self, dst: &mut [u8], src: &[u8], scale: u8)
        requires
            self.wf(),
        ensures
            final(dst)@ == add_scaled(old(dst)@, src@, scale),
    {
        self.field.add_scaled_multiword(dst, src, scale)
    }

    /// The sum of `a` and `b`.
    pub fn add(&self, a: u8, b: u8) -> (r: u8)
        ensures
            r == gf_add(a, b),
    {
        self.table_add(a, b)
    }

    /// The difference of `a` and `b`, which is their sum.
    pub fn sub(&self, a: u8, b: u8) -> (r: u8)
        ensures
            r == gf_add(a, b),
    {
        self.table_sub(a, b)
    }

    /// The product of `a` and `b`.
    pub fn mult(&self, a: u8, b: u8) -> (r: u8)
        requires
            self.wf(),
        ensures
            r == gf_mul(a, b),
    {
        self.table_mult(a, b)
    }

    /// The quotient of `a` by the nonzero `b`.
    pub fn div(&self, a: u8, b: u8) -> (r: u8)
        requires
            self.wf(),
            b != 0,
        ensures
            r == gf_div(a, b),
            gf_mul(r, b) == a,
    {
        proof {
            lemma_div_mul(a, b);
        }
        self.table_div(a, b)
    }

    /// Adds `src[i] * scale` to `dst[i]` for every `i` that both cover.
    pub fn add_scaled_multiword(&self, dst: &mut [u8], src: &[u8], scale: u8)
        requires
            self.wf(),
        ensures
            final(dst)@.len() == old(dst)@.len(),
            forall|i: int|
                0 <= i < old(dst)@.len() ==> #[trigger] final(dst)@[i] == if i < src@.len() {
                    gf_add(old(dst)@[i], gf_mul(src@[i], scale))
                } else {
                    old(dst)@[i]
                },
    {
        self.table_add_scaled_multiword(dst, src, scale);
        proof {
            assert forall|i: int| 0 <= i < old(dst)@.len() && i < src@.len() implies gf_mul(
                scale,
                #[trigger] src@[i],
            ) == gf_mul(src@[i], scale) by {
                lemma_mul_commutative(scale, src@[i]);
            }
        }
    }
}

} // verus!
