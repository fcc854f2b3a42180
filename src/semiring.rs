//! Weight algebras: a semiring supplies the zero, the combination of weights of
//! equal tuples, the product of weights of joined tuples, and the lift of a raw
//! multiplicity into a weight.
//!
//! The integer instances count modulo two to the power of their width, so that
//! no combination can overflow and the laws hold for every pair of weights.
use vstd::prelude::*;
use vstd::arithmetic::div_mod::{
    lemma_add_mod_noop,
    lemma_fundamental_div_mod,
    lemma_mod_multiples_vanish,
    lemma_mod_twice,
    lemma_mul_mod_noop_left,
    lemma_mul_mod_noop_right,
};

pub mod max_prod;

verus! {

/// Lifts a raw insert/delete multiplicity into a weight.
pub trait Convert: Sized {
    /// The weight that a multiplicity stands for.
    spec fn lift(n: int) -> Self;

    fn from(value: isize) -> (r: Self)
        ensures
            r == Self::lift(value as int),
    ;
}

/// A commutative semiring of weights.
pub trait Semiring: Convert + Copy {
    spec fn zero_spec() -> Self;

    spec fn combine_spec(a: Self, b: Self) -> Self;

    spec fn multiply_spec(a: Self, b: Self) -> Self;

    /// The identity of `combine`.
    fn zero() -> (r: Self)
        ensures
            r == Self::zero_spec(),
    ;

    /// Whether this weight is zero.
    fn is_zero(&self) -> (r: bool)
        ensures
            r == (*self == Self::zero_spec()),
    ;

    /// Merges the weights of two tuples that have become equal.
    fn combine(&self, other: &Self) -> (r: Self)
        ensures
            r == Self::combine_spec(*self, *other),
    ;

    /// Multiplies the weights of two tuples drawn from different factors.
    fn multiply(&self, other: &Self) -> (r: Self)
        ensures
            r == Self::multiply_spec(*self, *other),
    ;

    /// `combine` does not depend on the order of its arguments.
    proof fn lemma_combine_commutative(a: Self, b: Self)
        ensures
            Self::combine_spec(a, b) == Self::combine_spec(b, a),
    ;

    /// `multiply` does not depend on the order of its arguments.
    proof fn lemma_multiply_commutative(a: Self, b: Self)
        ensures
            Self::multiply_spec(a, b) == Self::multiply_spec(b, a),
    ;

    /// `combine` does not depend on how its arguments are grouped.
    proof fn lemma_combine_associative(a: Self, b: Self, c: Self)
        ensures
            Self::combine_spec(Self::combine_spec(a, b), c) == Self::combine_spec(
                a,
                Self::combine_spec(b, c),
            ),
    ;

    /// `multiply` does not depend on how its arguments are grouped.
    proof fn lemma_multiply_associative(a: Self, b: Self, c: Self)
        ensures
            Self::multiply_spec(Self::multiply_spec(a, b), c) == Self::multiply_spec(
                a,
                Self::multiply_spec(b, c),
            ),
    ;

    /// Zero is the identity of `combine`.
    proof fn lemma_zero_identity(a: Self)
        ensures
            Self::combine_spec(Self::zero_spec(), a) == a,
    ;

    /// A multiplicity of zero lifts to zero.
    proof fn lemma_lift_zero()
        ensures
            Self::lift(0) == Self::zero_spec(),
    ;
}

/// Two integers of one window of width `m` with the same residue are equal.
pub proof fn lemma_residue_in_window(a: int, b: int, lo: int, m: int)
    requires
        m > 0,
        lo <= a < lo + m,
        lo <= b < lo + m,
        a % m == b % m,
    ensures
        a == b,
{
    lemma_fundamental_div_mod(a, m);
    lemma_fundamental_div_mod(b, m);
    let q = a / m - b / m;
    assert(a - b == m * q) by (nonlinear_arith)
        requires
            a == m * (a / m) + a % m,
            b == m * (b / m) + b % m,
            a % m == b % m,
            q == a / m - b / m,
    ;
    if q > 0 {
        assert(m * q >= m) by (nonlinear_arith)
            requires
                q > 0,
                m > 0,
        ;
    } else if q < 0 {
        assert(m * q <= -m) by (nonlinear_arith)
            requires
                q < 0,
                m > 0,
        ;
    }
}

/// Shifting by one modulus keeps the residue.
pub proof fn lemma_shift_residue(z: int, v: int, m: int)
    requires
        m > 0,
        v == z || v == z - m || v == z + m,
    ensures
        v % m == z % m,
{
    if v == z - m {
        lemma_mod_multiples_vanish(-1, z, m);
        assert(m * -1 + z == v) by (nonlinear_arith)
            requires
                v == z - m,
        ;
    } else if v == z + m {
        lemma_mod_multiples_vanish(1, z, m);
    }
}

/// A residue taken into a signed window keeps its class.
pub proof fn lemma_crop_residue(z: int, v: int, m: int)
    requires
        m > 0,
        v == z % m || v == z % m - m,
    ensures
        v % m == z % m,
{
    lemma_mod_twice(z, m);
    lemma_shift_residue(z % m, v, m);
}

/// Associativity of addition that wraps within a window of width `m`.
pub proof fn lemma_wrapped_sum_associative(
    a: int,
    b: int,
    c: int,
    ab: int,
    bc: int,
    l: int,
    r: int,
    lo: int,
    m: int,
)
    requires
        m > 0,
        ab % m == (a + b) % m,
        bc % m == (b + c) % m,
        l % m == (ab + c) % m,
        r % m == (a + bc) % m,
        lo <= l < lo + m,
        lo <= r < lo + m,
    ensures
        l == r,
{
    lemma_add_mod_noop(ab, c, m);
    lemma_add_mod_noop(a + b, c, m);
    lemma_add_mod_noop(a, bc, m);
    lemma_add_mod_noop(a, b + c, m);
    assert(a + b + c == a + (b + c));
    lemma_residue_in_window(l, r, lo, m);
}

/// Associativity of multiplication that wraps within a window of width `m`.
pub proof fn lemma_wrapped_product_associative(
    a: int,
    b: int,
    c: int,
    ab: int,
    bc: int,
    l: int,
    r: int,
    lo: int,
    m: int,
)
    requires
        m > 0,
        ab % m == (a * b) % m,
        bc % m == (b * c) % m,
        l % m == (ab * c) % m,
        r % m == (a * bc) % m,
        lo <= l < lo + m,
        lo <= r < lo + m,
    ensures
        l == r,
{
    lemma_mul_mod_noop_left(ab, c, m);
    lemma_mul_mod_noop_left(a * b, c, m);
    lemma_mul_mod_noop_right(a, bc, m);
    lemma_mul_mod_noop_right(a, b * c, m);
    assert((a * b) * c == a * (b * c)) by (nonlinear_arith);
    lemma_residue_in_window(l, r, lo, m);
}

/// A total order key for the bit pattern of an IEEE single-precision float
/// (read as a signed integer): a negative pattern has all bits but the sign
/// flipped, so that keys compare as the floats do, with every bit pattern
/// (NaNs and both zeros included) ordered and equal only to itself.
pub fn total_order_key(bits: i32) -> (r: i32)
    ensures
        bits >= 0 ==> r == bits,
        bits < 0 ==> r == -(bits as int) - 0x8000_0000 - 1,
{
    if bits < 0 {
        let r = bits ^ 0x7fff_ffff;
        assert(bits < 0 ==> (bits ^ 0x7fff_ffffi32) == (-1i32 - (bits - i32::MIN))) by (bit_vector);
        r
    } else {
        bits
    }
}

/// Counting weights: sum and product modulo two to the 64th.
impl Convert for i64 {
    open spec fn lift(n: int) -> i64 {
        n as i64
    }

    fn from(value: isize) -> (r: i64) {
        value as i64
    }
}

impl Semiring for i64 {
    open spec fn zero_spec() -> i64 {
        0
    }

    open spec fn combine_spec(a: i64, b: i64) -> i64 {
        vstd::wrapping::i64_specs::wrapping_add(a, b)
    }

    open spec fn multiply_spec(a: i64, b: i64) -> i64 {
        vstd::wrapping::i64_specs::wrapping_mul(a, b)
    }

    fn zero() -> (r: i64) {
        0
    }

    fn is_zero(&self) -> (r: bool) {
        *self == 0
    }

    fn combine(&self, other: &i64) -> (r: i64) {
        self.wrapping_add(*other)
    }

    fn multiply(&self, other: &i64) -> (r: i64) {
        self.wrapping_mul(*other)
    }

    proof fn lemma_combine_commutative(a: i64, b: i64) {
    }

    proof fn lemma_multiply_commutative(a: i64, b: i64) {
        assert(a * b == b * a) by (nonlinear_arith);
    }

    proof fn lemma_combine_associative(a: i64, b: i64, c: i64) {
        let m: int = 0x1_0000_0000_0000_0000;
        let ab = Self::combine_spec(a, b);
        let bc = Self::combine_spec(b, c);
        let l = Self::combine_spec(ab, c);
        let r = Self::combine_spec(a, bc);
        lemma_shift_residue(a + b, ab as int, m);
        lemma_shift_residue(b + c, bc as int, m);
        lemma_shift_residue(ab + c, l as int, m);
        lemma_shift_residue(a + bc, r as int, m);
        lemma_wrapped_sum_associative(a as int, b as int, c as int, ab as int, bc as int, l as int, r as int, i64::MIN as int, m);
    }

    proof fn lemma_multiply_associative(a: i64, b: i64, c: i64) {
        let m: int = 0x1_0000_0000_0000_0000;
        let ab = Self::multiply_spec(a, b);
        let bc = Self::multiply_spec(b, c);
        let l = Self::multiply_spec(ab, c);
        let r = Self::multiply_spec(a, bc);
        lemma_crop_residue(a * b, ab as int, m);
        lemma_crop_residue(b * c, bc as int, m);
        lemma_crop_residue(ab * c, l as int, m);
        lemma_crop_residue(a * bc, r as int, m);
        lemma_wrapped_product_associative(a as int, b as int, c as int, ab as int, bc as int, l as int, r as int, i64::MIN as int, m);
    }

    proof fn lemma_zero_identity(a: i64) {
    }

    proof fn lemma_lift_zero() {
    }
}

/// Counting weights: sum and product modulo the width of a machine word.
impl Convert for isize {
    open spec fn lift(n: int) -> isize {
        n as isize
    }

    fn from(value: isize) -> (r: isize) {
        value
    }
}

impl Semiring for isize {
    open spec fn zero_spec() -> isize {
        0
    }

    open spec fn combine_spec(a: isize, b: isize) -> isize {
        vstd::wrapping::isize_specs::wrapping_add(a, b)
    }

    open spec fn multiply_spec(a: isize, b: isize) -> isize {
        vstd::wrapping::isize_specs::wrapping_mul(a, b)
    }

    fn zero() -> (r: isize) {
        0
    }

    fn is_zero(&self) -> (r: bool) {
        *self == 0
    }

    fn combine(&self, other: &isize) -> (r: isize) {
        self.wrapping_add(*other)
    }

    fn multiply(&self, other: &isize) -> (r: isize) {
        self.wrapping_mul(*other)
    }

    proof fn lemma_combine_commutative(a: isize, b: isize) {
    }

    proof fn lemma_multiply_commutative(a: isize, b: isize) {
        assert(a * b == b * a) by (nonlinear_arith);
    }

    proof fn lemma_combine_associative(a: isize, b: isize, c: isize) {
        let m: int = usize::MAX as int + 1;
        let ab = Self::combine_spec(a, b);
        let bc = Self::combine_spec(b, c);
        let l = Self::combine_spec(ab, c);
        let r = Self::combine_spec(a, bc);
        lemma_shift_residue(a + b, ab as int, m);
        lemma_shift_residue(b + c, bc as int, m);
        lemma_shift_residue(ab + c, l as int, m);
        lemma_shift_residue(a + bc, r as int, m);
        lemma_wrapped_sum_associative(a as int, b as int, c as int, ab as int, bc as int, l as int, r as int, isize::MIN as int, m);
    }

    proof fn lemma_multiply_associative(a: isize, b: isize, c: isize) {
        let m: int = usize::MAX as int + 1;
        let ab = Self::multiply_spec(a, b);
        let bc = Self::multiply_spec(b, c);
        let l = Self::multiply_spec(ab, c);
        let r = Self::multiply_spec(a, bc);
        lemma_crop_residue(a * b, ab as int, m);
        lemma_crop_residue(b * c, bc as int, m);
        lemma_crop_residue(ab * c, l as int, m);
        lemma_crop_residue(a * bc, r as int, m);
        lemma_wrapped_product_associative(a as int, b as int, c as int, ab as int, bc as int, l as int, r as int, isize::MIN as int, m);
    }

    proof fn lemma_zero_identity(a: isize) {
    }

    proof fn lemma_lift_zero() {
    }
}

/// Counting weights: sum and product modulo two to the 32nd.
impl Convert for i32 {
    /// The multiplicity cast to 32 bits, as `as` does.
    open spec fn lift(n: int) -> i32 {
        n as i32
    }

    fn from(value: isize) -> (r: i32) {
        #[verifier::truncate]
        (value as i32)
    }
}

impl Semiring for i32 {
    open spec fn zero_spec() -> i32 {
        0
    }

    open spec fn combine_spec(a: i32, b: i32) -> i32 {
        vstd::wrapping::i32_specs::wrapping_add(a, b)
    }

    open spec fn multiply_spec(a: i32, b: i32) -> i32 {
        vstd::wrapping::i32_specs::wrapping_mul(a, b)
    }

    fn zero() -> (r: i32) {
        0
    }

    fn is_zero(&self) -> (r: bool) {
        *self == 0
    }

    fn combine(&self, other: &i32) -> (r: i32) {
        self.wrapping_add(*other)
    }

    fn multiply(&self, other: &i32) -> (r: i32) {
        self.wrapping_mul(*other)
    }

    proof fn lemma_combine_commutative(a: i32, b: i32) {
    }

    proof fn lemma_multiply_commutative(a: i32, b: i32) {
        assert(a * b == b * a) by (nonlinear_arith);
    }

    proof fn lemma_combine_associative(a: i32, b: i32, c: i32) {
        let m: int = 0x1_0000_0000;
        let ab = Self::combine_spec(a, b);
        let bc = Self::combine_spec(b, c);
        let l = Self::combine_spec(ab, c);
        let r = Self::combine_spec(a, bc);
        lemma_shift_residue(a + b, ab as int, m);
        lemma_shift_residue(b + c, bc as int, m);
        lemma_shift_residue(ab + c, l as int, m);
        lemma_shift_residue(a + bc, r as int, m);
        lemma_wrapped_sum_associative(a as int, b as int, c as int, ab as int, bc as int, l as int, r as int, i32::MIN as int, m);
    }

    proof fn lemma_multiply_associative(a: i32, b: i32, c: i32) {
        let m: int = 0x1_0000_0000;
        let ab = Self::multiply_spec(a, b);
        let bc = Self::multiply_spec(b, c);
        let l = Self::multiply_spec(ab, c);
        let r = Self::multiply_spec(a, bc);
        lemma_crop_residue(a * b, ab as int, m);
        lemma_crop_residue(b * c, bc as int, m);
        lemma_crop_residue(ab * c, l as int, m);
        lemma_crop_residue(a * bc, r as int, m);
        lemma_wrapped_product_associative(a as int, b as int, c as int, ab as int, bc as int, l as int, r as int, i32::MIN as int, m);
    }

    proof fn lemma_zero_identity(a: i32) {
    }

    proof fn lemma_lift_zero() {
    }
}

} // verus!
