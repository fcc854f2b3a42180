//! The max-product semiring, for most-probable-explanation queries.
use vstd::prelude::*;
use vstd::arithmetic::div_mod::lemma_small_mod;
use super::{
    Convert,
    Semiring,
    lemma_crop_residue,
    lemma_wrapped_product_associative,
};

verus! {

/// A weight combined by maximum and multiplied modulo two to the 32nd.
#[derive(Clone, Copy, Debug, Hash, PartialEq, Eq, PartialOrd, Ord)]
pub struct MaxProd {
    pub value: u32,
}

/// The larger of two weights.
pub open spec fn max_u32(a: u32, b: u32) -> u32 {
    if a >= b {
        a
    } else {
        b
    }
}

impl Convert for MaxProd {
    /// The absolute value of the multiplicity, modulo two to the 32nd.
    open spec fn lift(n: int) -> MaxProd {
        MaxProd { value: ((if n < 0 { -n } else { n }) % 0x1_0000_0000) as u32 }
    }

    fn from(value: isize) -> (r: MaxProd) {
        let magnitude: u64 = if value < 0 {
            ((-(value as i128)) as u64)
        } else {
            value as u64
        };
        MaxProd { value: (magnitude % 0x1_0000_0000) as u32 }
    }
}

impl Semiring for MaxProd {
    open spec fn zero_spec() -> MaxProd {
        MaxProd { value: 0 }
    }

    open spec fn combine_spec(a: MaxProd, b: MaxProd) -> MaxProd {
        MaxProd { value: max_u32(a.value, b.value) }
    }

    open spec fn multiply_spec(a: MaxProd, b: MaxProd) -> MaxProd {
        MaxProd { value: vstd::wrapping::u32_specs::wrapping_mul(a.value, b.value) }
    }

    fn zero() -> (r: MaxProd) {
        MaxProd { value: 0 }
    }

    fn is_zero(&self) -> (r: bool) {
        self.value == 0
    }

    fn combine(&self, other: &MaxProd) -> (r: MaxProd) {
        if self.value >= other.value {
            MaxProd { value: self.value }
        } else {
            MaxProd { value: other.value }
        }
    }

    fn multiply(&self, other: &MaxProd) -> (r: MaxProd) {
        MaxProd { value: self.value.wrapping_mul(other.value) }
    }

    proof fn lemma_combine_commutative(a: MaxProd, b: MaxProd) {
    }

    proof fn lemma_multiply_commutative(a: MaxProd, b: MaxProd) {
        assert(a.value as nat * b.value as nat == b.value as nat * a.value as nat) by (nonlinear_arith);
    }

    proof fn lemma_combine_associative(a: MaxProd, b: MaxProd, c: MaxProd) {
    }

    proof fn lemma_multiply_associative(a: MaxProd, b: MaxProd, c: MaxProd) {
        let m: int = 0x1_0000_0000;
        let (x, y, z) = (a.value, b.value, c.value);
        let ab = Self::multiply_spec(a, b).value;
        let bc = Self::multiply_spec(b, c).value;
        let l = Self::multiply_spec(Self::multiply_spec(a, b), c).value;
        let r = Self::multiply_spec(a, Self::multiply_spec(b, c)).value;
        lemma_crop_residue(x * y, ab as int, m);
        lemma_crop_residue(y * z, bc as int, m);
        lemma_crop_residue(ab * z, l as int, m);
        lemma_crop_residue(x * bc, r as int, m);
        lemma_wrapped_product_associative(x as int, y as int, z as int, ab as int, bc as int, l as int, r as int, 0, m);
    }

    proof fn lemma_zero_identity(a: MaxProd) {
    }

    proof fn lemma_lift_zero() {
    }
}


/// Where the product of three weights fits in 32 bits, multiplying them in
/// either grouping gives that product exactly.
pub proof fn lemma_multiply_exact(a: MaxProd, b: MaxProd, c: MaxProd)
    requires
        a.value * b.value * c.value <= u32::MAX,
    ensures
        MaxProd::multiply_spec(MaxProd::multiply_spec(a, b), c).value == a.value * b.value * c.value,
        MaxProd::multiply_spec(a, MaxProd::multiply_spec(b, c)).value == a.value * b.value * c.value,
{
    let (x, y, z) = (a.value as nat, b.value as nat, c.value as nat);
    let m: nat = 0x1_0000_0000;
    if z == 0 {
        assert(x * y * z == 0) by (nonlinear_arith)
            requires
                z == 0,
        ;
        assert((MaxProd::multiply_spec(a, b).value as nat) * z == 0) by (nonlinear_arith)
            requires
                z == 0,
        ;
    } else {
        assert(x * y <= x * y * z) by (nonlinear_arith)
            requires
                z >= 1,
        ;
        lemma_small_mod(x * y, m);
    }
    if x == 0 {
        assert(x * y * z == 0) by (nonlinear_arith)
            requires
                x == 0,
        ;
        assert(x * (MaxProd::multiply_spec(b, c).value as nat) == 0) by (nonlinear_arith)
            requires
                x == 0,
        ;
    } else {
        assert(y * z <= x * y * z) by (nonlinear_arith)
            requires
                x >= 1,
        ;
        assert(x * (y * z) == x * y * z) by (nonlinear_arith);
        lemma_small_mod(y * z, m);
    }
    lemma_small_mod(x * y * z, m);
    assert(x * (y * z) == x * y * z) by (nonlinear_arith);
}

} // verus!
