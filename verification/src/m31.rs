//! Mersenne-31 field arithmetic: scalar and four-lane kernels.
//!
//! A canonical field element is a `u32` in `[0, P)` with `P = 2^31 - 1`.
//! The multiply kernel reduces the 62-bit product by folding the high bits
//! onto the low 31 bits (valid because `2^31 == 1` modulo `P`), then
//! subtracts `P` at most once.

use vstd::arithmetic::div_mod::{
    lemma_fundamental_div_mod, lemma_mod_multiples_vanish, lemma_small_mod,
};
use vstd::prelude::*;

verus! {

/// The Mersenne-31 prime, `2^31 - 1`.
pub const P: u32 = 0x7fff_ffff;

/// What the multiply kernel computes: the product of two canonical
/// field elements, reduced to the canonical range.
pub open spec fn m31_mul_spec(a: u32, b: u32) -> int {
    (a * b) % (P as int)
}

/// Scalar fallback of the lanewise multiply: `(a * b) mod P` via a 64-bit
/// product, folding the bits above position 31 back onto the low bits.
pub fn m31_mul_elem(a: u32, b: u32) -> (r: u32)
    requires
        a < P,
        b < P,
    ensures
        r == m31_mul_spec(a, b),
        r < P,
{
    proof {
        assert((a as int) * (b as int) < 0x8000_0000 * 0x8000_0000) by (nonlinear_arith)
            requires
                a < 0x8000_0000,
                b < 0x8000_0000,
        ;
    }
    let prod: u64 = (a as u64) * (b as u64);
    // prod == hi * 2^31 + lo, and 2^31 == P + 1, so prod == (hi + lo) mod P.
    let hi: u64 = prod / 0x8000_0000;
    let lo: u64 = prod % 0x8000_0000;
    let t: u64 = hi + lo;
    let hi2: u64 = t / 0x8000_0000;
    let lo2: u64 = t % 0x8000_0000;
    let s: u64 = hi2 + lo2;
    let r: u64 = if s >= (P as u64) {
        s - (P as u64)
    } else {
        s
    };
    proof {
        lemma_m31_fold(prod as int, hi as int, lo as int);
        lemma_m31_fold(t as int, hi2 as int, lo2 as int);
        lemma_small_mod(r as nat, P as nat);
        if s >= P {
            lemma_mod_multiples_vanish(-1, s - P, P as int);
        }
    }
    r as u32
}

/// Folding a value at its 31st bit preserves it modulo `P`:
/// if `x == hi * 2^31 + lo` then `x mod P == (hi + lo) mod P`.
proof fn lemma_m31_fold(x: int, hi: int, lo: int)
    requires
        hi == x / 0x8000_0000,
        lo == x % 0x8000_0000,
        x >= 0,
    ensures
        x % (P as int) == (hi + lo) % (P as int),
{
    lemma_fundamental_div_mod(x, 0x8000_0000);
    assert(x == hi * 0x8000_0000 + lo);
    assert(x == (P as int) * hi + (hi + lo)) by {
        assert(hi * 0x8000_0000 == hi * (P as int) + hi) by (nonlinear_arith);
    }
    lemma_mod_multiples_vanish(hi, hi + lo, P as int);
}

/// Lanewise field multiply on a four-lane group: each lane of the result is
/// the product of the corresponding input lanes, reduced modulo `P`.
pub fn m31_mul(lhs: [u32; 4], rhs: [u32; 4]) -> (r: [u32; 4])
    requires
        forall|i: int| 0 <= i < 4 ==> lhs@[i] < P && rhs@[i] < P,
    ensures
        forall|i: int| 0 <= i < 4 ==> r@[i] == m31_mul_spec(lhs@[i], rhs@[i]),
        forall|i: int| 0 <= i < 4 ==> r@[i] < P,
{
    [
        m31_mul_elem(lhs[0], rhs[0]),
        m31_mul_elem(lhs[1], rhs[1]),
        m31_mul_elem(lhs[2], rhs[2]),
        m31_mul_elem(lhs[3], rhs[3]),
    ]
}

/// Multiplying by one is the identity, multiplying by zero gives zero, and
/// multiplying by `P - 1` negates: `(x * (P-1)) mod P == (P - x) mod P`.
pub proof fn lemma_m31_mul_identities(x: u32)
    requires
        x < P,
    ensures
        m31_mul_spec(x, 1u32) == x,
        m31_mul_spec(x, 0u32) == 0,
        m31_mul_spec(x, (P - 1) as u32) == (P - x) % (P as int),
{
    lemma_small_mod(x as nat, P as nat);
    lemma_small_mod(0nat, P as nat);
    // x * (P - 1) == P * x + (-x), so both sides agree modulo P with P - x.
    assert(x * ((P - 1) as u32) == (P as int) * (x as int) + (-(x as int))) by (nonlinear_arith);
    lemma_mod_multiples_vanish(x as int, -(x as int), P as int);
    assert((P as int) * (-1) + ((P as int) - x) == -(x as int));
    lemma_mod_multiples_vanish(-1, (P as int) - x, P as int);
}

/// A scalar Mersenne-31 field element in canonical range `[0, P)`.
#[derive(Copy, Clone)]
pub struct M31(u32);

impl M31 {
    /// The canonical `u32` this element stands for.
    pub closed spec fn spec_val(self) -> u32 {
        self.0
    }

    /// Every constructor keeps the value below `P`.
    pub closed spec fn wf(self) -> bool {
        self.0 < P
    }

    pub fn value(self) -> (r: u32)
        ensures
            r == self.spec_val(),
    {
        self.0
    }

    /// Field addition: the sum of the two values, reduced modulo `P`.
    pub fn add(self, rhs: M31) -> (r: M31)
        requires
            self.wf(),
            rhs.wf(),
        ensures
            r.wf(),
            r.spec_val() == (self.spec_val() + rhs.spec_val()) % (P as int),
    {
        let s: u64 = (self.0 as u64) + (rhs.0 as u64);
        let r: u64 = if s >= (P as u64) {
            s - (P as u64)
        } else {
            s
        };
        proof {
            lemma_small_mod(r as nat, P as nat);
            if s >= P {
                lemma_mod_multiples_vanish(-1, s - P, P as int);
            }
        }
        M31(r as u32)
    }

    pub fn add_assign(&mut self, rhs: M31)
        requires
            old(self).wf(),
            rhs.wf(),
        ensures
            final(self).wf(),
            final(self).spec_val() == (old(self).spec_val() + rhs.spec_val()) % (P as int),
    {
        *self = self.add(rhs);
    }
}

impl Default for M31 {
    /// The zero element.
    fn default() -> (r: Self)
        ensures
            r.wf(),
            r.spec_val() == 0,
    {
        M31(0)
    }
}

impl From<u32> for M31 {
    /// Reduce an arbitrary `u32` to its canonical representative.
    fn from(value: u32) -> (r: Self)
        ensures
            r.wf(),
            r.spec_val() == value % P,
    {
        M31(value % P)
    }
}

impl vstd::std_specs::convert::FromSpecImpl<u32> for M31 {
    open spec fn obeys_from_spec() -> bool {
        true
    }

    closed spec fn from_spec(v: u32) -> M31 {
        M31((v % P) as u32)
    }
}

impl From<u64> for M31 {
    /// Reduce an arbitrary `u64` to its canonical representative.
    fn from(value: u64) -> (r: Self)
        ensures
            r.wf(),
            r.spec_val() == value % (P as u64),
    {
        M31((value % (P as u64)) as u32)
    }
}

impl vstd::std_specs::convert::FromSpecImpl<u64> for M31 {
    open spec fn obeys_from_spec() -> bool {
        true
    }

    closed spec fn from_spec(v: u64) -> M31 {
        M31((v % (P as u64)) as u32)
    }
}

/// A reduced element is well formed and canonical: `From` lands in `[0, P)`,
/// and a value already in range is kept as it is.
pub proof fn lemma_m31_from_canonical(v: u32)
    ensures
        <M31 as vstd::std_specs::convert::FromSpec<u32>>::from_spec(v).wf(),
        <M31 as vstd::std_specs::convert::FromSpec<u32>>::from_spec(v).spec_val() == v % P,
        v < P ==> <M31 as vstd::std_specs::convert::FromSpec<u32>>::from_spec(v).spec_val() == v,
{
    if v < P {
        lemma_small_mod(v as nat, P as nat);
    }
}

} // verus!
