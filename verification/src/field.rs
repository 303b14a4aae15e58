//! Arithmetic in the prime field over the Solinas prime `2^64 - 2^32 + 1`,
//! as far as the number-theoretic transform entry points need it: reduction,
//! addition, multiplication, and inversion by Fermat exponentiation.

use vstd::prelude::*;
use vstd::arithmetic::div_mod::lemma_mul_mod_noop_general;

verus! {

/// The Solinas prime `2^64 - 2^32 + 1`.
pub const MODULUS: u64 = 0xffff_ffff_0000_0001;

/// A generator of the multiplicative group of the field.
pub const GENERATOR: u64 = 7;

/// `b^e` reduced modulo `MODULUS`.
pub open spec fn pow_mod(b: int, e: nat) -> int
    decreases e,
{
    if e == 0 {
        1
    } else {
        (pow_mod(b, (e - 1) as nat) * b) % (MODULUS as int)
    }
}

/// Powers of a reduced base stay in `[0, MODULUS)`.
pub proof fn lemma_pow_mod_range(b: int, e: nat)
    ensures
        0 <= pow_mod(b, e) < MODULUS as int,
    decreases e,
{
    if e != 0 {
        lemma_pow_mod_range(b, (e - 1) as nat);
    }
}

/// Squaring the base halves the exponent.
proof fn lemma_pow_mod_square(b: int, k: nat)
    requires
        0 <= b < MODULUS as int,
    ensures
        pow_mod((b * b) % (MODULUS as int), k) == pow_mod(b, 2 * k),
    decreases k,
{
    let m: int = MODULUS as int;
    if k != 0 {
        lemma_pow_mod_square(b, (k - 1) as nat);
        let bb: int = (b * b) % m;
        let p2: int = pow_mod(b, (2 * k - 2) as nat);
        assert(pow_mod(b, (2 * k - 1) as nat) == (p2 * b) % m);
        assert(pow_mod(b, 2 * k) == ((p2 * b) % m * b) % m);
        lemma_mul_mod_noop_general(p2 * b, b, m);
        lemma_mul_mod_noop_general(p2, b * b, m);
        assert((p2 * b) * b == p2 * (b * b)) by (nonlinear_arith);
        assert(pow_mod(bb, k) == (pow_mod(bb, (k - 1) as nat) * bb) % m);
    }
}

/// `(x * y) % MODULUS` for two reduced words, through a double-width
/// product.
fn mul_mod(x: u64, y: u64) -> (r: u64)
    requires
        x < MODULUS,
        y < MODULUS,
    ensures
        r < MODULUS,
        r == (x * y) % (MODULUS as int),
{
    proof {
        assert((x as int) * (y as int) <= 0xffff_ffff_ffff_ffff * 0xffff_ffff_ffff_ffff) by (
        nonlinear_arith)
            requires
                x <= 0xffff_ffff_ffff_ffff,
                y <= 0xffff_ffff_ffff_ffff,
        ;
    }
    let wide: u128 = (x as u128) * (y as u128);
    let red: u128 = wide % (MODULUS as u128);
    red as u64
}

/// An element of the prime field, kept reduced below `MODULUS`.
#[derive(Clone, Copy, PartialEq, Eq, Structural, Debug)]
pub struct Field {
    pub value: u64,
}

impl Field {
    /// The representative is reduced.
    pub open spec fn wf(self) -> bool {
        self.value < MODULUS
    }

    /// Reduce a machine word into the field.
    pub fn from_u64(x: u64) -> (r: Field)
        ensures
            r.wf(),
            r.value == x % MODULUS,
    {
        Field { value: x % MODULUS }
    }

    /// Sum in the field.
    pub fn add(self, other: Field) -> (r: Field)
        requires
            self.wf(),
            other.wf(),
        ensures
            r.wf(),
            r.value == (self.value + other.value) % (MODULUS as int),
    {
        let wide: u128 = (self.value as u128) + (other.value as u128);
        let red: u128 = wide % (MODULUS as u128);
        Field { value: red as u64 }
    }

    /// Product in the field.
    pub fn mul(self, other: Field) -> (r: Field)
        requires
            self.wf(),
            other.wf(),
        ensures
            r.wf(),
            r.value == (self.value * other.value) % (MODULUS as int),
    {
        Field { value: mul_mod(self.value, other.value) }
    }

    /// `self^e` in the field, by binary exponentiation.
    pub fn pow(self, e: u64) -> (r: Field)
        requires
            self.wf(),
        ensures
            r.wf(),
            r.value == pow_mod(self.value as int, e as nat),
    {
        let mut result: u64 = 1;
        let mut base: u64 = self.value;
        let mut exp: u64 = e;
        proof {
            lemma_pow_mod_range(self.value as int, e as nat);
        }
        while exp > 0
            invariant
                base < MODULUS,
                result < MODULUS,
                (result * pow_mod(base as int, exp as nat)) % (MODULUS as int) == pow_mod(
                    self.value as int,
                    e as nat,
                ),
            decreases exp,
        {
            proof {
                lemma_pow_mod_range(base as int, (exp - 1) as nat);
                lemma_pow_mod_range(base as int, (exp as nat) / 2);
            }
            if exp % 2 == 1 {
                let ghost pe: int = pow_mod(base as int, (exp - 1) as nat);
                let ghost r0: int = result as int;
                let ghost bi: int = base as int;
                result = mul_mod(result, base);
                proof {
                    let mi: int = MODULUS as int;
                    assert(pow_mod(bi, exp as nat) == (pe * bi) % mi);
                    lemma_mul_mod_noop_general(r0 * bi, pe, mi);
                    lemma_mul_mod_noop_general(r0, pe * bi, mi);
                    assert((r0 * bi) * pe == r0 * (pe * bi)) by (nonlinear_arith);
                }
                exp = exp - 1;
            } else {
                let ghost bi: int = base as int;
                base = mul_mod(base, base);
                proof {
                    lemma_pow_mod_square(bi, (exp as nat) / 2);
                    assert(2 * ((exp as nat) / 2) == exp as nat);
                }
                exp = exp / 2;
            }
        }
        Field { value: result }
    }

    /// Multiplicative inverse, as the Fermat power `self^(MODULUS - 2)`;
    /// zero maps to zero.
    pub fn inv(self) -> (r: Field)
        requires
            self.wf(),
        ensures
            r.wf(),
            r.value == pow_mod(self.value as int, (MODULUS - 2) as nat),
    {
        self.pow(MODULUS - 2)
    }
}

} // verus!
