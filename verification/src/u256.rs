//! Unsigned 256-bit integers with overflow-checked arithmetic.

use vstd::prelude::*;

verus! {

/// Two to the power 64.
pub open spec fn pow2_64() -> nat {
    0x1_0000_0000_0000_0000
}

/// Two to the power 128.
pub open spec fn pow2_128() -> nat {
    0xFFFF_FFFF_FFFF_FFFF_FFFF_FFFF_FFFF_FFFF + 1
}

/// Two to the power 256.
pub open spec fn pow2_256() -> nat {
    pow2_128() * pow2_128()
}

/// An unsigned 256-bit integer, held as two 128-bit halves.
#[derive(Clone, Copy, Debug, PartialEq, Eq, PartialOrd, Ord, Hash, Structural)]
pub struct U256 {
    /// The upper 128 bits.
    pub hi: u128,
    /// The lower 128 bits.
    pub lo: u128,
}

impl View for U256 {
    type V = nat;

    /// The number that the two halves stand for.
    open spec fn view(&self) -> nat {
        self.hi as nat * pow2_128() + self.lo as nat
    }
}

/// Two values are equal exactly when they stand for the same number, and
/// every value is below two to the power 256.
pub proof fn lemma_u256_view(a: U256, b: U256)
    ensures
        (a@ == b@) <==> (a == b),
        (a@ < b@) <==> (a.hi < b.hi || (a.hi == b.hi && a.lo < b.lo)),
        a@ < pow2_256(),
{
    assert(a.hi as nat * pow2_128() + pow2_128() <= pow2_128() * pow2_128()) by (nonlinear_arith)
        requires
            a.hi as nat + 1 <= pow2_128(),
    ;
    if a.hi < b.hi {
        assert(a.hi as nat * pow2_128() + pow2_128() <= b.hi as nat * pow2_128())
            by (nonlinear_arith)
            requires
                a.hi as nat + 1 <= b.hi as nat,
        ;
    }
    if b.hi < a.hi {
        assert(b.hi as nat * pow2_128() + pow2_128() <= a.hi as nat * pow2_128())
            by (nonlinear_arith)
            requires
                b.hi as nat + 1 <= a.hi as nat,
        ;
    }
}

/// The product of two numbers below two to the power 64 is at most
/// (2^64 - 1)^2.
proof fn lemma_half_product(x: u128, y: u128)
    requires
        x < pow2_64(),
        y < pow2_64(),
    ensures
        x * y <= 0xFFFF_FFFF_FFFF_FFFE_0000_0000_0000_0001,
{
    assert(x * y <= 0xFFFF_FFFF_FFFF_FFFF * 0xFFFF_FFFF_FFFF_FFFF) by (nonlinear_arith)
        requires
            x <= 0xFFFF_FFFF_FFFF_FFFF,
            y <= 0xFFFF_FFFF_FFFF_FFFF,
    ;
}

/// The full 256-bit product of two 128-bit numbers, as upper and lower half.
fn mul_wide(a: u128, b: u128) -> (r: (u128, u128))
    ensures
        r.0 as nat * pow2_128() + r.1 as nat == a as nat * b as nat,
{
    let k: u128 = 0x1_0000_0000_0000_0000;
    let a1: u128 = a / k;
    let a0: u128 = a % k;
    let b1: u128 = b / k;
    let b0: u128 = b % k;
    proof {
        lemma_half_product(a0, b0);
        lemma_half_product(a0, b1);
        lemma_half_product(a1, b0);
        lemma_half_product(a1, b1);
    }
    let p00: u128 = a0 * b0;
    let p01: u128 = a0 * b1;
    let p10: u128 = a1 * b0;
    let p11: u128 = a1 * b1;
    let t: u128 = p00 / k + p01 % k + p10 % k;
    let lo: u128 = (p00 % k) + (t % k) * k;
    let hi: u128 = p11 + p01 / k + p10 / k + t / k;
    proof {
        let kk = k as nat;
        assert(a as nat * b as nat == (p11 as nat) * kk * kk + (p01 as nat + p10 as nat) * kk
            + p00 as nat) by (nonlinear_arith)
            requires
                a as nat == a1 as nat * kk + a0 as nat,
                b as nat == b1 as nat * kk + b0 as nat,
                p00 as nat == a0 as nat * b0 as nat,
                p01 as nat == a0 as nat * b1 as nat,
                p10 as nat == a1 as nat * b0 as nat,
                p11 as nat == a1 as nat * b1 as nat,
        ;
        assert(hi as nat * pow2_128() + lo as nat == (p11 as nat) * kk * kk + (p01 as nat
            + p10 as nat) * kk + p00 as nat) by (nonlinear_arith)
            requires
                kk == 0x1_0000_0000_0000_0000,
                pow2_128() == kk * kk,
                hi as nat == p11 as nat + p01 as nat / kk + p10 as nat / kk + t as nat / kk,
                lo as nat == (p00 as nat % kk) + (t as nat % kk) * kk,
                t as nat == p00 as nat / kk + p01 as nat % kk + p10 as nat % kk,
        ;
    }
    (hi, lo)
}

impl U256 {
    /// The largest number a value can stand for.
    pub open spec fn spec_max() -> nat {
        (pow2_256() - 1) as nat
    }

    /// The value zero.
    pub fn zero() -> (r: U256)
        ensures
            r@ == 0,
            r == (U256 { hi: 0, lo: 0 }),
    {
        U256 { hi: 0, lo: 0 }
    }

    /// The value of a 64-bit number.
    pub fn from_u64(x: u64) -> (r: U256)
        ensures
            r@ == x,
    {
        U256 { hi: 0, lo: x as u128 }
    }

    /// The value of a 128-bit number.
    pub fn from_u128(x: u128) -> (r: U256)
        ensures
            r@ == x,
    {
        U256 { hi: 0, lo: x }
    }

    /// The value of a machine-sized number.
    pub fn from_usize(x: usize) -> (r: U256)
        ensures
            r@ == x,
    {
        U256 { hi: 0, lo: x as u128 }
    }

    /// Whether the value is zero.
    pub fn is_zero(&self) -> (b: bool)
        ensures
            b == (self@ == 0),
    {
        proof {
            lemma_u256_view(*self, U256 { hi: 0, lo: 0 });
        }
        self.hi == 0 && self.lo == 0
    }

    /// Whether the two values are the same number.
    pub fn same(&self, other: &U256) -> (b: bool)
        ensures
            b == (self@ == other@),
            b == (*self == *other),
    {
        proof {
            lemma_u256_view(*self, *other);
        }
        self.hi == other.hi && self.lo == other.lo
    }

    /// Whether this value is strictly below the other.
    pub fn lt(&self, other: &U256) -> (b: bool)
        ensures
            b == (self@ < other@),
    {
        proof {
            lemma_u256_view(*self, *other);
        }
        self.hi < other.hi || (self.hi == other.hi && self.lo < other.lo)
    }

    /// Whether this value is at most the other.
    pub fn le(&self, other: &U256) -> (b: bool)
        ensures
            b == (self@ <= other@),
    {
        proof {
            lemma_u256_view(*self, *other);
            lemma_u256_view(*other, *self);
        }
        self.hi < other.hi || (self.hi == other.hi && self.lo <= other.lo)
    }

    /// The sum, or `None` when it does not fit in 256 bits.
    pub fn checked_add(&self, other: &U256) -> (r: Option<U256>)
        ensures
            match r {
                Some(v) => v@ == self@ + other@,
                None => self@ + other@ >= pow2_256(),
            },
    {
        let carry: u128;
        let lo: u128;
        if self.lo > u128::MAX - other.lo {
            lo = self.lo - (u128::MAX - other.lo) - 1;
            carry = 1;
        } else {
            lo = self.lo + other.lo;
            carry = 0;
        }
        proof {
            assert((self.hi as nat + other.hi as nat + carry as nat) * pow2_128() + lo as nat
                == self@ + other@) by (nonlinear_arith)
                requires
                    self@ == self.hi as nat * pow2_128() + self.lo as nat,
                    other@ == other.hi as nat * pow2_128() + other.lo as nat,
                    lo as nat + carry as nat * pow2_128() == self.lo as nat + other.lo as nat,
            ;
            if self.hi as nat + other.hi as nat + carry as nat >= pow2_128() {
                assert((self.hi as nat + other.hi as nat + carry as nat) * pow2_128()
                    >= pow2_128() * pow2_128()) by (nonlinear_arith)
                    requires
                        self.hi as nat + other.hi as nat + carry as nat >= pow2_128(),
                ;
            }
        }
        match self.hi.checked_add(other.hi) {
            None => None,
            Some(h) => match h.checked_add(carry) {
                None => None,
                Some(hi) => Some(U256 { hi, lo }),
            },
        }
    }

    /// The difference, or `None` when the other value is larger.
    pub fn checked_sub(&self, other: &U256) -> (r: Option<U256>)
        ensures
            match r {
                Some(v) => v@ == self@ - other@,
                None => self@ < other@,
            },
    {
        if self.lt(other) {
            return None;
        }
        proof {
            lemma_u256_view(*self, *other);
            lemma_u256_view(*other, *self);
        }
        let hi: u128;
        let lo: u128;
        if self.lo >= other.lo {
            lo = self.lo - other.lo;
            hi = self.hi - other.hi;
        } else {
            lo = u128::MAX - other.lo + self.lo + 1;
            hi = self.hi - other.hi - 1;
        }
        proof {
            assert(hi as nat * pow2_128() + lo as nat + other@ == self@) by (nonlinear_arith)
                requires
                    self@ == self.hi as nat * pow2_128() + self.lo as nat,
                    other@ == other.hi as nat * pow2_128() + other.lo as nat,
                    (hi as nat == self.hi as nat - other.hi as nat && lo as nat + other.lo as nat
                        == self.lo as nat) || (hi as nat + 1 + other.hi as nat == self.hi as nat
                        && lo as nat + other.lo as nat == self.lo as nat + pow2_128()),
            ;
        }
        Some(U256 { hi, lo })
    }

    /// The difference, or zero when the other value is larger.
    pub fn saturating_sub(&self, other: &U256) -> (r: U256)
        ensures
            r@ == if self@ >= other@ {
                (self@ - other@) as nat
            } else {
                0
            },
    {
        match self.checked_sub(other) {
            Some(v) => v,
            None => U256 { hi: 0, lo: 0 },
        }
    }

    /// The product, or `None` when it does not fit in 256 bits.
    pub fn checked_mul(&self, other: &U256) -> (r: Option<U256>)
        ensures
            match r {
                Some(v) => v@ == self@ * other@,
                None => self@ * other@ >= pow2_256(),
            },
    {
        if self.hi != 0 && other.hi != 0 {
            proof {
                assert(self.hi as nat * pow2_128() >= pow2_128()) by (nonlinear_arith)
                    requires
                        self.hi >= 1,
                ;
                assert(other.hi as nat * pow2_128() >= pow2_128()) by (nonlinear_arith)
                    requires
                        other.hi >= 1,
                ;
                assert(self@ * other@ >= pow2_128() * pow2_128()) by (nonlinear_arith)
                    requires
                        self@ >= pow2_128(),
                        other@ >= pow2_128(),
                ;
            }
            return None;
        }
        let x: u128 = if self.hi == 0 {
            self.lo
        } else {
            other.lo
        };
        let y: U256 = if self.hi == 0 {
            *other
        } else {
            *self
        };
        let (h0, lower) = mul_wide(x, y.lo);
        proof {
            assert(self@ * other@ == x as nat * y@) by (nonlinear_arith)
                requires
                    (self@ == x as nat && other@ == y@) || (other@ == x as nat && self@ == y@),
            ;
            assert(x as nat * y@ == (x as nat * y.hi as nat + h0 as nat) * pow2_128() + lower as nat)
                by (nonlinear_arith)
                requires
                    y@ == y.hi as nat * pow2_128() + y.lo as nat,
                    h0 as nat * pow2_128() + lower as nat == x as nat * y.lo as nat,
            ;
            if x as nat * y.hi as nat + h0 as nat >= pow2_128() {
                assert((x as nat * y.hi as nat + h0 as nat) * pow2_128() >= pow2_128()
                    * pow2_128()) by (nonlinear_arith)
                    requires
                        x as nat * y.hi as nat + h0 as nat >= pow2_128(),
                ;
            }
        }
        match x.checked_mul(y.hi) {
            None => None,
            Some(m) => match m.checked_add(h0) {
                None => None,
                Some(hi) => Some(U256 { hi, lo: lower }),
            },
        }
    }

    /// The quotient by a positive 64-bit number, capped at the largest
    /// 128-bit number.
    pub fn quotient_clamped(&self, d: u64) -> (r: u128)
        requires
            d > 0,
        ensures
            r as nat == if self@ / (d as nat) > u128::MAX as nat {
                u128::MAX as nat
            } else {
                self@ / (d as nat)
            },
    {
        let dd: u128 = d as u128;
        if self.hi >= dd {
            proof {
                assert(self@ >= dd as nat * pow2_128()) by (nonlinear_arith)
                    requires
                        self@ == self.hi as nat * pow2_128() + self.lo as nat,
                        self.hi as nat >= dd as nat,
                ;
                vstd::arithmetic::div_mod::lemma_div_is_ordered(
                    (dd as nat * pow2_128()) as int,
                    self@ as int,
                    dd as int,
                );
                vstd::arithmetic::div_mod::lemma_div_multiples_vanish(
                    pow2_128() as int,
                    dd as int,
                );
                assert(dd as nat * pow2_128() == pow2_128() * dd as nat) by (nonlinear_arith);
            }
            return u128::MAX;
        }
        let k: u128 = 0x1_0000_0000_0000_0000;
        let upper: u128 = self.lo / k;
        let lower: u128 = self.lo % k;
        let num_upper: u128 = self.hi * k + upper;
        let quot_upper: u128 = num_upper / dd;
        let rest_upper: u128 = num_upper % dd;
        let num_lower: u128 = rest_upper * k + lower;
        let quot_lower: u128 = num_lower / dd;
        let rest_lower: u128 = num_lower % dd;
        proof {
            let kk = k as nat;
            vstd::arithmetic::div_mod::lemma_fundamental_div_mod(num_upper as int, dd as int);
            vstd::arithmetic::div_mod::lemma_fundamental_div_mod(num_lower as int, dd as int);
            assert(quot_upper < kk) by (nonlinear_arith)
                requires
                    num_upper as nat == dd as nat * quot_upper as nat + rest_upper as nat,
                    (num_upper as nat) < dd as nat * kk,
            ;
            assert(quot_lower < kk) by (nonlinear_arith)
                requires
                    num_lower as nat == dd as nat * quot_lower as nat + rest_lower as nat,
                    (num_lower as nat) < dd as nat * kk,
            ;
        }
        let q: u128 = quot_upper * k + quot_lower;
        proof {
            let kk = k as nat;
            assert(self@ == q as nat * dd as nat + rest_lower as nat) by (nonlinear_arith)
                requires
                    self@ == self.hi as nat * (kk * kk) + upper as nat * kk + lower as nat,
                    num_upper as nat == self.hi as nat * kk + upper as nat,
                    num_upper as nat == dd as nat * quot_upper as nat + rest_upper as nat,
                    num_lower as nat == rest_upper as nat * kk + lower as nat,
                    num_lower as nat == dd as nat * quot_lower as nat + rest_lower as nat,
                    q as nat == quot_upper as nat * kk + quot_lower as nat,
            ;
            vstd::arithmetic::div_mod::lemma_fundamental_div_mod_converse(
                self@ as int,
                dd as int,
                q as int,
                rest_lower as int,
            );
        }
        q
    }
}

} // verus!
