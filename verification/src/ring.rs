//! Ring and bit operation traits, implemented for the primitive integers.

use vstd::prelude::*;
use vstd::arithmetic::power2::{pow2, lemma_pow2_adds, lemma_pow2_pos,
    lemma_pow2_strictly_increases, lemma2_to64};
use vstd::arithmetic::div_mod::{lemma_fundamental_div_mod, lemma_mod_division_less_than_divisor,
    lemma_small_mod, lemma_basic_div};
use vstd::arithmetic::mul::{lemma_mul_inequality, lemma_mul_is_commutative};
use crate::bits::{nth_bit, is_bit_len, bit_len_word};
use crate::gcd_ops::spec_gcd;
use crate::ubig::UBig;
use crate::ibig::IBig;
use crate::repr::TypedRepr;
use crate::sign::Sign;

verus! {

/// Quotient and remainder in one call.
pub trait DivRem<Rhs> where Self: Sized {
    type OutputDiv;

    type OutputRem;

    /// When the operation is defined.
    spec fn div_rem_req(self, rhs: Rhs) -> bool;

    /// What the pair of results means.
    spec fn div_rem_ens(self, rhs: Rhs, r: (Self::OutputDiv, Self::OutputRem)) -> bool;

    fn div_rem(self, rhs: Rhs) -> (r: (Self::OutputDiv, Self::OutputRem))
        requires
            self.div_rem_req(rhs),
        ensures
            self.div_rem_ens(rhs, r),
    ;
}

/// Quotient in place, remainder returned.
pub trait DivRemAssign<Rhs> where Self: Sized {
    type OutputRem;

    /// When the operation is defined.
    spec fn div_rem_assign_req(self, rhs: Rhs) -> bool;

    /// How the new value and the remainder relate to the old value.
    spec fn div_rem_assign_ens(self, new_self: Self, rhs: Rhs, r: Self::OutputRem) -> bool;

    fn div_rem_assign(&mut self, rhs: Rhs) -> (r: Self::OutputRem)
        requires
            old(self).div_rem_assign_req(rhs),
        ensures
            old(self).div_rem_assign_ens(*final(self), rhs, r),
    ;
}

/// Euclidean quotient.
pub trait DivEuclid<Rhs> where Self: Sized {
    type Output;

    /// When the operation is defined.
    spec fn div_euclid_req(self, rhs: Rhs) -> bool;

    /// What the result means.
    spec fn div_euclid_ens(self, rhs: Rhs, r: Self::Output) -> bool;

    fn div_euclid(self, rhs: Rhs) -> (r: Self::Output)
        requires
            self.div_euclid_req(rhs),
        ensures
            self.div_euclid_ens(rhs, r),
    ;
}

/// Euclidean remainder.
pub trait RemEuclid<Rhs> where Self: Sized {
    type Output;

    /// When the operation is defined.
    spec fn rem_euclid_req(self, rhs: Rhs) -> bool;

    /// What the result means.
    spec fn rem_euclid_ens(self, rhs: Rhs, r: Self::Output) -> bool;

    fn rem_euclid(self, rhs: Rhs) -> (r: Self::Output)
        requires
            self.rem_euclid_req(rhs),
        ensures
            self.rem_euclid_ens(rhs, r),
    ;
}

/// Euclidean quotient and remainder together.
pub trait DivRemEuclid<Rhs> where Self: Sized {
    type OutputDiv;

    type OutputRem;

    /// When the operation is defined.
    spec fn div_rem_euclid_req(self, rhs: Rhs) -> bool;

    /// What the pair of results means.
    spec fn div_rem_euclid_ens(self, rhs: Rhs, r: (Self::OutputDiv, Self::OutputRem)) -> bool;

    fn div_rem_euclid(self, rhs: Rhs) -> (r: (Self::OutputDiv, Self::OutputRem))
        requires
            self.div_rem_euclid_req(rhs),
        ensures
            self.div_rem_euclid_ens(rhs, r),
    ;
}

/// Greatest common divisor.
pub trait Gcd<Rhs> where Self: Sized {
    type Output;

    /// When the operation is defined: not both operands zero.
    spec fn gcd_req(self, rhs: Rhs) -> bool;

    /// What the result means.
    spec fn gcd_ens(self, rhs: Rhs, r: Self::Output) -> bool;

    fn gcd(self, rhs: Rhs) -> (r: Self::Output)
        requires
            self.gcd_req(rhs),
        ensures
            self.gcd_ens(rhs, r),
    ;
}

/// Greatest common divisor with Bézout cofactors.
pub trait ExtendedGcd<Rhs> where Self: Sized {
    type OutputGcd;

    type OutputCoeff;

    /// When the operation is defined: not both operands zero.
    spec fn gcd_ext_req(self, rhs: Rhs) -> bool;

    /// What the triple of results means.
    spec fn gcd_ext_ens(
        self,
        rhs: Rhs,
        r: (Self::OutputGcd, Self::OutputCoeff, Self::OutputCoeff),
    ) -> bool;

    fn gcd_ext(self, rhs: Rhs) -> (r: (Self::OutputGcd, Self::OutputCoeff, Self::OutputCoeff))
        requires
            self.gcd_ext_req(rhs),
        ensures
            self.gcd_ext_ens(rhs, r),
    ;
}

/// Square and cube roots with remainders.
pub trait RootRem where Self: Sized {
    type Output;

    /// What the square root pair means.
    spec fn sqrt_rem_ens(self, r: (Self::Output, Self::Output)) -> bool;

    /// What the cube root pair means.
    spec fn cbrt_rem_ens(self, r: (Self::Output, Self::Output)) -> bool;

    fn sqrt_rem(self) -> (r: (Self::Output, Self::Output))
        ensures
            self.sqrt_rem_ens(r),
    ;

    fn cbrt_rem(self) -> (r: (Self::Output, Self::Output))
        ensures
            self.cbrt_rem_ens(r),
    ;
}

/// Bitwise AND NOT.
pub trait AndNot<Rhs> where Self: Sized {
    type Output;

    /// What the result means.
    spec fn and_not_ens(self, rhs: Rhs, r: Self::Output) -> bool;

    fn and_not(self, rhs: Rhs) -> (r: Self::Output)
        ensures
            self.and_not_ens(rhs, r),
    ;
}

/// Bit length, single-bit tests and trailing zeros.
pub trait BitTest {
    /// The value under test, as a natural number.
    spec fn bit_view(&self) -> nat;

    fn bit_len(&self) -> (r: usize)
        ensures
            is_bit_len(self.bit_view(), r as nat),
    ;

    fn bit(&self, n: usize) -> (r: bool)
        ensures
            r == nth_bit(self.bit_view(), n as nat),
    ;

    fn trailing_zeros(&self) -> (r: Option<usize>)
        ensures
            match r {
                Some(c) => self.bit_view() % pow2(c as nat) == 0 && nth_bit(
                    self.bit_view(),
                    c as nat,
                ),
                None => self.bit_view() == 0,
            },
    ;
}

/// Powers of two.
pub trait PowerOfTwo {
    /// The value under test, as an integer.
    spec fn pow2_view(&self) -> int;

    fn is_power_of_two(&self) -> (r: bool)
        ensures
            r == vstd::arithmetic::power2::is_pow2(self.pow2_view()),
    ;
}

impl DivRem<u64> for u64 {
    type OutputDiv = u64;

    type OutputRem = u64;

    open spec fn div_rem_req(self, rhs: u64) -> bool {
        rhs > 0
    }

    open spec fn div_rem_ens(self, rhs: u64, r: (u64, u64)) -> bool {
        r.0 == self / rhs && r.1 == self % rhs
    }

    /// Truncating quotient and remainder.
    fn div_rem(self, rhs: u64) -> (r: (u64, u64)) {
        (self / rhs, self % rhs)
    }
}

impl DivRem<u128> for u128 {
    type OutputDiv = u128;

    type OutputRem = u128;

    open spec fn div_rem_req(self, rhs: u128) -> bool {
        rhs > 0
    }

    open spec fn div_rem_ens(self, rhs: u128, r: (u128, u128)) -> bool {
        r.0 == self / rhs && r.1 == self % rhs
    }

    /// Truncating quotient and remainder.
    fn div_rem(self, rhs: u128) -> (r: (u128, u128)) {
        (self / rhs, self % rhs)
    }
}

impl DivRemAssign<u64> for u64 {
    type OutputRem = u64;

    open spec fn div_rem_assign_req(self, rhs: u64) -> bool {
        rhs > 0
    }

    open spec fn div_rem_assign_ens(self, new_self: u64, rhs: u64, r: u64) -> bool {
        new_self == self / rhs && r == self % rhs
    }

    /// Quotient stored in place; the remainder comes back.
    fn div_rem_assign(&mut self, rhs: u64) -> (r: u64) {
        let rem = *self % rhs;
        *self = *self / rhs;
        rem
    }
}

impl DivEuclid<u64> for u64 {
    type Output = u64;

    open spec fn div_euclid_req(self, rhs: u64) -> bool {
        rhs > 0
    }

    open spec fn div_euclid_ens(self, rhs: u64, r: u64) -> bool {
        r == self / rhs
    }

    /// For unsigned values the Euclidean quotient is plain division.
    fn div_euclid(self, rhs: u64) -> (r: u64) {
        self / rhs
    }
}

impl RemEuclid<u64> for u64 {
    type Output = u64;

    open spec fn rem_euclid_req(self, rhs: u64) -> bool {
        rhs > 0
    }

    open spec fn rem_euclid_ens(self, rhs: u64, r: u64) -> bool {
        r == self % rhs
    }

    /// For unsigned values the Euclidean remainder is the plain remainder.
    fn rem_euclid(self, rhs: u64) -> (r: u64) {
        self % rhs
    }
}

impl DivRemEuclid<u64> for u64 {
    type OutputDiv = u64;

    type OutputRem = u64;

    open spec fn div_rem_euclid_req(self, rhs: u64) -> bool {
        rhs > 0
    }

    open spec fn div_rem_euclid_ens(self, rhs: u64, r: (u64, u64)) -> bool {
        r.0 == self / rhs && r.1 == self % rhs
    }

    /// Euclidean quotient and remainder for unsigned values.
    fn div_rem_euclid(self, rhs: u64) -> (r: (u64, u64)) {
        (self / rhs, self % rhs)
    }
}

/// Euclid's loop on double words.
pub fn gcd_dword(a: u128, b: u128) -> (r: u128)
    requires
        a > 0 || b > 0,
    ensures
        r == spec_gcd(a as nat, b as nat),
        r > 0,
{
    let mut x = a;
    let mut y = b;
    while y != 0
        invariant
            spec_gcd(x as nat, y as nat) == spec_gcd(a as nat, b as nat),
            x > 0 || y > 0,
        decreases y,
    {
        let t = x % y;
        x = y;
        y = t;
    }
    proof {
        crate::gcd_ops::lemma_gcd_pos(a as nat, b as nat);
    }
    x
}

impl Gcd<u64> for u64 {
    type Output = u64;

    open spec fn gcd_req(self, rhs: u64) -> bool {
        self > 0 || rhs > 0
    }

    open spec fn gcd_ens(self, rhs: u64, r: u64) -> bool {
        r == spec_gcd(self as nat, rhs as nat) && r > 0
    }

    /// Greatest common divisor; the operands must not both be zero.
    fn gcd(self, rhs: u64) -> (r: u64) {
        let g = gcd_dword(self as u128, rhs as u128);
        proof {
            lemma_gcd_le(self as nat, rhs as nat);
        }
        g as u64
    }
}

impl Gcd<u8> for u8 {
    type Output = u8;

    open spec fn gcd_req(self, rhs: u8) -> bool {
        self > 0 || rhs > 0
    }

    open spec fn gcd_ens(self, rhs: u8, r: u8) -> bool {
        r == spec_gcd(self as nat, rhs as nat) && r > 0
    }

    /// Greatest common divisor; the operands must not both be zero.
    fn gcd(self, rhs: u8) -> (r: u8) {
        let g = gcd_dword(self as u128, rhs as u128);
        proof {
            lemma_gcd_le(self as nat, rhs as nat);
        }
        g as u8
    }
}

impl Gcd<u128> for u128 {
    type Output = u128;

    open spec fn gcd_req(self, rhs: u128) -> bool {
        self > 0 || rhs > 0
    }

    open spec fn gcd_ens(self, rhs: u128, r: u128) -> bool {
        r == spec_gcd(self as nat, rhs as nat) && r > 0
    }

    /// Greatest common divisor; the operands must not both be zero.
    fn gcd(self, rhs: u128) -> (r: u128) {
        gcd_dword(self, rhs)
    }
}

/// The gcd never exceeds a nonzero operand pair's maximum.
proof fn lemma_gcd_le(a: nat, b: nat)
    requires
        a > 0 || b > 0,
    ensures
        spec_gcd(a, b) <= a || spec_gcd(a, b) <= b,
{
    crate::gcd_ops::lemma_gcd_pos(a, b);
    crate::gcd_ops::lemma_gcd_divides(a, b);
    let g = spec_gcd(a, b);
    if a > 0 {
        lemma_divides_le(g, a);
    } else {
        lemma_divides_le(g, b);
    }
}

/// A divisor of a positive number is no larger than it.
proof fn lemma_divides_le(d: nat, x: nat)
    requires
        d > 0,
        x > 0,
        x % d == 0,
    ensures
        d <= x,
{
    if d > x {
        lemma_small_mod(x, d);
    }
}

impl ExtendedGcd<u8> for u8 {
    type OutputGcd = u8;

    type OutputCoeff = i64;

    open spec fn gcd_ext_req(self, rhs: u8) -> bool {
        self > 0 || rhs > 0
    }

    open spec fn gcd_ext_ens(self, rhs: u8, r: (u8, i64, i64)) -> bool {
        r.0 == spec_gcd(self as nat, rhs as nat) && r.1 * self + r.2 * rhs == r.0
    }

    /// Gcd with Bézout cofactors: `g == cx * self + cy * rhs`.
    fn gcd_ext(self, rhs: u8) -> (r: (u8, i64, i64)) {
        let a = UBig::from_word(self as u64);
        let b = UBig::from_word(rhs as u64);
        proof {
            lemma_cap_plenty();
        }
        let (g, s, t) = a.extended_gcd(&b);
        proof {
            lemma_gcd_le(self as nat, rhs as nat);
            crate::ubig::lemma_value_bound(&g);
        }
        let gw = ubig_to_small(&g) as u8;
        let sw = ibig_to_small(&s);
        let tw = ibig_to_small(&t);
        (gw, sw, tw)
    }
}

/// The capacity limit easily covers single-word operands.
proof fn lemma_cap_plenty()
    ensures
        crate::buffer::MAX_CAPACITY >= 67108863,
{
    assert(usize::MAX >= 0xffffffff);
    vstd::arithmetic::div_mod::lemma_div_is_ordered(0xffffffff, usize::MAX as int, 64);
}

/// Extract a value known to fit one word.
fn ubig_to_small(x: &UBig) -> (r: u64)
    requires
        x.wf(),
        x.value() < 0x1_0000_0000_0000_0000,
    ensures
        r == x.value(),
{
    proof {
        crate::primitive::lemma_word_base();
    }
    match &x.0.magnitude {
        TypedRepr::Small(dw) => (*dw % crate::primitive::DWORD_BASE) as u64,
        TypedRepr::Large(w) => {
            proof {
                crate::repr::lemma_large_value_lower(w@);
                lemma_pow2_adds(64, 64);
                vstd::arithmetic::power2::lemma2_to64_rest();
                assert(false);
            }
            0
        },
    }
}

/// Extract a signed value with a small magnitude.
fn ibig_to_small(x: &IBig) -> (r: i64)
    requires
        x.wf(),
        x.mag() <= 0xffff_ffff,
    ensures
        r == x.value(),
{
    proof {
        crate::primitive::lemma_word_base();
    }
    match &x.0.magnitude {
        TypedRepr::Small(dw) => {
            let m = (*dw % crate::primitive::DWORD_BASE) as i64;
            proof {
                match x.0.sign {
                    Sign::Positive => {
                        assert(x.value() == 1 * x.mag());
                    },
                    Sign::Negative => {
                        assert(x.value() == (-1) * (x.mag() as int));
                    },
                }
            }
            match x.0.sign() {
                Sign::Positive => m,
                Sign::Negative => -m,
            }
        },
        TypedRepr::Large(w) => {
            proof {
                crate::repr::lemma_large_value_lower(w@);
                lemma_pow2_adds(64, 64);
                vstd::arithmetic::power2::lemma2_to64_rest();
                assert(false);
            }
            0
        },
    }
}

impl RootRem for u64 {
    type Output = u64;

    open spec fn sqrt_rem_ens(self, res: (u64, u64)) -> bool {
        self == res.0 * res.0 + res.1 && res.1 <= 2 * res.0
    }

    open spec fn cbrt_rem_ens(self, res: (u64, u64)) -> bool {
        self == res.0 * res.0 * res.0 + res.1 && res.1 <= 3 * (res.0 * (res.0 + 1))
    }

    /// Square root and remainder: `self == r^2 + e`, `e <= 2 r`.
    fn sqrt_rem(self) -> (res: (u64, u64)) {
        proof {
            lemma_cap_plenty();
        }
        let x = UBig::from_word(self);
        let (root, rem) = x.sqrt_rem();
        proof {
            lemma_root_small(root.value(), rem.value(), self as nat);
            crate::primitive::lemma_word_base();
            vstd::arithmetic::power2::lemma2_to64_rest();
        }
        (ubig_to_small(&root), ubig_to_small(&rem))
    }

    /// Cube root and remainder: `self == r^3 + e`, `e <= 3 r (r+1)`.
    fn cbrt_rem(self) -> (res: (u64, u64)) {
        proof {
            lemma_cap_plenty();
        }
        let x = UBig::from_word(self);
        let (root, rem) = x.cbrt_rem();
        proof {
            lemma_cbrt_small(root.value(), rem.value(), self as nat);
            crate::primitive::lemma_word_base();
            vstd::arithmetic::power2::lemma2_to64_rest();
        }
        (ubig_to_small(&root), ubig_to_small(&rem))
    }
}

impl RootRem for u128 {
    type Output = u128;

    open spec fn sqrt_rem_ens(self, res: (u128, u128)) -> bool {
        self == res.0 * res.0 + res.1 && res.1 <= 2 * res.0
    }

    open spec fn cbrt_rem_ens(self, res: (u128, u128)) -> bool {
        self == res.0 * res.0 * res.0 + res.1 && res.1 <= 3 * (res.0 * (res.0 + 1))
    }

    /// Square root and remainder: `self == r^2 + e`, `e <= 2 r`.
    fn sqrt_rem(self) -> (res: (u128, u128)) {
        proof {
            lemma_cap_plenty();
        }
        let x = UBig::from_dword(self);
        let (root, rem) = x.sqrt_rem();
        proof {
            crate::ubig::lemma_value_bound(&root);
            crate::ubig::lemma_value_bound(&rem);
            crate::primitive::lemma_word_base();
            lemma_pow2_adds(64, 64);
            vstd::arithmetic::power2::lemma2_to64_rest();
            lemma_root_dword(root.value(), rem.value(), self as nat);
        }
        (ubig_to_dword(&root), ubig_to_dword(&rem))
    }

    /// Cube root and remainder: `self == r^3 + e`, `e <= 3 r (r+1)`.
    fn cbrt_rem(self) -> (res: (u128, u128)) {
        proof {
            lemma_cap_plenty();
        }
        let x = UBig::from_dword(self);
        let (root, rem) = x.cbrt_rem();
        proof {
            crate::primitive::lemma_word_base();
            lemma_pow2_adds(64, 64);
            vstd::arithmetic::power2::lemma2_to64_rest();
            lemma_cbrt_dword(root.value(), rem.value(), self as nat);
        }
        (ubig_to_dword(&root), ubig_to_dword(&rem))
    }
}

/// Extract a value known to fit a double word.
fn ubig_to_dword(x: &UBig) -> (r: u128)
    requires
        x.wf(),
        x.value() < pow2(128),
    ensures
        r == x.value(),
{
    proof {
        crate::primitive::lemma_word_base();
        lemma_pow2_adds(64, 64);
    }
    match &x.0.magnitude {
        TypedRepr::Small(dw) => *dw,
        TypedRepr::Large(w) => {
            proof {
                crate::repr::lemma_large_value_lower(w@);
                assert(false);
            }
            0
        },
    }
}

/// A root of a one-word value fits one word, and so does its remainder.
proof fn lemma_root_small(r: nat, e: nat, n: nat)
    requires
        n < pow2(64),
        n == r * r + e,
        e <= 2 * r,
    ensures
        r < pow2(64),
        e < pow2(64),
{
    lemma_pow2_pos(64);
    if r >= 1 {
        lemma_mul_inequality(1, r as int, r as int);
        lemma_mul_is_commutative(1, r as int);
        vstd::arithmetic::mul::lemma_mul_basics(r as int);
    }
}

/// A cube root of a one-word value fits one word, and so does its remainder.
proof fn lemma_cbrt_small(r: nat, e: nat, n: nat)
    requires
        n < pow2(64),
        n == r * r * r + e,
        e <= 3 * (r * (r + 1)),
    ensures
        r < pow2(64),
        e < pow2(64),
{
    lemma_pow2_pos(64);
    lemma_cube_ge(r);
}

/// A root of a double-word value fits a double word, with its remainder.
proof fn lemma_root_dword(r: nat, e: nat, n: nat)
    requires
        n < pow2(128),
        n == r * r + e,
        e <= 2 * r,
    ensures
        r < pow2(128),
        e < pow2(128),
{
    lemma_pow2_pos(128);
    if r >= 1 {
        lemma_mul_inequality(1, r as int, r as int);
        lemma_mul_is_commutative(1, r as int);
        vstd::arithmetic::mul::lemma_mul_basics(r as int);
    }
}

/// A cube root of a double-word value fits a double word.
proof fn lemma_cbrt_dword(r: nat, e: nat, n: nat)
    requires
        n < pow2(128),
        n == r * r * r + e,
        e <= 3 * (r * (r + 1)),
    ensures
        r < pow2(128),
        e < pow2(128),
{
    lemma_pow2_pos(128);
    lemma_cube_ge(r);
}

/// A number is at most its own cube.
proof fn lemma_cube_ge(r: nat)
    ensures
        r <= r * r * r,
{
    if r >= 1 {
        lemma_mul_inequality(1, r as int, r as int);
        lemma_mul_is_commutative(1, r as int);
        vstd::arithmetic::mul::lemma_mul_basics(r as int);
        lemma_mul_inequality(1, (r * r) as int, r as int);
        lemma_mul_is_commutative(1, r as int);
        lemma_mul_is_commutative((r * r) as int, r as int);
        vstd::arithmetic::mul::lemma_mul_basics(r as int);
    }
}

impl AndNot<u64> for u64 {
    type Output = u64;

    open spec fn and_not_ens(self, rhs: u64, r: u64) -> bool {
        r == self & !rhs
    }

    /// `self & !rhs`.
    fn and_not(self, rhs: u64) -> (r: u64) {
        self & !rhs
    }
}

impl AndNot<u128> for u128 {
    type Output = u128;

    open spec fn and_not_ens(self, rhs: u128, r: u128) -> bool {
        r == self & !rhs
    }

    /// `self & !rhs`.
    fn and_not(self, rhs: u128) -> (r: u128) {
        self & !rhs
    }
}

impl BitTest for u64 {
    open spec fn bit_view(&self) -> nat {
        *self as nat
    }

    /// Minimum number of bits needed to represent the value.
    fn bit_len(&self) -> (r: usize) {
        bit_len_word(*self) as usize
    }

    /// Bit `n` of the value.
    fn bit(&self, n: usize) -> (r: bool) {
        if n >= 64 {
            proof {
                vstd::arithmetic::power2::lemma2_to64_rest();
                assert(pow2(64) <= pow2(n as nat)) by {
                    if 64 < n as nat {
                        lemma_pow2_strictly_increases(64, n as nat);
                    }
                }
                lemma_basic_div(*self as int, pow2(n as nat) as int);
            }
            false
        } else {
            let p = crate::shift_ops::pow2_word(n as u32);
            proof {
                lemma_pow2_pos(n as nat);
            }
            (*self / p) % 2 == 1
        }
    }

    /// Number of trailing zero bits; none for the value zero.
    fn trailing_zeros(&self) -> (r: Option<usize>) {
        if *self == 0 {
            return None;
        }
        let mut x: u64 = *self;
        let mut c: usize = 0;
        proof {
            lemma2_to64();
            vstd::arithmetic::mul::lemma_mul_basics(x as int);
        }
        while x % 2 == 0
            invariant
                *self as nat == x * pow2(c as nat),
                x > 0,
            decreases x,
        {
            proof {
                lemma_pow2_pos(c as nat);
                lemma_pow2_adds(c as nat, 1);
                lemma2_to64();
                lemma_fundamental_div_mod(x as int, 2);
                // (x/2) * 2^(c+1) == x * 2^c
                let h = x as int / 2;
                assert(h * (pow2(c as nat) * 2) == (h * 2) * pow2(c as nat)) by {
                    vstd::arithmetic::mul::lemma_mul_is_associative(h, pow2(c as nat) as int, 2);
                    vstd::arithmetic::mul::lemma_mul_is_commutative(pow2(c as nat) as int, 2);
                    vstd::arithmetic::mul::lemma_mul_is_associative(h, 2, pow2(c as nat) as int);
                }
                assert(c < 64) by {
                    if c >= 64 {
                        lemma_pow2_pos(c as nat);
                        assert(pow2(64) <= pow2(c as nat)) by {
                            if 64 < c as nat {
                                lemma_pow2_strictly_increases(64, c as nat);
                            }
                        }
                        vstd::arithmetic::power2::lemma2_to64_rest();
                        lemma_mul_inequality(1, x as int, pow2(c as nat) as int);
                        lemma_mul_is_commutative(x as int, pow2(c as nat) as int);
                        assert(false);
                    }
                }
            }
            x = x / 2;
            c = c + 1;
        }
        proof {
            // self % 2^c == 0 and bit c of self is the low bit of x
            lemma_pow2_pos(c as nat);
            vstd::arithmetic::div_mod::lemma_mod_multiples_basic(x as int, pow2(c as nat) as int);
            lemma_mul_is_commutative(x as int, pow2(c as nat) as int);
            crate::div_ops::lemma_euclidean_unique(
                *self as nat,
                pow2(c as nat),
                x as nat,
                0,
            );
        }
        Some(c)
    }
}

impl PowerOfTwo for u64 {
    open spec fn pow2_view(&self) -> int {
        *self as int
    }

    /// Whether the value is an exact power of two.
    fn is_power_of_two(&self) -> (r: bool) {
        proof {
            vstd::arithmetic::power2::is_pow2_equiv(*self as int);
        }
        if *self == 0 {
            proof {
                lemma_no_pow2_zero();
            }
            return false;
        }
        let mut x: u64 = *self;
        let mut c: usize = 0;
        proof {
            lemma2_to64();
            vstd::arithmetic::mul::lemma_mul_basics(x as int);
        }
        while x % 2 == 0
            invariant
                *self as nat == x * pow2(c as nat),
                x > 0,
                c <= 64,
            decreases x,
        {
            proof {
                lemma_pow2_pos(c as nat);
                lemma_pow2_adds(c as nat, 1);
                lemma2_to64();
                lemma_fundamental_div_mod(x as int, 2);
                let h = x as int / 2;
                assert(h * (pow2(c as nat) * 2) == (h * 2) * pow2(c as nat)) by {
                    vstd::arithmetic::mul::lemma_mul_is_associative(h, pow2(c as nat) as int, 2);
                    vstd::arithmetic::mul::lemma_mul_is_commutative(pow2(c as nat) as int, 2);
                    vstd::arithmetic::mul::lemma_mul_is_associative(h, 2, pow2(c as nat) as int);
                }
                assert(c < 64) by {
                    if c >= 64 {
                        vstd::arithmetic::power2::lemma2_to64_rest();
                        assert(pow2(64) <= pow2(c as nat)) by {
                            if 64 < c as nat {
                                lemma_pow2_strictly_increases(64, c as nat);
                            }
                        }
                        lemma_mul_inequality(1, x as int, pow2(c as nat) as int);
                        lemma_mul_is_commutative(x as int, pow2(c as nat) as int);
                        assert(false);
                    }
                }
            }
            x = x / 2;
            c = c + 1;
        }
        let r = x == 1;
        proof {
            vstd::arithmetic::mul::lemma_mul_basics(pow2(c as nat) as int);
            if x == 1 {
                assert(*self as nat == pow2(c as nat));
                vstd::arithmetic::power::lemma_pow_positive(2, c as nat);
                assert(vstd::arithmetic::power::pow(2, c as nat) == *self as int);
                assert(vstd::arithmetic::power2::is_pow2_exists(*self as int));
            } else {
                // an odd cofactor above one rules out a power of two
                if vstd::arithmetic::power2::is_pow2_exists(*self as int) {
                    let e = choose|i: nat| vstd::arithmetic::power::pow(2, i) == *self as int;
                    assert(pow2(e) == *self as nat);
                    lemma_odd_factor_one(x as nat, c as nat, e);
                }
            }
        }
        r
    }
}

/// Zero is not a power of two.
proof fn lemma_no_pow2_zero()
    ensures
        !vstd::arithmetic::power2::is_pow2_exists(0),
{
    if vstd::arithmetic::power2::is_pow2_exists(0) {
        let e = choose|i: nat| vstd::arithmetic::power::pow(2, i) == 0;
        vstd::arithmetic::power::lemma_pow_positive(2, e);
    }
}

/// The odd factor of an exact power of two is one.
proof fn lemma_odd_factor_one(x: nat, c: nat, e: nat)
    requires
        x % 2 == 1,
        x >= 1,
        x * pow2(c) == pow2(e),
    ensures
        x == 1,
    decreases c,
{
    lemma_pow2_pos(c);
    lemma_pow2_pos(e);
    if c == 0 {
        // x == 2^e with x odd and x > 1: 2^e is even for e > 0
        lemma2_to64();
        vstd::arithmetic::mul::lemma_mul_basics(x as int);
        if e > 0 {
            lemma_pow2_adds((e - 1) as nat, 1);
            vstd::arithmetic::div_mod::lemma_mod_multiples_basic(
                pow2((e - 1) as nat) as int,
                2,
            );
            assert(pow2(e) == pow2((e - 1) as nat) * 2);
        }
    } else {
        // divide both sides by two
        if e == 0 {
            lemma2_to64();
            lemma_mul_inequality(1, x as int, pow2(c) as int);
            lemma_mul_is_commutative(x as int, pow2(c) as int);
            lemma_pow2_strictly_increases(0, c);
        } else {
            lemma_pow2_adds((c - 1) as nat, 1);
            lemma_pow2_adds((e - 1) as nat, 1);
            lemma2_to64();
            assert(x * (pow2((c - 1) as nat) * 2) == (x * pow2((c - 1) as nat)) * 2) by {
                vstd::arithmetic::mul::lemma_mul_is_associative(
                    x as int,
                    pow2((c - 1) as nat) as int,
                    2,
                );
            }
            vstd::arithmetic::mul::lemma_mul_is_commutative(
                pow2((e - 1) as nat) as int,
                2,
            );
            vstd::arithmetic::mul::lemma_mul_is_commutative(
                (x * pow2((c - 1) as nat)) as int,
                2,
            );
            assert(x * pow2((c - 1) as nat) == pow2((e - 1) as nat));
            lemma_odd_factor_one(x, (c - 1) as nat, (e - 1) as nat);
        }
    }
}

} // verus!
