//! Arbitrary-precision integer foundation.
//!
//! The number-theoretic routines of this crate work over `rug::Integer`.
//! Each operation they need is exposed here as a thin wrapper whose contract
//! relates the result to the mathematical value `int_of` of its operands;
//! everything built on top of these wrappers is verified.

use vstd::prelude::*;
use vstd::arithmetic::power::pow;

verus! {

#[verifier::external_type_specification]
#[verifier::external_body]
pub struct ExInteger(rug::Integer);

/// The mathematical value held by a `rug::Integer`.
pub uninterp spec fn int_of(z: rug::Integer) -> int;

/// Absolute value, as a natural number.
pub open spec fn abs_nat(a: int) -> nat {
    if a < 0 { (-a) as nat } else { a as nat }
}

/// Greatest common divisor of two naturals, by the Euclidean recursion.
pub open spec fn gcd_nat(a: nat, b: nat) -> nat
    decreases b,
{
    if b == 0 { a } else { gcd_nat(b, a % b) }
}

/// Greatest common divisor of two integers: always non-negative.
pub open spec fn gcd_int(a: int, b: int) -> int {
    gcd_nat(abs_nat(a), abs_nat(b)) as int
}

/// `d` divides `x`.
pub open spec fn divides(d: int, x: int) -> bool {
    exists|k: int| x == #[trigger] (k * d)
}

/// The sign of `x`: -1, 0 or 1.
pub open spec fn sgn(x: int) -> int {
    if x > 0 { 1 } else if x < 0 { -1 } else { 0 }
}

/// The Bezout cofactors GMP computes for `gcd(a, b)`, as `rug` documents
/// them: `a * s + b * t == g`, and normally `|s| < |b| / (2g)` and
/// `|t| < |a| / (2g)` (which defines them uniquely), except that when
/// `|a| == |b|` then `s == 0, t == sgn(b)`, and otherwise when `b == 0` or
/// `|b| == 2g` then `s == sgn(a)`, and when `a == 0` or `|a| == 2g` then
/// `t == sgn(b)`.
pub open spec fn canonical_bezout(a: int, b: int, g: int, s: int, t: int) -> bool {
    &&& g == gcd_int(a, b)
    &&& a * s + b * t == g
    &&& (if abs_nat(a) == abs_nat(b) {
        s == 0 && t == sgn(b)
    } else {
        &&& ((b == 0 || abs_nat(b) as int == 2 * g) ==> s == sgn(a))
        &&& (!(b == 0 || abs_nat(b) as int == 2 * g) ==> 2 * g * (abs_nat(s) as int) < abs_nat(
            b,
        ) as int)
        &&& ((a == 0 || abs_nat(a) as int == 2 * g) ==> t == sgn(b))
        &&& (!(a == 0 || abs_nat(a) as int == 2 * g) ==> 2 * g * (abs_nat(t) as int) < abs_nat(
            a,
        ) as int)
    })
}

/// Remainder of truncating division (the sign follows the dividend),
/// as `%` behaves on `rug::Integer`.
pub open spec fn trunc_rem(a: int, b: int) -> int
    recommends b != 0,
{
    if a >= 0 {
        (abs_nat(a) % abs_nat(b)) as int
    } else {
        -((abs_nat(a) % abs_nat(b)) as int)
    }
}

/// The value of a decimal digit string.
pub open spec fn dec_val(s: Seq<char>) -> int
    decreases s.len(),
{
    if s.len() == 0 {
        0
    } else {
        dec_val(s.drop_last()) * 10 + (s.last() as int - '0' as int)
    }
}

/// `s` is a non-empty string of decimal digits.
pub open spec fn is_dec_string(s: Seq<char>) -> bool {
    s.len() > 0 && forall|i: int| 0 <= i < s.len() ==> '0' <= #[trigger] s[i] <= '9'
}

/// A digit string with a leading non-zero digit has value at least 1, and at
/// least 10 when it has two or more digits.
pub proof fn lemma_dec_val_pos(s: Seq<char>)
    requires
        is_dec_string(s),
        s[0] > '0',
    ensures
        dec_val(s) >= 1,
        s.len() >= 2 ==> dec_val(s) >= 10,
    decreases s.len(),
{
    assert(s.last() as int - '0' as int >= 0);
    if s.len() == 1 {
        assert(s.last() == s[0]);
        assert(dec_val(s.drop_last()) == 0);
    } else {
        let dl = s.drop_last();
        assert(dl[0] == s[0]);
        assert(is_dec_string(dl)) by {
            assert forall|i: int| 0 <= i < dl.len() implies '0' <= #[trigger] dl[i] <= '9' by {
                assert(dl[i] == s[i]);
            }
        }
        lemma_dec_val_pos(dl);
    }
}

/// Relies on `rug::Integer::from::<u64>`: builds the integer with that value.
#[verifier::external_body]
pub fn int_from_u64(v: u64) -> (r: rug::Integer)
    ensures
        int_of(r) == v as int,
{
    rug::Integer::from(v)
}

/// Relies on `rug::Integer::from::<i64>`: builds the integer with that value.
#[verifier::external_body]
pub fn int_from_i64(v: i64) -> (r: rug::Integer)
    ensures
        int_of(r) == v as int,
{
    rug::Integer::from(v)
}

/// Relies on `rug::Integer::clone`: the copy holds the same value.
#[verifier::external_body]
pub fn int_clone(a: &rug::Integer) -> (r: rug::Integer)
    ensures
        int_of(r) == int_of(*a),
{
    a.clone()
}

/// Relies on `rug::Integer`'s `Add`: exact integer addition.
#[verifier::external_body]
pub fn int_add(a: &rug::Integer, b: &rug::Integer) -> (r: rug::Integer)
    ensures
        int_of(r) == int_of(*a) + int_of(*b),
{
    rug::Integer::from(a + b)
}

/// Relies on `rug::Integer`'s `Sub`: exact integer subtraction.
#[verifier::external_body]
pub fn int_sub(a: &rug::Integer, b: &rug::Integer) -> (r: rug::Integer)
    ensures
        int_of(r) == int_of(*a) - int_of(*b),
{
    rug::Integer::from(a - b)
}

/// Relies on `rug::Integer`'s `Mul`: exact integer multiplication.
#[verifier::external_body]
pub fn int_mul(a: &rug::Integer, b: &rug::Integer) -> (r: rug::Integer)
    ensures
        int_of(r) == int_of(*a) * int_of(*b),
{
    rug::Integer::from(a * b)
}

/// Relies on `rug::Integer`'s `Neg`: exact negation.
#[verifier::external_body]
pub fn int_neg(a: &rug::Integer) -> (r: rug::Integer)
    ensures
        int_of(r) == -int_of(*a),
{
    rug::Integer::from(-a)
}

/// Relies on `rug::Integer`'s `PartialEq`: equality of the held values.
#[verifier::external_body]
pub fn int_eq(a: &rug::Integer, b: &rug::Integer) -> (r: bool)
    ensures
        r == (int_of(*a) == int_of(*b)),
{
    a == b
}

/// Relies on `rug::Integer`'s `PartialOrd`: order of the held values.
#[verifier::external_body]
pub fn int_lt(a: &rug::Integer, b: &rug::Integer) -> (r: bool)
    ensures
        r == (int_of(*a) < int_of(*b)),
{
    a < b
}

/// Relies on `rug::Integer::div_rem_floor`: floor division with remainder,
/// so the remainder has the sign of the divisor.
#[verifier::external_body]
pub fn int_divrem_floor(a: &rug::Integer, b: &rug::Integer) -> (r: (rug::Integer, rug::Integer))
    requires
        int_of(*b) != 0,
    ensures
        int_of(*a) == int_of(r.0) * int_of(*b) + int_of(r.1),
        int_of(*b) > 0 ==> 0 <= int_of(r.1) < int_of(*b),
        int_of(*b) < 0 ==> int_of(*b) < int_of(r.1) <= 0,
{
    a.clone().div_rem_floor(b.clone())
}

/// Relies on `rug::Integer`'s `Rem`: truncating remainder, whose sign
/// follows the dividend.
#[verifier::external_body]
pub fn int_rem_trunc(a: &rug::Integer, b: &rug::Integer) -> (r: rug::Integer)
    requires
        int_of(*b) != 0,
    ensures
        int_of(r) == trunc_rem(int_of(*a), int_of(*b)),
{
    rug::Integer::from(a % b)
}

/// Relies on `rug::Integer::pow_mod`: modular exponentiation. With a
/// non-negative exponent and a positive modulus an answer always exists
/// and lies in `[0, modulo)`.
#[verifier::external_body]
pub fn int_modpow(b: &rug::Integer, e: &rug::Integer, m: &rug::Integer) -> (r: rug::Integer)
    requires
        int_of(*e) >= 0,
        int_of(*m) > 0,
    ensures
        int_of(r) == pow(int_of(*b), int_of(*e) as nat) % int_of(*m),
{
    b.clone().pow_mod(e, m).unwrap()
}

/// Relies on `rug::Integer::invert`: the modular inverse exists exactly when
/// the operand and the (positive) modulus are coprime, and lies in `[0, modulo)`.
#[verifier::external_body]
pub fn int_invert(a: &rug::Integer, m: &rug::Integer) -> (r: Option<rug::Integer>)
    requires
        int_of(*m) > 0,
    ensures
        (r is Some) <==> gcd_int(int_of(*a), int_of(*m)) == 1,
        r matches Some(v) ==> (int_of(v) * int_of(*a)) % int_of(*m) == 1int % int_of(*m),
        r matches Some(v) ==> 0 <= int_of(v) < int_of(*m),
{
    match a.clone().invert(m) {
        Ok(v) => Some(v),
        Err(_) => None,
    }
}

/// Relies on `rug::Integer::extended_gcd`: the non-negative greatest common
/// divisor together with the canonical Bezout cofactors, whose documented
/// bounds and exceptional cases determine them uniquely.
#[verifier::external_body]
pub fn int_extended_gcd(a: &rug::Integer, b: &rug::Integer) -> (r: (
    rug::Integer,
    rug::Integer,
    rug::Integer,
))
    ensures
        int_of(r.0) == gcd_int(int_of(*a), int_of(*b)),
        int_of(*a) * int_of(r.1) + int_of(*b) * int_of(r.2) == int_of(r.0),
        canonical_bezout(int_of(*a), int_of(*b), int_of(r.0), int_of(r.1), int_of(r.2)),
{
    a.clone().extended_gcd(b.clone(), rug::Integer::new())
}

/// Relies on `rug::Integer::to_u64`: exact conversion of a value that fits.
#[verifier::external_body]
pub fn int_to_u64(a: &rug::Integer) -> (r: u64)
    requires
        0 <= int_of(*a) < 0x1_0000_0000_0000_0000,
    ensures
        r as int == int_of(*a),
{
    a.to_u64().unwrap()
}

/// Relies on `rug::Integer::is_perfect_square`: whether the value is the
/// square of an integer.
#[verifier::external_body]
pub fn int_is_perfect_square(a: &rug::Integer) -> (r: bool)
    ensures
        r == (exists|k: int| #[trigger] (k * k) == int_of(*a)),
{
    a.is_perfect_square()
}

/// Relies on `rug::Integer::from_str_radix` with radix 10: parses a decimal
/// string; a non-empty all-digit string always parses, to its decimal value.
#[verifier::external_body]
pub fn int_from_decimal(s: &str) -> (r: Option<rug::Integer>)
    ensures
        is_dec_string(s@) ==> r is Some,
        r matches Some(v) ==> (is_dec_string(s@) ==> int_of(v) == dec_val(s@)),
{
    match rug::Integer::from_str_radix(s, 10) {
        Ok(v) => Some(v),
        Err(_) => None,
    }
}

} // verus!
