//! Modular-arithmetic utilities for witness aggregation: Shamir's trick over
//! an abstract group and a linear congruence solver.

use vstd::prelude::*;
use vstd::arithmetic::power::pow;
use vstd::arithmetic::div_mod::{
    lemma_fundamental_div_mod, lemma_mul_mod_noop_general, lemma_small_mod,
};
use crate::arith::{
    abs_nat, canonical_bezout, dec_val, divides, gcd_int, gcd_nat, int_divrem_floor, int_eq,
    int_extended_gcd, int_from_decimal, int_from_u64, int_invert, int_lt, int_modpow, int_mul,
    int_neg, int_of, int_rem_trunc, is_dec_string, lemma_dec_val_pos, trunc_rem,
};

verus! {

/// Errors reported by the utilities of this module.
#[derive(Debug)]
pub enum UtilityError {
    NoSolutionToLinearCongruence,
}

/// The gcd of two naturals divides both of them, and is zero only when both
/// are zero.
pub proof fn lemma_gcd_divides(a: nat, b: nat)
    ensures
        divides(gcd_nat(a, b) as int, a as int),
        divides(gcd_nat(a, b) as int, b as int),
        gcd_nat(a, b) == 0 ==> a == 0 && b == 0,
    decreases b,
{
    if b == 0 {
        assert(a as int == 1 * (gcd_nat(a, b) as int));
        assert(b as int == 0 * (gcd_nat(a, b) as int));
    } else {
        lemma_gcd_divides(b, a % b);
        let g = gcd_nat(b, a % b) as int;
        let k1 = choose|k: int| b as int == #[trigger] (k * g);
        let k2 = choose|k: int| (a % b) as int == #[trigger] (k * g);
        vstd::arithmetic::div_mod::lemma_fundamental_div_mod(a as int, b as int);
        assert(a as int == (a as int / b as int) * (b as int) + (a % b) as int);
        assert(a as int == ((a as int / b as int) * k1 + k2) * g) by (nonlinear_arith)
            requires
                a as int == (a as int / b as int) * (b as int) + (a % b) as int,
                b as int == k1 * g,
                (a % b) as int == k2 * g,
        ;
    }
}

/// A divisor of the absolute value divides the value itself.
pub proof fn lemma_divides_abs(d: int, x: int)
    requires
        divides(d, abs_nat(x) as int),
    ensures
        divides(d, x),
{
    let k = choose|k: int| abs_nat(x) as int == #[trigger] (k * d);
    if x < 0 {
        assert(x == (-k) * d) by (nonlinear_arith)
            requires
                abs_nat(x) as int == k * d,
                x < 0,
                abs_nat(x) == -x,
        ;
    }
}

/// The truncating remainder differs from the dividend by a multiple of the
/// divisor, and is smaller than the divisor in absolute value.
pub proof fn lemma_trunc_rem(a: int, b: int)
    requires
        b != 0,
    ensures
        divides(b, a - trunc_rem(a, b)),
        abs_nat(trunc_rem(a, b)) < abs_nat(b),
        a >= 0 ==> trunc_rem(a, b) == abs_nat(a) as int % abs_nat(b) as int,
{
    let an = abs_nat(a);
    let bn = abs_nat(b);
    vstd::arithmetic::div_mod::lemma_fundamental_div_mod(an as int, bn as int);
    let q = an as int / bn as int;
    assert(bn as int > 0);
    assert((an % bn) as int == (an as int) % (bn as int));
    assert(an as int == q * bn + (an % bn));
    if a >= 0 {
        // a - rem == q * bn, and bn == +-b
        if b > 0 {
            assert(a - trunc_rem(a, b) == q * b);
        } else {
            assert(a - trunc_rem(a, b) == (-q) * b) by (nonlinear_arith)
                requires
                    an as int == q * bn + (an % bn),
                    a == an as int,
                    bn as int == -b,
                    trunc_rem(a, b) == (an % bn) as int,
            ;
        }
    } else {
        if b > 0 {
            assert(a - trunc_rem(a, b) == (-q) * b) by (nonlinear_arith)
                requires
                    an as int == q * bn + (an % bn),
                    a == -(an as int),
                    bn as int == b,
                    trunc_rem(a, b) == -((an % bn) as int),
            ;
        } else {
            assert(a - trunc_rem(a, b) == q * b) by (nonlinear_arith)
                requires
                    an as int == q * bn + (an % bn),
                    a == -(an as int),
                    bn as int == -b,
                    trunc_rem(a, b) == -((an % bn) as int),
            ;
        }
    }
}

/// Solves the linear congruence `a * x == b (mod m)`.
///
/// On success the pair `(mu, nu)` describes the full solution set
/// `{ mu + k * nu : k integer }`: `a * mu` is congruent to `b` modulo `m`,
/// and `nu * gcd(a, m) == m`. The representative `mu` is pinned exactly: it
/// is the truncating remainder of `(b / g) * s` by `m`, where `s` is the
/// canonical Bezout cofactor of `a` and `m` (unique by its documented
/// bounds). The solver fails exactly when `b` is not divisible by
/// `gcd(a, m)`.
#[verifier::rlimit(50)]
pub fn solve_linear_congruence(
    a: &rug::Integer,
    b: &rug::Integer,
    m: &rug::Integer,
) -> (r: Result<(rug::Integer, rug::Integer), UtilityError>)
    requires
        int_of(*m) != 0,
    ensures
        (r is Err) <==> !divides(gcd_int(int_of(*a), int_of(*m)), int_of(*b)),
        r matches Ok(p) ==> divides(int_of(*m), int_of(*a) * int_of(p.0) - int_of(*b)),
        r matches Ok(p) ==> int_of(p.1) * gcd_int(int_of(*a), int_of(*m)) == int_of(*m),
        r matches Ok(p) ==> abs_nat(int_of(p.0)) < abs_nat(int_of(*m)),
        r matches Ok(p) ==> (exists|s: int, t: int|
            canonical_bezout(int_of(*a), int_of(*m), gcd_int(int_of(*a), int_of(*m)), s, t)
                && int_of(p.0) == trunc_rem(
                (int_of(*b) / gcd_int(int_of(*a), int_of(*m))) * s,
                int_of(*m),
            )),
{
    let ghost ai = int_of(*a);
    let ghost bi = int_of(*b);
    let ghost mi = int_of(*m);
    let (g, d, _e) = int_extended_gcd(a, m);
    let ghost gi = int_of(g);
    let ghost di = int_of(d);
    proof {
        lemma_gcd_divides(abs_nat(ai), abs_nat(mi));
        lemma_divides_abs(gi, ai);
        lemma_divides_abs(gi, mi);
        assert(gi > 0);
    }
    let (q, rr) = int_divrem_floor(b, &g);
    let zero = int_from_u64(0);
    if !int_eq(&rr, &zero) {
        proof {
            // b == q*g + rr with 0 < rr < g: no multiple of g equals b.
            assert forall|k: int| bi != #[trigger] (k * gi) by {
                let qi = int_of(q);
                let ri = int_of(rr);
                assert(bi != k * gi) by (nonlinear_arith)
                    requires
                        bi == qi * gi + ri,
                        0 < ri < gi,
                ;
            }
        }
        return Err(UtilityError::NoSolutionToLinearCongruence);
    }
    proof {
        assert(bi == int_of(q) * gi);
    }
    let qd = int_mul(&q, &d);
    let mu = int_rem_trunc(&qd, m);
    let (nu, r2) = int_divrem_floor(m, &g);
    proof {
        let qi = int_of(q);
        let nui = int_of(nu);
        let r2i = int_of(r2);
        // g | m forces the floor remainder of m by g to vanish.
        let km = choose|k: int| mi == #[trigger] (k * gi);
        assert(r2i == 0) by (nonlinear_arith)
            requires
                mi == nui * gi + r2i,
                0 <= r2i < gi,
                mi == km * gi,
        ;
        // a*mu - b is a multiple of m.
        lemma_trunc_rem(qi * di, mi);
        let k = choose|kk: int| qi * di - trunc_rem(qi * di, mi) == #[trigger] (kk * mi);
        let ei = int_of(_e);
        assert(ai * int_of(mu) - bi == (-(qi * ei) - ai * k) * mi) by (nonlinear_arith)
            requires
                int_of(mu) == trunc_rem(qi * di, mi),
                qi * di - trunc_rem(qi * di, mi) == k * mi,
                ai * di + mi * ei == gi,
                bi == qi * gi,
        ;
        assert(abs_nat(int_of(mu)) < abs_nat(mi));
        // q is exactly b / g, so mu is the pinned representative for the
        // canonical cofactor d
        vstd::arithmetic::div_mod::lemma_fundamental_div_mod(bi, gi);
        assert(qi == bi / gi) by (nonlinear_arith)
            requires
                bi == qi * gi,
                bi == gi * (bi / gi) + bi % gi,
                0 <= bi % gi < gi,
                gi > 0,
        ;
        assert(canonical_bezout(ai, mi, gcd_int(ai, mi), di, ei) && int_of(mu) == trunc_rem(
            (bi / gcd_int(ai, mi)) * di,
            mi,
        ));
    }
    Ok((mu, nu))
}

/// The group capability consumed by `shamir_trick`: exponentiation, the group
/// operation, and equality of elements. Implement it for any concrete group of
/// unknown order (an RSA group, a class group).
///
/// Each element stands for a mathematical value `rep`, and the implementor
/// says through `spec_op` and `spec_exp` what the operations do to those
/// values; the executable methods promise to follow them, so facts proved
/// over the trait hold of every implementation.
pub trait Group {
    type Elem;

    /// The value an element stands for, in specifications.
    spec fn rep(a: &Self::Elem) -> int;

    /// What the group operation does to element values.
    spec fn spec_op(a: int, b: int) -> int;

    /// What exponentiation does to an element value.
    spec fn spec_exp(a: int, e: int) -> int;

    /// The group operation applied to two elements.
    fn op(a: &Self::Elem, b: &Self::Elem) -> (r: Self::Elem)
        ensures
            Self::rep(&r) == Self::spec_op(Self::rep(a), Self::rep(b)),
    ;

    /// Raises an element to an arbitrary (possibly negative) integer power.
    fn exp(a: &Self::Elem, e: &rug::Integer) -> (r: Self::Elem)
        ensures
            Self::rep(&r) == Self::spec_exp(Self::rep(a), int_of(*e)),
    ;

    /// Whether two elements are equal.
    fn elem_eq(a: &Self::Elem, b: &Self::Elem) -> (r: bool)
        ensures
            r == (Self::rep(a) == Self::rep(b)),
    ;
}

/// `v` is the modular inverse of `a` modulo `n`, in the range `[0, n)`.
pub open spec fn has_inverse_witness(a: int, n: int, v: int) -> bool {
    0 <= v < n && (v * a) % n == 1int % n
}

/// A modular inverse in `[0, n)` is unique.
proof fn lemma_inverse_unique(a: int, n: int, v1: int, v2: int)
    requires
        n > 1,
        has_inverse_witness(a, n, v1),
        has_inverse_witness(a, n, v2),
    ensures
        v1 == v2,
{
    lemma_small_mod(1nat, n as nat);
    lemma_small_mod(v1 as nat, n as nat);
    lemma_small_mod(v2 as nat, n as nat);
    lemma_mul_mod_noop_general(v1, v2 * a, n);
    lemma_mul_mod_noop_general(v2, v1 * a, n);
    assert(v1 * (v2 * a) == v2 * (v1 * a)) by (nonlinear_arith);
    assert((v1 * ((v2 * a) % n)) % n == (v1 * (v2 * a)) % n);
    assert((v2 * ((v1 * a) % n)) % n == (v2 * (v1 * a)) % n);
    assert(v1 * 1 == v1);
    assert(v2 * 1 == v2);
}

/// If `a` has an inverse modulo `n`, then `a` and `n` are coprime.
proof fn lemma_inverse_coprime(a: int, n: int, v: int)
    requires
        n > 1,
        has_inverse_witness(a, n, v),
    ensures
        gcd_int(a, n) == 1,
{
    let g = gcd_int(a, n);
    lemma_gcd_divides(abs_nat(a), abs_nat(n));
    lemma_divides_abs(g, a);
    lemma_divides_abs(g, n);
    let ka = choose|k: int| a == #[trigger] (k * g);
    let kn = choose|k: int| n == #[trigger] (k * g);
    lemma_small_mod(1nat, n as nat);
    lemma_fundamental_div_mod(v * a, n);
    let q = v * a / n;
    assert(1 == (v * ka - q * kn) * g) by (nonlinear_arith)
        requires
            v * a == n * q + 1,
            a == ka * g,
            n == kn * g,
    ;
    let w = v * ka - q * kn;
    assert(g == 1) by (nonlinear_arith)
        requires
            1 == w * g,
            g >= 0,
    ;
}

/// Computes the `(x*y)`th root of a common base from its `x`th and `y`th
/// roots, for coprime `x` and `y` (Shamir's trick).
///
/// `None` is the definitive negative outcome, returned exactly when the
/// claimed roots are inconsistent (raised to their complementary exponents
/// they disagree) or when `x` and `y` are not coprime. On success the
/// returned element is `exp(xth_root, t) * exp(yth_root, s)` for the
/// canonical Bezout cofactors `x * s + y * t == 1`.
pub fn shamir_trick<G: Group>(
    xth_root: &G::Elem,
    yth_root: &G::Elem,
    x: &rug::Integer,
    y: &rug::Integer,
) -> (r: Option<G::Elem>)
    ensures
        (r is None) <==> (G::spec_exp(G::rep(xth_root), int_of(*x)) != G::spec_exp(
            G::rep(yth_root),
            int_of(*y),
        ) || gcd_int(int_of(*x), int_of(*y)) != 1),
        r matches Some(w) ==> (exists|s: int, t: int|
            canonical_bezout(int_of(*x), int_of(*y), 1, s, t) && G::rep(&w) == G::spec_op(
                G::spec_exp(G::rep(xth_root), t),
                G::spec_exp(G::rep(yth_root), s),
            )),
{
    if !G::elem_eq(&G::exp(xth_root, x), &G::exp(yth_root, y)) {
        return None;
    }
    let (g, a, b) = int_extended_gcd(x, y);
    let one = int_from_u64(1);
    if !int_eq(&g, &one) {
        return None;
    }
    let w = G::op(&G::exp(xth_root, &b), &G::exp(yth_root, &a));
    proof {
        // the cofactors the gcd call returned are the canonical witnesses
        assert(canonical_bezout(int_of(*x), int_of(*y), 1, int_of(a), int_of(b)));
    }
    Some(w)
}

/// The multiplicative group modulo the RSA-2048 challenge modulus, a standard
/// unknown-order group. Elements are integers reduced modulo the modulus.
pub struct Rsa2048;

/// The decimal digits of the RSA-2048 challenge modulus.
pub open spec fn rsa2048_digits() -> Seq<char> {
    "25195908475657893494027183240048398571429282126204032027777137836043662020707595556264018525880784406918290641249515082189298559149176184502808489120072844992687392807287776735971418347270261896375014971824691165077613379859095700097330459748808428401797429100642458691817195118746121515172654632282216869987549182422433637259085141865462043576798423387184774447920739934236584823824281198163815010674810451660377306056201619676256133844143603833904414952634432190114657544454178424020924616515723350778707749817125772467962926386356373289912154831438167899885040445364023527381951378636564391212010397122822120720357"@
}

impl Rsa2048 {
    /// The RSA-2048 challenge modulus: exactly the value its digits spell.
    #[verifier::rlimit(100)]
    #[verifier::spinoff_prover]
    pub fn modulus() -> (n: rug::Integer)
        ensures
            int_of(n) == dec_val(rsa2048_digits()),
            int_of(n) > 1,
    {
        let digits =
            "25195908475657893494027183240048398571429282126204032027777137836043662020707595556264018525880784406918290641249515082189298559149176184502808489120072844992687392807287776735971418347270261896375014971824691165077613379859095700097330459748808428401797429100642458691817195118746121515172654632282216869987549182422433637259085141865462043576798423387184774447920739934236584823824281198163815010674810451660377306056201619676256133844143603833904414952634432190114657544454178424020924616515723350778707749817125772467962926386356373289912154831438167899885040445364023527381951378636564391212010397122822120720357";
        proof {
            reveal_strlit(
                "25195908475657893494027183240048398571429282126204032027777137836043662020707595556264018525880784406918290641249515082189298559149176184502808489120072844992687392807287776735971418347270261896375014971824691165077613379859095700097330459748808428401797429100642458691817195118746121515172654632282216869987549182422433637259085141865462043576798423387184774447920739934236584823824281198163815010674810451660377306056201619676256133844143603833904414952634432190114657544454178424020924616515723350778707749817125772467962926386356373289912154831438167899885040445364023527381951378636564391212010397122822120720357",
            );
            assert(digits@ == rsa2048_digits());
            assert(is_dec_string(digits@));
            lemma_dec_val_pos(digits@);
        }
        let parsed = int_from_decimal(digits);
        match parsed {
            Some(v) => v,
            None => {
                // unreachable: a non-empty digit string always parses
                proof {
                    assert(false);
                }
                int_from_u64(2)
            },
        }
    }

    /// An element of unknown order in this group.
    pub fn unknown_order_elem() -> (r: rug::Integer)
        ensures
            int_of(r) == 2,
    {
        int_from_u64(2)
    }
}

impl Group for Rsa2048 {
    type Elem = rug::Integer;

    open spec fn rep(a: &rug::Integer) -> int {
        int_of(*a)
    }

    open spec fn spec_op(a: int, b: int) -> int {
        (a * b) % dec_val(rsa2048_digits())
    }

    open spec fn spec_exp(a: int, e: int) -> int {
        let n = dec_val(rsa2048_digits());
        if e >= 0 {
            pow(a, e as nat) % n
        } else if exists|v: int| #[trigger] has_inverse_witness(a, n, v) {
            pow(choose|v: int| has_inverse_witness(a, n, v), (-e) as nat) % n
        } else {
            a % n
        }
    }

    fn op(a: &rug::Integer, b: &rug::Integer) -> (r: rug::Integer) {
        let n = Self::modulus();
        let p = int_mul(a, b);
        let (q, r) = int_divrem_floor(&p, &n);
        proof {
            let nv = int_of(n);
            lemma_fundamental_div_mod(int_of(p), nv);
            assert(int_of(r) == int_of(p) % nv) by (nonlinear_arith)
                requires
                    int_of(p) == int_of(q) * nv + int_of(r),
                    int_of(p) == nv * (int_of(p) / nv) + int_of(p) % nv,
                    0 <= int_of(r) < nv,
                    0 <= int_of(p) % nv < nv,
            ;
        }
        r
    }

    fn exp(a: &rug::Integer, e: &rug::Integer) -> (r: rug::Integer) {
        let n = Self::modulus();
        let ghost av = int_of(*a);
        let ghost ev = int_of(*e);
        let ghost nv = int_of(n);
        let zero = int_from_u64(0);
        if int_lt(e, &zero) {
            match int_invert(a, &n) {
                Some(inv) => {
                    proof {
                        // the inverse rug returned is the unique spec witness
                        assert(has_inverse_witness(av, nv, int_of(inv)));
                        let v = choose|v: int| has_inverse_witness(av, nv, v);
                        lemma_inverse_unique(av, nv, v, int_of(inv));
                    }
                    let me = int_neg(e);
                    int_modpow(&inv, &me, &n)
                },
                None => {
                    // no inverse exists: reduce the element itself, a
                    // degenerate case a caller holding genuine group elements
                    // never reaches
                    proof {
                        if exists|v: int| #[trigger] has_inverse_witness(av, nv, v) {
                            let v = choose|v: int| has_inverse_witness(av, nv, v);
                            lemma_inverse_coprime(av, nv, v);
                            assert(false);
                        }
                    }
                    let (q, r) = int_divrem_floor(a, &n);
                    proof {
                        lemma_fundamental_div_mod(av, nv);
                        assert(int_of(r) == av % nv) by (nonlinear_arith)
                            requires
                                av == int_of(q) * nv + int_of(r),
                                av == nv * (av / nv) + av % nv,
                                0 <= int_of(r) < nv,
                                0 <= av % nv < nv,
                        ;
                    }
                    r
                },
            }
        } else {
            int_modpow(a, e, &n)
        }
    }

    fn elem_eq(a: &rug::Integer, b: &rug::Integer) -> (r: bool) {
        int_eq(a, b)
    }
}

} // verus!
