//! The order of the generator: [`Q`] is prime, every nonzero scalar has an
//! inverse, and so distinct exponents below [`Q`] give distinct powers of
//! [`G`]. Share verification rests on the last fact: a share that differs
//! from the committed one cannot pass.

use crate::group::{gmul, gpow, smul, G, P, Q};
use crate::group::{
    lemma_generator_exponent_reduces, lemma_generator_order, lemma_gpow_adds,
    lemma_gpow_multiplies, lemma_gpow_of_one,
};
use vstd::arithmetic::div_mod::*;
use vstd::arithmetic::mul::*;
use vstd::arithmetic::power::*;
use vstd::prelude::*;

verus! {

/// `n` has no divisor strictly between one and itself.
pub open spec fn is_prime(n: int) -> bool {
    n > 1 && forall|d: int| 1 < d < n ==> #[trigger] (n % d) != 0
}

/// No product of a 16-bit and a 32-bit factor, both above one, is [`Q`].
#[verifier::rlimit(60)]
proof fn lemma_no_factor_pair(a: u16, b: u32)
    by (bit_vector)
    requires
        1 < a,
        1 < b,
    ensures
        (a as u64) * (b as u64) != 2147483543u64,
{
}

proof fn lemma_large_factors_overshoot(a: int, b: int)
    by (nonlinear_arith)
    requires
        65536 <= a,
        65536 <= b,
    ensures
        a * b >= 4294967296,
{
}

proof fn lemma_factor_bounds(a: int, b: int)
    by (nonlinear_arith)
    requires
        1 < a < 2147483543,
        0 <= b,
        a * b == 2147483543,
    ensures
        1 < b < 2147483543,
{
    assert(b != 0);
    assert(b != 1);
    assert(b >= 2147483543 ==> a * b >= 2 * 2147483543);
}

/// The order of the subgroup is prime.
pub proof fn lemma_order_is_prime()
    ensures
        is_prime(Q as int),
{
    let q = Q as int;
    assert forall|d: int| 1 < d < q implies #[trigger] (q % d) != 0 by {
        if q % d == 0 {
            let k = q / d;
            lemma_fundamental_div_mod(q, d);
            lemma_div_pos_is_pos(q, d);
            assert(q == d * k);
            lemma_factor_bounds(d, k);
            lemma_mul_is_commutative(d, k);
            if d < 65536 {
                lemma_no_factor_pair(d as u16, k as u32);
                assert(false);
            } else if k < 65536 {
                lemma_no_factor_pair(k as u16, d as u32);
                assert(false);
            } else {
                lemma_large_factors_overshoot(d, k);
                assert(false);
            }
        }
    }
}

/// Negating congruent numbers leaves them congruent.
proof fn lemma_neg_congruent(x: int, y: int, m: int)
    requires
        m > 0,
        x % m == y % m,
    ensures
        (-x) % m == (-y) % m,
{
    lemma_sub_mod_noop_right(0, x, m);
    lemma_sub_mod_noop_right(0, y, m);
}

/// Every nonzero scalar has a multiplicative inverse.
pub proof fn lemma_scalar_inverse(d: nat) -> (u: nat)
    requires
        0 < d < Q,
    ensures
        0 < u < Q,
        smul(u as int, d as int) == 1,
    decreases d,
{
    let q = Q as int;
    if d == 1 {
        1
    } else {
        let di = d as int;
        let r = q % di;
        let k = q / di;
        lemma_order_is_prime();
        assert(r != 0);
        lemma_mod_pos_bound(q, di);
        lemma_fundamental_div_mod(q, di);
        assert(q == di * k + r);
        let v = lemma_scalar_inverse(r as nat) as int;
        assert((v * r) % q == 1);
        let t = (v * k) % q;
        let u = (q - t) % q;
        // u * d == -(v * k * d) == -(v * (q - r)) == v * r   (mod q)
        assert((u * di) % q == 1) by {
            lemma_mul_mod_noop_general(q - t, di, q);
            assert((u * di) % q == ((q - t) * di) % q);
            lemma_mul_is_distributive_sub_other_way(di, q, t);
            assert((q - t) * di == q * di - t * di);
            lemma_mod_multiples_vanish(di, -(t * di), q);
            assert((q * di - t * di) % q == (-(t * di)) % q);
            lemma_mul_mod_noop_general(v * k, di, q);
            assert((t * di) % q == ((v * k) * di) % q);
            lemma_mul_is_associative(v, k, di);
            lemma_mul_is_commutative(k, di);
            assert((v * k) * di == v * (di * k));
            assert(di * k == q - r);
            lemma_mul_is_distributive_sub(v, q, r);
            assert(v * (di * k) == v * q - v * r);
            lemma_neg_congruent(t * di, v * q - v * r, q);
            assert(-(v * q - v * r) == v * r - v * q);
            lemma_mul_is_commutative(v, q);
            lemma_mod_multiples_vanish(-v, v * r, q);
            lemma_mul_unary_negation(q, v);
            assert((q * (-v) + v * r) % q == (v * r) % q);
        }
        assert(u != 0) by {
            if u == 0 {
                lemma_mul_basics(di);
                assert((u * di) % q == 0);
            }
        }
        u as nat
    }
}

/// Raising the generator to a power is injective on scalars.
pub proof fn lemma_generator_injective(a: nat, b: nat)
    requires
        a < Q,
        b < Q,
        gpow(G as int, a) == gpow(G as int, b),
    ensures
        a == b,
{
    if a != b {
        let lo = if a < b { a } else { b };
        let hi = if a < b { b } else { a };
        let d: nat = (hi - lo) as nat;
        let g = G as int;
        let q = Q as nat;
        let c: nat = (q - lo) as nat;
        lemma_generator_order();
        // g^c * g^lo == g^q == 1 and g^c * g^hi == g^q * g^d == g^d
        lemma_gpow_adds(g, c, lo);
        lemma_gpow_adds(g, c, hi);
        assert(c + hi == q + d);
        lemma_gpow_adds(g, q, d);
        assert(gmul(1, gpow(g, d)) == 1);
        lemma_mul_basics(gpow(g, d));
        lemma_mod_twice(pow(g, d), P as int);
        assert(gpow(g, d) == 1);
        let u = lemma_scalar_inverse(d);
        lemma_gpow_multiplies(g, d, u);
        lemma_gpow_of_one(u);
        assert(gpow(g, d * u) == 1);
        lemma_generator_exponent_reduces(d * u);
        lemma_mul_is_commutative(d as int, u as int);
        assert((d * u) % q == 1);
        lemma_pow1(g);
        assert(gpow(g, 1) == 4);
        assert(false);
    }
}

} // verus!
