//! Arithmetic of the Schnorr group that the protocol runs in.
//!
//! Group elements are residues modulo [`P`] `= 2 * Q + 1`; scalars are
//! residues modulo the prime [`Q`], the order of the subgroup that [`G`]
//! generates. The parameters fit in 32 bits so that every product fits in a
//! `u64`. They are large enough to run the protocol and far too small to
//! protect a secret.

use vstd::arithmetic::div_mod::*;
use vstd::arithmetic::mul::*;
use vstd::arithmetic::power::*;
use vstd::prelude::*;

verus! {

/// Modulus of the group.
pub const P: u64 = 4294967087;

/// Order of the subgroup that [`G`] spans; the modulus of the scalar field.
pub const Q: u64 = 2147483543;

/// Generator of the subgroup of order [`Q`].
pub const G: u64 = 4;

/// Product of two group elements.
pub open spec fn gmul(a: int, b: int) -> int {
    (a * b) % (P as int)
}

/// A group element raised to a power.
pub open spec fn gpow(b: int, e: nat) -> int {
    pow(b, e) % (P as int)
}

/// Sum of two scalars.
pub open spec fn sadd(a: int, b: int) -> int {
    (a + b) % (Q as int)
}

/// Difference of two scalars.
pub open spec fn ssub(a: int, b: int) -> int {
    (a - b) % (Q as int)
}

/// Product of two scalars.
pub open spec fn smul(a: int, b: int) -> int {
    (a * b) % (Q as int)
}

/// `a` is a canonical, nonzero residue modulo [`P`].
pub open spec fn is_element(a: int) -> bool {
    1 <= a < P
}

proof fn lemma_product_fits(a: u64, b: u64)
    by (nonlinear_arith)
    requires
        a < 0x1_0000_0000,
        b < 0x1_0000_0000,
    ensures
        a * b <= 0xffff_fffe_0000_0001,
{
}

/// Multiplies two group elements.
pub fn group_mul(a: u64, b: u64) -> (r: u64)
    ensures
        r == gmul(a as int, b as int),
        r < P,
{
    let x: u64 = a % P;
    let y: u64 = b % P;
    proof {
        lemma_product_fits(x, y);
        lemma_mul_mod_noop(a as int, b as int, P as int);
    }
    (x * y) % P
}

/// One step of square-and-multiply keeps `acc * b^e` unchanged modulo [`P`].
proof fn lemma_square_and_multiply(acc: int, b: int, e: nat)
    requires
        e > 0,
    ensures
        ({
            let acc2 = if e % 2 == 1 { (acc * b) % (P as int) } else { acc };
            let b2 = (b * b) % (P as int);
            (acc2 * pow(b2, e / 2)) % (P as int) == (acc * pow(b, e)) % (P as int)
        }),
{
    let p = P as int;
    let h: nat = e / 2;
    let b2 = (b * b) % p;
    // pow(b2, h) == pow(b * b, h) == pow(b, 2h)  (mod p)
    lemma_pow_mod_noop(b * b, h, p);
    lemma_square_is_pow2(b);
    lemma_pow_multiplies(b, 2, h);
    assert(pow(b2, h) % p == pow(b, 2 * h) % p);
    if e % 2 == 1 {
        let acc2 = (acc * b) % p;
        assert(e == 2 * h + 1);
        lemma_pow_adds(b, 1, 2 * h);
        lemma_pow1(b);
        assert(pow(b, e) == b * pow(b, 2 * h));
        lemma_mul_is_associative(acc, b, pow(b, 2 * h));
        assert(acc * pow(b, e) == (acc * b) * pow(b, 2 * h));
        lemma_mul_mod_noop_general(acc * b, pow(b, 2 * h), p);
        lemma_mul_mod_noop_general(acc2, pow(b2, h), p);
        lemma_mul_mod_noop_general(acc2, pow(b, 2 * h), p);
    } else {
        assert(e == 2 * h);
        lemma_mul_mod_noop_general(acc, pow(b2, h), p);
        lemma_mul_mod_noop_general(acc, pow(b, 2 * h), p);
    }
}

/// Raises a group element to a power by square-and-multiply.
pub fn group_pow(base: u64, exponent: u64) -> (r: u64)
    ensures
        r == gpow(base as int, exponent as nat),
        r < P,
{
    let mut acc: u64 = 1;
    let mut b: u64 = base % P;
    let mut e: u64 = exponent;
    proof {
        lemma_pow_mod_noop(base as int, exponent as nat, P as int);
        lemma_mul_basics(pow(b as int, e as nat));
    }
    while e > 0
        invariant
            acc < P,
            b < P,
            (acc * pow(b as int, e as nat)) % (P as int) == gpow(base as int, exponent as nat),
        decreases e,
    {
        proof {
            lemma_square_and_multiply(acc as int, b as int, e as nat);
            lemma_product_fits(acc, b);
            lemma_product_fits(b, b);
        }
        if e % 2 == 1 {
            acc = (acc * b) % P;
        }
        b = (b * b) % P;
        e = e / 2;
    }
    proof {
        lemma_pow0(b as int);
        lemma_mul_basics(acc as int);
        lemma_small_mod(acc as nat, P as nat);
    }
    acc
}

/// Adds two scalars.
pub fn scalar_add(a: u64, b: u64) -> (r: u64)
    ensures
        r == sadd(a as int, b as int),
        r < Q,
{
    proof {
        lemma_add_mod_noop(a as int, b as int, Q as int);
    }
    ((a % Q) + (b % Q)) % Q
}

/// Subtracts one scalar from another.
pub fn scalar_sub(a: u64, b: u64) -> (r: u64)
    ensures
        r == ssub(a as int, b as int),
        r < Q,
{
    let x: u64 = a % Q;
    let y: u64 = b % Q;
    proof {
        lemma_sub_mod_noop(a as int, b as int, Q as int);
        lemma_mod_add_multiples_vanish(x - y, Q as int);
    }
    (x + Q - y) % Q
}

/// Multiplies two scalars.
pub fn scalar_mul(a: u64, b: u64) -> (r: u64)
    ensures
        r == smul(a as int, b as int),
        r < Q,
{
    let x: u64 = a % Q;
    let y: u64 = b % Q;
    proof {
        lemma_product_fits(x, y);
        lemma_mul_mod_noop(a as int, b as int, Q as int);
    }
    (x * y) % Q
}

/// Exponents add when powers of one base are multiplied.
pub proof fn lemma_gpow_adds(b: int, e1: nat, e2: nat)
    ensures
        gpow(b, e1 + e2) == gmul(gpow(b, e1), gpow(b, e2)),
{
    lemma_pow_adds(b, e1, e2);
    lemma_mul_mod_noop(pow(b, e1), pow(b, e2), P as int);
}

/// A power of a power multiplies the exponents.
pub proof fn lemma_gpow_multiplies(b: int, e1: nat, e2: nat)
    ensures
        0 <= e1 * e2,
        gpow(gpow(b, e1), e2) == gpow(b, e1 * e2),
{
    lemma_pow_multiplies(b, e1, e2);
    lemma_pow_mod_noop(pow(b, e1), e2, P as int);
}

/// Every power of one is one.
pub proof fn lemma_gpow_of_one(e: nat)
    ensures
        gpow(1, e) == 1,
{
    lemma1_pow(e);
}

/// Doubling an exponent of the generator squares the power; an odd
/// exponent takes one more factor.
proof fn lemma_generator_chain_step(e: nat, v: int, odd: bool)
    requires
        gpow(4, e) == v,
    ensures
        gpow(4, 2 * e + if odd { 1nat } else { 0nat }) == (((v * v) % (P as int)) * (if odd {
            4int
        } else {
            1int
        })) % (P as int),
{
    let p = P as int;
    lemma_gpow_adds(4, e, e);
    assert(gpow(4, 2 * e) == (v * v) % p);
    if odd {
        lemma_gpow_adds(4, 2 * e, 1);
        lemma_pow1(4);
    } else {
        lemma_mul_basics((v * v) % p);
        lemma_mod_twice(v * v, p);
    }
}

/// The upper half of the binary expansion of [`Q`].
proof fn lemma_generator_chain_upper()
    ensures
        gpow(4, 65535) == 2638165276,
{
    lemma_pow1(4);
    assert(gpow(4, 1) == 4);
    lemma_generator_chain_step(1, 4, true);
    assert(gpow(4, 3) == 64);
    lemma_generator_chain_step(3, 64, true);
    assert(gpow(4, 7) == 16384);
    lemma_generator_chain_step(7, 16384, true);
    assert(gpow(4, 15) == 1073741824);
    lemma_generator_chain_step(15, 1073741824, true);
    assert(gpow(4, 31) == 1073752692);
    lemma_generator_chain_step(31, 1073752692, true);
    assert(gpow(4, 63) == 1550749212);
    lemma_generator_chain_step(63, 1550749212, true);
    assert(gpow(4, 127) == 942038247);
    lemma_generator_chain_step(127, 942038247, true);
    assert(gpow(4, 255) == 1359840111);
    lemma_generator_chain_step(255, 1359840111, true);
    assert(gpow(4, 511) == 951502227);
    lemma_generator_chain_step(511, 951502227, true);
    assert(gpow(4, 1023) == 1573475204);
    lemma_generator_chain_step(1023, 1573475204, true);
    assert(gpow(4, 2047) == 3593709112);
    lemma_generator_chain_step(2047, 3593709112, true);
    assert(gpow(4, 4095) == 1671702510);
    lemma_generator_chain_step(4095, 1671702510, true);
    assert(gpow(4, 8191) == 3003377043);
    lemma_generator_chain_step(8191, 3003377043, true);
    assert(gpow(4, 16383) == 3506076183);
    lemma_generator_chain_step(16383, 3506076183, true);
    assert(gpow(4, 32767) == 1424667361);
    lemma_generator_chain_step(32767, 1424667361, true);
    assert(gpow(4, 65535) == 2638165276);
}

/// The generator has order dividing [`Q`].
pub proof fn lemma_generator_order()
    ensures
        gpow(G as int, Q as nat) == 1,
{
    lemma_generator_chain_upper();
    lemma_generator_chain_step(65535, 2638165276, true);
    assert(gpow(4, 131071) == 2264381129);
    lemma_generator_chain_step(131071, 2264381129, true);
    assert(gpow(4, 262143) == 4177353086);
    lemma_generator_chain_step(262143, 4177353086, true);
    assert(gpow(4, 524287) == 1619242959);
    lemma_generator_chain_step(524287, 1619242959, true);
    assert(gpow(4, 1048575) == 1841288365);
    lemma_generator_chain_step(1048575, 1841288365, true);
    assert(gpow(4, 2097151) == 428040727);
    lemma_generator_chain_step(2097151, 428040727, true);
    assert(gpow(4, 4194303) == 1781209252);
    lemma_generator_chain_step(4194303, 1781209252, true);
    assert(gpow(4, 8388607) == 789634484);
    lemma_generator_chain_step(8388607, 789634484, true);
    assert(gpow(4, 16777215) == 2080516558);
    lemma_generator_chain_step(16777215, 2080516558, false);
    assert(gpow(4, 33554430) == 1221709193);
    lemma_generator_chain_step(33554430, 1221709193, false);
    assert(gpow(4, 67108860) == 937169952);
    lemma_generator_chain_step(67108860, 937169952, true);
    assert(gpow(4, 134217721) == 806512345);
    lemma_generator_chain_step(134217721, 806512345, false);
    assert(gpow(4, 268435442) == 1584986828);
    lemma_generator_chain_step(268435442, 1584986828, true);
    assert(gpow(4, 536870885) == 1840861289);
    lemma_generator_chain_step(536870885, 1840861289, true);
    assert(gpow(4, 1073741771) == 2147483544);
    lemma_generator_chain_step(1073741771, 2147483544, true);
    assert(gpow(4, 2147483543) == 1);
}

/// An exponent of the generator may be reduced modulo [`Q`].
pub proof fn lemma_generator_exponent_reduces(e: nat)
    ensures
        gpow(G as int, e) == gpow(G as int, (e % (Q as nat)) as nat),
{
    let q = Q as nat;
    let k: nat = e / q;
    let r: nat = e % q;
    lemma_fundamental_div_mod(e as int, q as int);
    lemma_mul_is_commutative(q as int, k as int);
    assert(e == q * k + r);
    lemma_gpow_adds(G as int, q * k, r);
    lemma_gpow_multiplies(G as int, q, k);
    lemma_generator_order();
    lemma_gpow_of_one(k);
    assert(gpow(G as int, q * k) == 1);
    lemma_mul_basics(gpow(G as int, r));
    lemma_mod_twice(pow(G as int, r), P as int);
}

/// No power of the generator is zero: each is an element of the group.
pub proof fn lemma_generator_power_is_element(e: nat)
    ensures
        is_element(gpow(G as int, e)),
{
    let g = G as int;
    let q = Q as nat;
    let r: nat = e % q;
    lemma_generator_exponent_reduces(e);
    lemma_mod_bound(e as int, q as int);
    lemma_mod_bound(pow(g, e), P as int);
    lemma_gpow_adds(g, r, (q - r) as nat);
    lemma_generator_order();
    if gpow(g, r) == 0 {
        lemma_mul_basics(gpow(g, (q - r) as nat));
        assert(gmul(0, gpow(g, (q - r) as nat)) == 0);
    }
}

} // verus!
