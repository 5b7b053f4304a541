//! What Montgomery reduction means: bounds and congruences of
//! [`montgomery_reduction`], proved from its definition.

use vstd::prelude::*;
use vstd::assert_by_contradiction;
use vstd::arithmetic::div_mod::{
    lemma_fundamental_div_mod, lemma_mod_multiples_basic, lemma_mod_multiples_vanish,
    lemma_mul_mod_noop_left, lemma_mul_mod_noop_right, lemma_mul_mod_noop, lemma_mod_twice,
    lemma_small_mod,
};
use crate::limb::Limb;
use crate::limbs::{radix, lemma_radix_positive};
use crate::montgomery::{
    is_montgomery_constant, montgomery_form, montgomery_multiplier, montgomery_quotient,
    montgomery_reduction, lemma_multiplier_bound,
};

verus! {

/// With the right constant, `rounds` rounds clear the lowest `rounds` limbs
/// of the accumulator.
pub proof fn lemma_rounds_clear_low_limbs(v: nat, n: nat, n0: Limb, rounds: nat)
    requires
        is_montgomery_constant(n, n0),
    ensures
        (v + montgomery_multiplier(v, n, n0, rounds) * n) % radix(rounds) == 0,
    decreases rounds,
{
    if rounds == 0 {
        assert(montgomery_multiplier(v, n, n0, 0) == 0);
        assert(0 * n == 0);
        assert(radix(0) == 1);
    } else {
        let i = (rounds - 1) as nat;
        lemma_rounds_clear_low_limbs(v, n, n0, i);
        lemma_radix_positive(i);
        let m = montgomery_multiplier(v, n, n0, i);
        let p = radix(i) as int;
        let total = (v + m * n) as int;
        let q = total / p;
        lemma_fundamental_div_mod(total, p);
        assert(total == p * q);
        let digit = q % 0x1_0000_0000;
        let k1 = q / 0x1_0000_0000;
        let nz = n0 as int;
        let u = (digit * nz) % 0x1_0000_0000;
        let k2 = (digit * nz) / 0x1_0000_0000;
        let nn = n as int;
        let k3 = (nn * nz + 1) / 0x1_0000_0000;
        assert(nn * nz + 1 == 0x1_0000_0000 * k3);
        let t = k1 - k2 * nn + digit * k3;
        assert(q + u * nn == 0x1_0000_0000 * t) by (nonlinear_arith)
            requires
                q == 0x1_0000_0000 * k1 + digit,
                digit * nz == 0x1_0000_0000 * k2 + u,
                nn * nz + 1 == 0x1_0000_0000 * k3,
                t == k1 - k2 * nn + digit * k3,
        ;
        let step = montgomery_multiplier(v, n, n0, rounds) as int;
        assert(step == m + u * p);
        let next = v + step * nn;
        let big = radix(rounds) as int;
        assert(next == total + (u * p) * nn) by (nonlinear_arith)
            requires
                next == v + step * nn,
                step == m + u * p,
                total == v + m * nn,
        ;
        assert(next == t * big) by (nonlinear_arith)
            requires
                next == total + (u * p) * nn,
                total == p * q,
                q + u * nn == 0x1_0000_0000 * t,
                big == 0x1_0000_0000 * p,
        ;
        lemma_radix_positive(rounds);
        lemma_mod_multiples_basic(t, big);
    }
}

/// An accumulator below `n * 2^(32 * num_limbs)`, as every product of two
/// values below `n` is when `n` fits in `num_limbs` limbs, reduces to a
/// value below `n`.
pub proof fn lemma_reduction_is_below_modulus(v: nat, n: nat, n0: Limb, num_limbs: nat)
    requires
        v < n * radix(num_limbs),
    ensures
        montgomery_reduction(v, n, n0, num_limbs) < n,
{
    let m = montgomery_multiplier(v, n, n0, num_limbs) as int;
    let big = radix(num_limbs) as int;
    let nn = n as int;
    let total = v + m * nn;
    let q = total / big;
    lemma_multiplier_bound(v, n, n0, num_limbs);
    lemma_radix_positive(num_limbs);
    lemma_fundamental_div_mod(total, big);
    assert(q < 2 * nn) by (nonlinear_arith)
        requires
            total == big * q + total % big,
            0 <= total % big,
            total == v + m * nn,
            v < nn * big,
            0 <= m < big,
            big >= 1,
    ;
}

/// A modulus that has a Montgomery constant is odd.
pub proof fn lemma_modulus_is_odd(n: nat, n0: Limb)
    requires
        is_montgomery_constant(n, n0),
    ensures
        n % 2 == 1,
{
    let nn = n as int;
    let nz = n0 as int;
    let k = (nn * nz + 1) / 0x1_0000_0000;
    assert(nn * nz + 1 == 0x1_0000_0000 * k);
    assert_by_contradiction!(nn % 2 == 1, {
        // an even n would make n * n0 + 1 odd, yet it is a multiple of 2^32
        let half = nn / 2;
        let w = half * nz;
        assert(nn * nz == 2 * w) by (nonlinear_arith)
            requires
                nn == 2 * half,
                w == half * nz,
        ;
        assert(2 * w + 1 == 2 * (0x8000_0000 * k));
    });
}

/// With the right constant, the result times `2^(32 * num_limbs)` is
/// congruent to the accumulator modulo `n`.
pub proof fn lemma_reduction_is_congruent(v: nat, n: nat, n0: Limb, num_limbs: nat)
    requires
        is_montgomery_constant(n, n0),
    ensures
        (montgomery_reduction(v, n, n0, num_limbs) * radix(num_limbs)) % n == v % n,
{
    lemma_modulus_is_odd(n, n0);
    let m = montgomery_multiplier(v, n, n0, num_limbs) as int;
    let big = radix(num_limbs) as int;
    let nn = n as int;
    let total = v + m * nn;
    let q = montgomery_quotient(v, n, n0, num_limbs) as int;
    lemma_rounds_clear_low_limbs(v, n, n0, num_limbs);
    lemma_radix_positive(num_limbs);
    lemma_fundamental_div_mod(total, big);
    assert(total == big * q);
    let result = montgomery_reduction(v, n, n0, num_limbs) as int;
    if q < nn {
        assert(result * big == nn * m + v) by (nonlinear_arith)
            requires
                result == q,
                v + m * nn == big * q,
        ;
        lemma_mod_multiples_vanish(m, v as int, nn);
    } else {
        assert(result * big == nn * (m - big) + v) by (nonlinear_arith)
            requires
                result == q - nn,
                v + m * nn == big * q,
        ;
        lemma_mod_multiples_vanish(m - big, v as int, nn);
    }
}

/// One factor of `2^32` cancels modulo a modulus with a Montgomery constant.
proof fn lemma_cancel_limb_radix(x: int, y: int, n: nat, n0: Limb)
    requires
        is_montgomery_constant(n, n0),
        (x * 0x1_0000_0000) % (n as int) == (y * 0x1_0000_0000) % (n as int),
    ensures
        x % (n as int) == y % (n as int),
{
    lemma_modulus_is_odd(n, n0);
    let nn = n as int;
    let nz = n0 as int;
    let k = (nn * nz + 1) / 0x1_0000_0000;
    assert(nn * nz + 1 == 0x1_0000_0000 * k);
    lemma_mul_mod_noop_left(x * 0x1_0000_0000, k, nn);
    lemma_mul_mod_noop_left(y * 0x1_0000_0000, k, nn);
    assert((x * 0x1_0000_0000) * k == nn * (x * nz) + x) by (nonlinear_arith)
        requires
            nn * nz + 1 == 0x1_0000_0000 * k,
    ;
    assert((y * 0x1_0000_0000) * k == nn * (y * nz) + y) by (nonlinear_arith)
        requires
            nn * nz + 1 == 0x1_0000_0000 * k,
    ;
    lemma_mod_multiples_vanish(x * nz, x, nn);
    lemma_mod_multiples_vanish(y * nz, y, nn);
}

/// `2^(32 * k)` cancels modulo a modulus with a Montgomery constant.
pub proof fn lemma_cancel_radix(x: int, y: int, n: nat, n0: Limb, k: nat)
    requires
        is_montgomery_constant(n, n0),
        (x * radix(k)) % (n as int) == (y * radix(k)) % (n as int),
    ensures
        x % (n as int) == y % (n as int),
    decreases k,
{
    if k == 0 {
        assert(radix(0) == 1);
        assert(x * 1 == x);
        assert(y * 1 == y);
    } else {
        let p = radix((k - 1) as nat) as int;
        assert(x * radix(k) == (x * p) * 0x1_0000_0000) by (nonlinear_arith)
            requires
                radix(k) == 0x1_0000_0000 * p,
        ;
        assert(y * radix(k) == (y * p) * 0x1_0000_0000) by (nonlinear_arith)
            requires
                radix(k) == 0x1_0000_0000 * p,
        ;
        lemma_cancel_limb_radix(x * p, y * p, n, n0);
        lemma_cancel_radix(x, y, n, n0, (k - 1) as nat);
    }
}

/// For an accumulator below `n * 2^(32 * num_limbs)` the result is the one
/// value below `n` whose product with `2^(32 * num_limbs)` is congruent to
/// the accumulator modulo `n`.
pub proof fn lemma_reduction_is_unique(v: nat, x: nat, n: nat, n0: Limb, num_limbs: nat)
    requires
        is_montgomery_constant(n, n0),
        v < n * radix(num_limbs),
        x < n,
        (x * radix(num_limbs)) % n == v % n,
    ensures
        montgomery_reduction(v, n, n0, num_limbs) == x,
{
    lemma_reduction_is_below_modulus(v, n, n0, num_limbs);
    lemma_reduction_is_congruent(v, n, n0, num_limbs);
    let result = montgomery_reduction(v, n, n0, num_limbs);
    lemma_cancel_radix(result as int, x as int, n, n0, num_limbs);
    lemma_small_mod(result, n);
    lemma_small_mod(x, n);
}

/// Round trip: taking `x < n` into Montgomery form, `x * 2^(32 * num_limbs)
/// mod n`, and reducing it gives `x` back.
pub proof fn lemma_reduction_inverts_montgomery_form(x: nat, n: nat, n0: Limb, num_limbs: nat)
    requires
        is_montgomery_constant(n, n0),
        x < n,
    ensures
        montgomery_reduction(montgomery_form(x, n, num_limbs), n, n0, num_limbs) == x,
{
    let big = radix(num_limbs);
    let v = (x * big) % n;
    lemma_radix_positive(num_limbs);
    assert(v < n * big) by (nonlinear_arith)
        requires
            v < n,
            big >= 1,
    ;
    lemma_mod_twice((x * big) as int, n as int);
    lemma_reduction_is_unique(v, x, n, n0, num_limbs);
}

/// Entering Montgomery form: multiplying `x < n` by `2^(64 * num_limbs) mod n`
/// and reducing gives `x * 2^(32 * num_limbs) mod n`.
pub proof fn lemma_reduction_enters_montgomery_form(x: nat, n: nat, n0: Limb, num_limbs: nat)
    requires
        is_montgomery_constant(n, n0),
        n < radix(num_limbs),
        x < n,
    ensures
        montgomery_reduction(
            x * ((radix(num_limbs) * radix(num_limbs)) % n),
            n,
            n0,
            num_limbs,
        ) == montgomery_form(x, n, num_limbs),
{
    let big = radix(num_limbs);
    let nn = n as int;
    let squared = (big * big) % n;
    let v = x * squared;
    let form = (x * big) % n;
    assert(v < n * big) by (nonlinear_arith)
        requires
            v == x * squared,
            x < n,
            squared < n,
            n < big,
    ;
    // form * big, x * big * big and v are congruent modulo n
    lemma_mul_mod_noop_left((x * big) as int, big as int, nn);
    lemma_mul_mod_noop_right(x as int, (big * big) as int, nn);
    assert((x * big) * big == x * (big * big)) by (nonlinear_arith);
    lemma_reduction_is_unique(v, form, n, n0, num_limbs);
}

/// Multiplication in Montgomery form: for `a, b < n`, reducing the product
/// of their Montgomery forms gives the Montgomery form of `a * b mod n`.
pub proof fn lemma_montgomery_product(a: nat, b: nat, n: nat, n0: Limb, num_limbs: nat)
    requires
        is_montgomery_constant(n, n0),
        n < radix(num_limbs),
        a < n,
        b < n,
    ensures
        montgomery_reduction(
            montgomery_form(a, n, num_limbs) * montgomery_form(b, n, num_limbs),
            n,
            n0,
            num_limbs,
        ) == montgomery_form((a * b) % n, n, num_limbs),
{
    let big = radix(num_limbs);
    let nn = n as int;
    let a_form = (a * big) % n;
    let b_form = (b * big) % n;
    let v = a_form * b_form;
    let product_form = (((a * b) % n) * big) % n;
    assert(v < n * big) by (nonlinear_arith)
        requires
            v == a_form * b_form,
            a_form < n,
            b_form < n,
            n < big,
    ;
    // product_form * big, v and (a * b * big) * big are congruent modulo n
    let abr = (a * b) * big;
    lemma_mul_mod_noop_left((a * b) as int, big as int, nn);
    assert(product_form == abr % n);
    lemma_mul_mod_noop_left(abr as int, big as int, nn);
    lemma_mul_mod_noop((a * big) as int, (b * big) as int, nn);
    assert((a * big) * (b * big) == abr * big) by (nonlinear_arith)
        requires
            abr == (a * b) * big,
    ;
    lemma_reduction_is_unique(v, product_form, n, n0, num_limbs);
}

} // verus!
