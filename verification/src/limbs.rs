//! Multi-limb integers: their value, and the two loops that everything else
//! is built from (subtraction with borrow, multiply-accumulate by one limb).

use vstd::prelude::*;
use crate::limb::{Limb, Carry, DoubleLimb, limb_radix, limb_sbb, limb_sub};

verus! {

/// `2^(32 * n)`: the weight of limb `n`, and the number of values that `n`
/// limbs can hold.
pub open spec fn radix(n: nat) -> nat
    decreases n,
{
    if n == 0 {
        1
    } else {
        limb_radix() * radix((n - 1) as nat)
    }
}

/// The integer that a little-endian limb sequence stands for:
/// the sum of `s[i] * 2^(32 * i)`.
pub open spec fn limbs_value(s: Seq<Limb>) -> nat
    decreases s.len(),
{
    if s.len() == 0 {
        0
    } else {
        limbs_value(s.drop_last()) + s.last() as nat * radix((s.len() - 1) as nat)
    }
}

/// The first two weights: `2^0` and `2^32`.
pub proof fn lemma_radix_one()
    ensures
        radix(0) == 1,
        radix(1) == 0x1_0000_0000,
{
    reveal_with_fuel(radix, 2);
}

/// No weight is zero.
pub proof fn lemma_radix_positive(n: nat)
    ensures
        radix(n) >= 1,
    decreases n,
{
    if n > 0 {
        lemma_radix_positive((n - 1) as nat);
        let p = radix((n - 1) as nat);
        assert(0x1_0000_0000 * p >= 1) by (nonlinear_arith)
            requires
                p >= 1,
        ;
    }
}

/// Weights multiply as their limb counts add.
pub proof fn lemma_radix_add(a: nat, b: nat)
    ensures
        radix(a + b) == radix(a) * radix(b),
    decreases b,
{
    if b == 0 {
        assert(radix(a) * 1 == radix(a)) by (nonlinear_arith);
    } else {
        lemma_radix_add(a, (b - 1) as nat);
        let pa = radix(a);
        let pb = radix((b - 1) as nat);
        assert(0x1_0000_0000 * (pa * pb) == pa * (0x1_0000_0000 * pb)) by (nonlinear_arith);
    }
}

/// `n` limbs hold a value below `2^(32 * n)`.
pub proof fn lemma_value_bound(s: Seq<Limb>)
    ensures
        limbs_value(s) < radix(s.len()),
    decreases s.len(),
{
    if s.len() > 0 {
        lemma_value_bound(s.drop_last());
        let p = radix((s.len() - 1) as nat);
        let top = s.last() as nat;
        assert(top * p + p <= 0x1_0000_0000 * p) by (nonlinear_arith)
            requires
                top <= 0xffff_ffff,
        ;
    }
}

/// The value of the first `i + 1` limbs is that of the first `i` plus limb
/// `i` at its weight.
pub proof fn lemma_value_take_next(s: Seq<Limb>, i: int)
    requires
        0 <= i < s.len(),
    ensures
        limbs_value(s.take(i + 1)) == limbs_value(s.take(i)) + s[i] as nat * radix(i as nat),
{
    assert(s.take(i + 1).drop_last() =~= s.take(i));
}

/// Concatenation shifts the second operand by the length of the first.
pub proof fn lemma_value_concat(s: Seq<Limb>, t: Seq<Limb>)
    ensures
        limbs_value(s + t) == limbs_value(s) + radix(s.len()) * limbs_value(t),
    decreases t.len(),
{
    if t.len() == 0 {
        assert(s + t =~= s);
        assert(radix(s.len()) * 0 == 0) by (nonlinear_arith);
    } else {
        assert((s + t).drop_last() =~= s + t.drop_last());
        lemma_value_concat(s, t.drop_last());
        lemma_radix_add(s.len(), (t.len() - 1) as nat);
        let ps = radix(s.len());
        let pt = radix((t.len() - 1) as nat);
        let low = limbs_value(t.drop_last());
        let top = t.last() as nat;
        assert(ps * low + top * (ps * pt) == ps * (low + top * pt)) by (nonlinear_arith);
    }
}

/// A sequence is worth its first `i` limbs plus the rest shifted by `i`.
pub proof fn lemma_value_split(s: Seq<Limb>, i: int)
    requires
        0 <= i <= s.len(),
    ensures
        limbs_value(s) == limbs_value(s.take(i)) + radix(i as nat) * limbs_value(s.skip(i)),
{
    assert(s =~= s.take(i) + s.skip(i));
    lemma_value_concat(s.take(i), s.skip(i));
}

/// The value of a sequence whose limbs are all zero is zero.
pub proof fn lemma_value_zeros(s: Seq<Limb>)
    requires
        forall|i: int| 0 <= i < s.len() ==> s[i] == 0,
    ensures
        limbs_value(s) == 0,
    decreases s.len(),
{
    if s.len() > 0 {
        lemma_value_zeros(s.drop_last());
        assert(0 * radix((s.len() - 1) as nat) == 0);
    }
}

/// Replacing limb `i` moves the value by the change of that limb at its
/// weight.
pub proof fn lemma_value_update(s: Seq<Limb>, i: int, x: Limb)
    requires
        0 <= i < s.len(),
    ensures
        limbs_value(s.update(i, x)) == limbs_value(s) + (x - s[i]) * radix(i as nat),
{
    let t = s.update(i, x);
    lemma_value_split(s, i + 1);
    lemma_value_split(t, i + 1);
    lemma_value_take_next(s, i);
    lemma_value_take_next(t, i);
    assert(t.skip(i + 1) =~= s.skip(i + 1));
    assert(t.take(i + 1).take(i) =~= s.take(i + 1).take(i));
    assert(t.take(i) =~= s.take(i));
    let p = radix(i as nat);
    let old_limb = s[i] as int;
    let new_limb = x as int;
    assert(new_limb * p == old_limb * p + (new_limb - old_limb) * p) by (nonlinear_arith);
}

/// Limb `i` is digit `i` of the value in base `2^32`, whatever is added
/// above it.
pub proof fn lemma_limb_is_digit(s: Seq<Limb>, i: int, above: nat)
    requires
        0 <= i < s.len(),
    ensures
        ((limbs_value(s) + above * radix((i + 1) as nat)) / radix(i as nat)) % limb_radix()
            == s[i],
{
    let p = radix(i as nat);
    let low = limbs_value(s.take(i));
    let high = limbs_value(s.skip(i + 1));
    let digit = s[i] as nat;
    lemma_value_split(s, i + 1);
    lemma_value_take_next(s, i);
    lemma_value_bound(s.take(i));
    lemma_radix_positive(i as nat);
    let total = limbs_value(s) + above * radix((i + 1) as nat);
    let rest = digit + 0x1_0000_0000 * (high + above);
    assert(total == p * rest + low) by (nonlinear_arith)
        requires
            total == (low + digit * p) + (0x1_0000_0000 * p) * high + above * (0x1_0000_0000
                * p),
            rest == digit + 0x1_0000_0000 * (high + above),
    ;
    vstd::arithmetic::div_mod::lemma_fundamental_div_mod_converse(
        total as int,
        p as int,
        rest as int,
        low as int,
    );
    assert(rest % 0x1_0000_0000 == digit);
}

/// Two sequences of one length with one value are the same sequence: a
/// contract that gives the length and the value of a result gives each of
/// its limbs.
pub proof fn lemma_value_injective(s: Seq<Limb>, t: Seq<Limb>)
    requires
        s.len() == t.len(),
        limbs_value(s) == limbs_value(t),
    ensures
        s == t,
    decreases s.len(),
{
    if s.len() > 0 {
        let p = radix((s.len() - 1) as nat);
        lemma_value_bound(s.drop_last());
        lemma_value_bound(t.drop_last());
        let a = limbs_value(s.drop_last()) as int;
        let b = limbs_value(t.drop_last()) as int;
        let x = s.last() as int;
        let y = t.last() as int;
        assert(x == y) by (nonlinear_arith)
            requires
                a + x * p == b + y * p,
                0 <= a < p,
                0 <= b < p,
        ;
        lemma_value_injective(s.drop_last(), t.drop_last());
        assert(s =~= s.drop_last().push(s.last()));
        assert(t =~= t.drop_last().push(t.last()));
    } else {
        assert(s =~= t);
    }
}

/// Subtracts `b` from `a` over `num_limbs` limbs into `r`, limb by limb with
/// the borrow carried upward, and returns the final borrow, which is 1
/// exactly when `a < b`. Every limb is read and written whatever the values
/// are; only `num_limbs` decides what is executed.
pub fn limbs_sub(r: &mut [Limb], a: &[Limb], b: &[Limb], num_limbs: usize) -> (borrow: Carry)
    requires
        num_limbs >= 1,
        old(r)@.len() == num_limbs,
        a@.len() == num_limbs,
        b@.len() == num_limbs,
    ensures
        final(r)@.len() == num_limbs,
        borrow == (if limbs_value(a@) < limbs_value(b@) { 1int } else { 0int }),
        limbs_value(final(r)@) == limbs_value(a@) - limbs_value(b@) + borrow * radix(
            num_limbs as nat,
        ),
{
    let mut borrow = limb_sub(&mut r[0], a[0], b[0]);
    proof {
        lemma_value_take_next(r@, 0);
        lemma_value_take_next(a@, 0);
        lemma_value_take_next(b@, 0);
        assert(limbs_value(r@.take(0)) == 0);
        assert(limbs_value(a@.take(0)) == 0);
        assert(limbs_value(b@.take(0)) == 0);
        lemma_radix_one();
    }
    let mut i: usize = 1;
    while i < num_limbs
        invariant
            1 <= i <= num_limbs,
            r@.len() == num_limbs,
            a@.len() == num_limbs,
            b@.len() == num_limbs,
            borrow <= 1,
            limbs_value(r@.take(i as int)) + limbs_value(b@.take(i as int)) == limbs_value(
                a@.take(i as int),
            ) + borrow * radix(i as nat),
        decreases num_limbs - i,
    {
        let ghost before = r@;
        let ghost borrow_in = borrow;
        borrow = limb_sbb(&mut r[i], a[i], b[i], borrow);
        proof {
            assert(r@.take(i as int) =~= before.take(i as int));
            lemma_value_take_next(r@, i as int);
            lemma_value_take_next(a@, i as int);
            lemma_value_take_next(b@, i as int);
            let p = radix(i as nat);
            let d = r@[i as int] as int;
            let x = a@[i as int] as int;
            let y = b@[i as int] as int;
            let bi = borrow_in as int;
            let bo = borrow as int;
            assert(d * p + y * p + bi * p == x * p + bo * (0x1_0000_0000 * p))
                by (nonlinear_arith)
                requires
                    d - bo * 0x1_0000_0000 == x - y - bi,
            ;
        }
        i += 1;
    }
    proof {
        assert(r@.take(num_limbs as int) =~= r@);
        assert(a@.take(num_limbs as int) =~= a@);
        assert(b@.take(num_limbs as int) =~= b@);
        lemma_value_bound(r@);
        lemma_value_bound(a@);
        lemma_value_bound(b@);
    }
    borrow
}

/// The single-limb multiply-accumulate: adds `a * b` into `r` over
/// `num_limbs` limbs and returns the limb that overflows past the top, so
/// that `r + a * b == r' + carry * 2^(32 * num_limbs)`. Only `num_limbs`
/// decides what is executed.
pub fn limbs_mul_add_limb(r: &mut [Limb], a: &[Limb], b: Limb, num_limbs: usize) -> (carry: Limb)
    requires
        old(r)@.len() == num_limbs,
        a@.len() == num_limbs,
    ensures
        final(r)@.len() == num_limbs,
        limbs_value(final(r)@) + carry * radix(num_limbs as nat) == limbs_value(old(r)@)
            + limbs_value(a@) * b,
{
    let ghost start = r@;
    let mut carry: Limb = 0;
    let mut i: usize = 0;
    proof {
        assert(limbs_value(r@.take(0)) == 0);
        assert(limbs_value(a@.take(0)) == 0);
        assert(0 * b == 0);
    }
    while i < num_limbs
        invariant
            i <= num_limbs,
            r@.len() == num_limbs,
            a@.len() == num_limbs,
            start.len() == num_limbs,
            forall|j: int| i <= j < num_limbs ==> r@[j] == start[j],
            limbs_value(r@.take(i as int)) + carry * radix(i as nat) == limbs_value(
                start.take(i as int),
            ) + limbs_value(a@.take(i as int)) * b,
        decreases num_limbs - i,
    {
        let ghost before = r@;
        let ghost carry_in = carry;
        let x: DoubleLimb = a[i] as DoubleLimb;
        let y: DoubleLimb = b as DoubleLimb;
        assert(x * y <= 0xffff_fffe_0000_0001) by (nonlinear_arith)
            requires
                x <= 0xffff_ffff,
                y <= 0xffff_ffff,
        ;
        let t: DoubleLimb = x * y + r[i] as DoubleLimb + carry as DoubleLimb;
        let low: Limb = #[verifier::truncate] (t as Limb);
        let high: DoubleLimb = t >> 32;
        assert(low == t % 0x1_0000_0000) by (bit_vector)
            requires
                low == t as u32,
        ;
        assert(high == t / 0x1_0000_0000) by (bit_vector)
            requires
                high == t >> 32,
        ;
        r[i] = low;
        carry = high as Limb;
        proof {
            assert(r@.take(i as int) =~= before.take(i as int));
            lemma_value_take_next(r@, i as int);
            lemma_value_take_next(start, i as int);
            lemma_value_take_next(a@, i as int);
            let p = radix(i as nat);
            let av = limbs_value(a@.take(i as int)) as int;
            let lo = low as int;
            let hi = carry as int;
            let ci = carry_in as int;
            let ri = start[i as int] as int;
            let xi = x as int;
            let bb = b as int;
            assert(lo * p + hi * (0x1_0000_0000 * p) + av * bb == ci * p + ri * p + (av + xi * p)
                * bb) by (nonlinear_arith)
                requires
                    lo + hi * 0x1_0000_0000 == xi * bb + ri + ci,
            ;
        }
        i += 1;
    }
    proof {
        assert(r@.take(num_limbs as int) =~= r@);
        assert(start.take(num_limbs as int) =~= start);
        assert(a@.take(num_limbs as int) =~= a@);
    }
    carry
}

/// Adds `src * scalar` into the `num_limbs` limbs of `acc` that start at
/// `offset`, leaves the others alone, and returns the limb that overflows
/// past the window.
pub fn limbs_mul_add_limb_at(
    acc: &mut [Limb],
    offset: usize,
    src: &[Limb],
    scalar: Limb,
    num_limbs: usize,
) -> (carry: Limb)
    requires
        src@.len() == num_limbs,
        offset + num_limbs <= old(acc)@.len(),
    ensures
        final(acc)@.len() == old(acc)@.len(),
        forall|j: int|
            0 <= j < offset || offset + num_limbs <= j < old(acc)@.len() ==> final(acc)@[j] == old(
                acc,
            )@[j],
        limbs_value(final(acc)@) + carry * radix((offset + num_limbs) as nat) == limbs_value(
            old(acc)@,
        ) + limbs_value(src@) * scalar * radix(offset as nat),
{
    let ghost before = acc@;
    let (low, rest) = acc.split_at_mut(offset);
    let (window, high) = rest.split_at_mut(num_limbs);
    let ghost window_before = window@;
    let ghost high_part = high@;
    let ghost low_part = low@;
    let carry = limbs_mul_add_limb(window, src, scalar, num_limbs);
    proof {
        assert(before =~= low_part + (window_before + high_part));
        lemma_value_concat(low_part, window_before + high_part);
        lemma_value_concat(window_before, high_part);
        lemma_value_concat(low_part, window@ + high_part);
        lemma_value_concat(window@, high_part);
        lemma_radix_add(offset as nat, num_limbs as nat);
        let p = radix(offset as nat) as int;
        let q = radix(num_limbs as nat) as int;
        let w0 = limbs_value(window_before) as int;
        let w1 = limbs_value(window@) as int;
        let h = limbs_value(high_part) as int;
        let sv = limbs_value(src@) as int;
        let c = carry as int;
        let k = scalar as int;
        assert(p * (w1 + q * h) + c * (p * q) == p * (w0 + q * h) + sv * k * p)
            by (nonlinear_arith)
            requires
                w1 + c * q == w0 + sv * k,
        ;
    }
    carry
}

} // verus!
