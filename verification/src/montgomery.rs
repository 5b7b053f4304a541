//! Montgomery reduction, in place over a double-width accumulator, and the
//! multiplication built on it.

use vstd::prelude::*;
use crate::limb::{Limb, Carry, limb_radix, constant_time_select_w};
use crate::theory::{
    lemma_reduction_is_below_modulus, lemma_reduction_is_congruent,
    lemma_reduction_inverts_montgomery_form, lemma_montgomery_product,
};
use crate::limbs::{
    radix, limbs_value, limbs_sub, limbs_mul_add_limb_at, lemma_radix_add, lemma_radix_positive,
    lemma_value_bound, lemma_value_split, lemma_value_update, lemma_value_take_next,
    lemma_value_zeros, lemma_limb_is_digit,
};

verus! {

/// `n0` is the Montgomery constant of the modulus `n` when
/// `n * n0 == -1 (mod 2^32)`.
pub open spec fn is_montgomery_constant(n: nat, n0: Limb) -> bool {
    (n * n0 + 1) % (limb_radix() as int) == 0
}

/// `x` in Montgomery form: `x * 2^(32 * num_limbs) mod n`.
pub open spec fn montgomery_form(x: nat, n: nat, num_limbs: nat) -> nat {
    (x * radix(num_limbs)) % n
}

/// The multiple of the modulus that `rounds` rounds of reduction add to the
/// accumulator value `v`. Round `i` reads digit `i` of what has been
/// accumulated so far, multiplies it by `n0` modulo `2^32`, and adds that
/// many copies of `n * 2^(32 * i)`.
pub open spec fn montgomery_multiplier(v: nat, n: nat, n0: Limb, rounds: nat) -> nat
    decreases rounds,
{
    if rounds == 0 {
        0
    } else {
        let i = (rounds - 1) as nat;
        let m = montgomery_multiplier(v, n, n0, i);
        let digit = ((v + m * n) / radix(i)) % limb_radix();
        m + ((digit * (n0 as nat)) % limb_radix()) * radix(i)
    }
}

/// The accumulator after all rounds, shifted down by `num_limbs` limbs.
pub open spec fn montgomery_quotient(v: nat, n: nat, n0: Limb, num_limbs: nat) -> nat {
    (v + montgomery_multiplier(v, n, n0, num_limbs) * n) / radix(num_limbs)
}

/// What reduction returns for the accumulator value `v`: the quotient, less
/// the modulus once if it is not already below it.
pub open spec fn montgomery_reduction(v: nat, n: nat, n0: Limb, num_limbs: nat) -> nat {
    let q = montgomery_quotient(v, n, n0, num_limbs);
    if q < n {
        q
    } else {
        (q - n) as nat
    }
}

/// The buffer lengths that reduction accepts: a modulus of at least one
/// limb, a result as long as the modulus, an accumulator twice as long.
pub open spec fn reduction_shape(num_r: nat, num_a: nat, num_n: nat) -> bool {
    num_n >= 1 && num_r == num_n && num_a == 2 * num_n
}

/// The buffer lengths that multiplication accepts: every buffer holds
/// exactly `num` limbs, and `num` is at least one.
pub open spec fn multiplication_shape(
    num_r: nat,
    num_a: nat,
    num_b: nat,
    num_n: nat,
    num: nat,
) -> bool {
    num >= 1 && num_r == num && num_a == num && num_b == num && num_n == num
}

/// Each round adds less than one further limb's worth to the multiplier.
pub proof fn lemma_multiplier_bound(v: nat, n: nat, n0: Limb, rounds: nat)
    ensures
        montgomery_multiplier(v, n, n0, rounds) < radix(rounds),
    decreases rounds,
{
    if rounds > 0 {
        let i = (rounds - 1) as nat;
        lemma_multiplier_bound(v, n, n0, i);
        let m = montgomery_multiplier(v, n, n0, i);
        let digit = ((v + m * n) / radix(i)) % limb_radix();
        let u = (digit * (n0 as nat)) % limb_radix();
        let p = radix(i);
        assert(m + u * p < 0x1_0000_0000 * p) by (nonlinear_arith)
            requires
                m < p,
                u <= 0xffff_ffff,
        ;
    }
}

/// One round of reduction, as arithmetic on the accumulator's value: adding
/// `u * n` at limb `i` and folding the carries into limb `i + num` keeps the
/// accumulator, with its pending carry, equal to `v + multiplier * n`.
proof fn lemma_round(
    v: nat,
    n: nat,
    n0: Limb,
    num: nat,
    i: nat,
    before: int,
    carry_in: int,
    digit: int,
    u: int,
    c1: int,
    middle: int,
    top: int,
    sum: int,
    carry_out: int,
    after: int,
)
    requires
        before + carry_in * radix(num + i) == v + montgomery_multiplier(v, n, n0, i) * n,
        digit == ((v + montgomery_multiplier(v, n, n0, i) * n) / radix(i)) % limb_radix(),
        u == (digit * n0) % (limb_radix() as int),
        middle + c1 * radix(i + num) == before + n * u * radix(i),
        sum + carry_out * 0x1_0000_0000 == top + c1 + carry_in,
        after == middle + (sum - top) * radix(i + num),
    ensures
        after + carry_out * radix(num + i + 1) == v + montgomery_multiplier(v, n, n0, i + 1) * n,
{
    let m = montgomery_multiplier(v, n, n0, i);
    let m1 = montgomery_multiplier(v, n, n0, i + 1);
    let p = radix(i) as int;
    let w = radix(num + i) as int;
    assert(m1 == m + u * p);
    assert(radix(num + i + 1) == 0x1_0000_0000 * w);
    let nn = n as int;
    assert((m + u * p) * nn == m * nn + nn * u * p) by (nonlinear_arith);
    assert((sum - top) * w + carry_out * (0x1_0000_0000 * w) == c1 * w + carry_in * w)
        by (nonlinear_arith)
        requires
            sum + carry_out * 0x1_0000_0000 == top + c1 + carry_in,
    ;
}

/// After the last round the quotient is the upper half of the accumulator
/// plus the pending carry, and it is less than the modulus plus `2^(32 * num)`.
proof fn lemma_quotient(
    v: nat,
    n: nat,
    n0: Limb,
    num: nat,
    low: nat,
    upper: nat,
    carry: int,
)
    requires
        0 <= carry <= 1,
        low < radix(num),
        v < radix(num) * radix(num),
        low + radix(num) * upper + carry * (radix(num) * radix(num)) == v + montgomery_multiplier(
            v,
            n,
            n0,
            num,
        ) * n,
    ensures
        montgomery_quotient(v, n, n0, num) == upper + carry * radix(num),
        montgomery_quotient(v, n, n0, num) < radix(num) + n,
{
    let m = montgomery_multiplier(v, n, n0, num) as int;
    let big = radix(num) as int;
    let total = v + m * n;
    let q = upper + carry * big;
    lemma_multiplier_bound(v, n, n0, num);
    lemma_radix_positive(num);
    assert(total == big * q + low) by (nonlinear_arith)
        requires
            low + big * upper + carry * (big * big) == total,
            q == upper + carry * big,
    ;
    vstd::arithmetic::div_mod::lemma_fundamental_div_mod_converse(
        total,
        big,
        q as int,
        low as int,
    );
    let nn = n as int;
    assert(q < big + nn) by (nonlinear_arith)
        requires
            total == big * q + low,
            total == v + m * nn,
            v < big * big,
            0 <= m < big,
            0 <= low,
            0 <= nn,
            big >= 1,
    ;
}

/// Reduces the double-width accumulator `a` modulo `n` into `r`, and zeroes
/// `a`. Returns 1 when the buffer lengths fit together and 0, with nothing
/// written, when they do not.
///
/// Round `i` multiplies limb `i` of the accumulator by `n0`, adds that
/// multiple of `n` at limb `i`, and folds the limb that overflows, with the
/// carry of the round before, into limb `i + n.len()`. The upper half then
/// holds the quotient, from which `n` is subtracted once unless that would
/// underflow; the choice between the two is a masked select over every
/// limb. Only the lengths decide what is executed.
pub fn bn_from_montgomery_in_place(r: &mut [Limb], a: &mut [Limb], n: &[Limb], n0: Limb) -> (ok:
    i32)
    ensures
        final(r)@.len() == old(r)@.len(),
        final(a)@.len() == old(a)@.len(),
        ok == (if reduction_shape(old(r)@.len(), old(a)@.len(), n@.len()) { 1int } else { 0int }),
        ok == 0 ==> final(r)@ == old(r)@ && final(a)@ == old(a)@,
        ok == 1 ==> limbs_value(final(r)@) == montgomery_reduction(
            limbs_value(old(a)@),
            limbs_value(n@),
            n0,
            n@.len(),
        ),
        ok == 1 && limbs_value(old(a)@) < limbs_value(n@) * radix(n@.len()) ==> limbs_value(
            final(r)@,
        ) < limbs_value(n@),
        ok == 1 && is_montgomery_constant(limbs_value(n@), n0) ==> (limbs_value(final(r)@)
            * radix(n@.len())) % limbs_value(n@) == limbs_value(old(a)@) % limbs_value(n@),
        ok == 1 && is_montgomery_constant(limbs_value(n@), n0) ==> forall|x: nat|
            x < limbs_value(n@)
                && limbs_value(old(a)@) == #[trigger] montgomery_form(x, limbs_value(n@), n@.len())
                ==> limbs_value(final(r)@) == x,
        ok == 1 ==> forall|k: int| 0 <= k < final(a)@.len() ==> final(a)@[k] == 0,
{
    let num_n = n.len();
    if num_n == 0 || r.len() != num_n || a.len() < num_n || a.len() - num_n != num_n {
        return 0;
    }
    let ghost v = limbs_value(a@);
    let ghost nv = limbs_value(n@);
    let mut carry: Carry = 0;
    let mut i: usize = 0;
    proof {
        assert(0 * radix(num_n as nat) == 0);
        assert(0 * nv == 0);
    }
    while i < num_n
        invariant
            i <= num_n,
            num_n >= 1,
            n@.len() == num_n,
            r@.len() == num_n,
            a@.len() == 2 * num_n,
            r@ == old(r)@,
            nv == limbs_value(n@),
            carry <= 1,
            limbs_value(a@) + carry * radix((num_n + i) as nat) == v + montgomery_multiplier(
                v,
                nv,
                n0,
                i as nat,
            ) * nv,
        decreases num_n - i,
    {
        let ghost before = a@;
        let ghost carry_in = carry;
        let digit = a[i];
        let u = digit.wrapping_mul(n0);
        proof {
            lemma_radix_add((i + 1) as nat, (num_n - 1) as nat);
            let above = carry as nat * radix((num_n - 1) as nat);
            assert(above * radix((i + 1) as nat) == carry * radix((num_n + i) as nat))
                by (nonlinear_arith)
                requires
                    radix((num_n + i) as nat) == radix((i + 1) as nat) * radix((num_n - 1) as nat),
                    above == carry as nat * radix((num_n - 1) as nat),
            ;
            lemma_limb_is_digit(a@, i as int, above);
        }
        let c1 = limbs_mul_add_limb_at(a, i, n, u, num_n);
        let ghost middle = a@;
        let top = a[i + num_n];
        let sum = c1.wrapping_add(carry.wrapping_add(top));
        let differs: Carry = (sum != top) as Carry;
        let wrapped: Carry = (sum <= top) as Carry;
        carry = (carry | differs) & wrapped;
        assert(carry == (if (carry_in == 1 || differs == 1) && wrapped == 1 { 1int } else { 0int }))
            by (bit_vector)
            requires
                carry == (carry_in | differs) & wrapped,
                carry_in <= 1,
                differs <= 1,
                wrapped <= 1,
        ;
        a[i + num_n] = sum;
        proof {
            lemma_value_update(middle, (i + num_n) as int, sum);
            lemma_round(
                v,
                nv,
                n0,
                num_n as nat,
                i as nat,
                limbs_value(before) as int,
                carry_in as int,
                digit as int,
                u as int,
                c1 as int,
                limbs_value(middle) as int,
                top as int,
                sum as int,
                carry as int,
                limbs_value(a@) as int,
            );
        }
        i += 1;
    }
    let ghost reduced = a@;
    let borrow = limbs_sub(r, &a[num_n..a.len()], n, num_n);
    let mask = (0 as Limb).wrapping_sub(borrow.wrapping_sub(carry));
    let ghost upper = reduced.skip(num_n as int);
    let ghost diff = r@;
    proof {
        lemma_value_split(reduced, num_n as int);
        lemma_value_bound(reduced.take(num_n as int));
        lemma_value_bound(old(a)@);
        lemma_radix_add(num_n as nat, num_n as nat);
        assert(reduced.subrange(num_n as int, reduced.len() as int) =~= upper);
        lemma_quotient(
            v,
            nv,
            n0,
            num_n as nat,
            limbs_value(reduced.take(num_n as int)),
            limbs_value(upper),
            carry as int,
        );
        lemma_value_bound(upper);
        assert(!(carry == 1 && borrow == 0));
        assert(mask == (if carry == borrow { 0u32 } else { 0xffff_ffffu32 }));
    }
    let mut j: usize = 0;
    while j < num_n
        invariant
            j <= num_n,
            r@.len() == num_n,
            a@.len() == 2 * num_n,
            upper.len() == num_n,
            diff.len() == num_n,
            2 * num_n <= usize::MAX,
            mask == 0 || mask == 0xffff_ffffu32,
            forall|k: int| 0 <= k < j ==> r@[k] == (if mask == 0 { diff[k] } else { upper[k] }),
            forall|k: int| j <= k < num_n ==> r@[k] == diff[k],
            reduced.len() == 2 * num_n,
            upper == reduced.skip(num_n as int),
            forall|k: int| 0 <= k < j ==> a@[k] == 0,
            forall|k: int| num_n <= k < num_n + j ==> a@[k] == 0,
            forall|k: int| num_n + j <= k < 2 * num_n ==> a@[k] == reduced[k],
        decreases num_n - j,
    {
        let chosen = constant_time_select_w(mask, a[num_n + j], r[j]);
        r[j] = chosen;
        a[num_n + j] = 0;
        a[j] = 0;
        j += 1;
    }
    proof {
        if mask == 0xffff_ffffu32 {
            assert(r@ =~= upper);
        } else {
            assert(r@ =~= diff);
        }
        if v < nv * radix(num_n as nat) {
            lemma_reduction_is_below_modulus(v, nv, n0, num_n as nat);
        }
        if is_montgomery_constant(nv, n0) {
            lemma_reduction_is_congruent(v, nv, n0, num_n as nat);
            assert forall|x: nat|
                x < nv && v == #[trigger] montgomery_form(x, nv, num_n as nat)
                implies limbs_value(r@) == x by {
                lemma_reduction_inverts_montgomery_form(x, nv, n0, num_n as nat);
            }
        }
    }
    1
}

/// The second entry point of reduction: the same contract as
/// [`bn_from_montgomery_in_place`], and the same result on every input.
#[allow(non_snake_case)]
pub fn GFp_bn_from_montgomery_in_place(
    r: &mut [Limb],
    a: &mut [Limb],
    n: &[Limb],
    n0: Limb,
) -> (ok: i32)
    ensures
        final(r)@.len() == old(r)@.len(),
        final(a)@.len() == old(a)@.len(),
        ok == (if reduction_shape(old(r)@.len(), old(a)@.len(), n@.len()) { 1int } else { 0int }),
        ok == 0 ==> final(r)@ == old(r)@ && final(a)@ == old(a)@,
        ok == 1 ==> limbs_value(final(r)@) == montgomery_reduction(
            limbs_value(old(a)@),
            limbs_value(n@),
            n0,
            n@.len(),
        ),
        ok == 1 && limbs_value(old(a)@) < limbs_value(n@) * radix(n@.len()) ==> limbs_value(
            final(r)@,
        ) < limbs_value(n@),
        ok == 1 && is_montgomery_constant(limbs_value(n@), n0) ==> (limbs_value(final(r)@)
            * radix(n@.len())) % limbs_value(n@) == limbs_value(old(a)@) % limbs_value(n@),
        ok == 1 && is_montgomery_constant(limbs_value(n@), n0) ==> forall|x: nat|
            x < limbs_value(n@)
                && limbs_value(old(a)@) == #[trigger] montgomery_form(x, limbs_value(n@), n@.len())
                ==> limbs_value(final(r)@) == x,
        ok == 1 ==> forall|k: int| 0 <= k < final(a)@.len() ==> final(a)@[k] == 0,
{
    bn_from_montgomery_in_place(r, a, n, n0)
}

/// Multiplies `ap` by `bp` into a zeroed scratch accumulator of `2 * num`
/// limbs, one limb of `bp` at a time, and reduces the product modulo `np`
/// into `rp`. Returns 1 when every buffer holds `num >= 1` limbs and 0, with
/// nothing written, when one does not. The scratch accumulator lives for
/// this call alone and is zeroed by the reduction before it is dropped.
pub fn bn_mul_mont(
    rp: &mut [Limb],
    ap: &[Limb],
    bp: &[Limb],
    np: &[Limb],
    n0: Limb,
    num: usize,
) -> (ok: i32)
    ensures
        final(rp)@.len() == old(rp)@.len(),
        ok == (if multiplication_shape(
            old(rp)@.len(),
            ap@.len(),
            bp@.len(),
            np@.len(),
            num as nat,
        ) { 1int } else { 0int }),
        ok == 0 ==> final(rp)@ == old(rp)@,
        ok == 1 ==> limbs_value(final(rp)@) == montgomery_reduction(
            limbs_value(ap@) * limbs_value(bp@),
            limbs_value(np@),
            n0,
            num as nat,
        ),
        ok == 1 && limbs_value(ap@) < limbs_value(np@) && limbs_value(bp@) < limbs_value(np@)
            ==> limbs_value(final(rp)@) < limbs_value(np@),
        ok == 1 && is_montgomery_constant(limbs_value(np@), n0) ==> (limbs_value(final(rp)@)
            * radix(num as nat)) % limbs_value(np@) == (limbs_value(ap@) * limbs_value(bp@))
            % limbs_value(np@),
        ok == 1 && is_montgomery_constant(limbs_value(np@), n0) ==> forall|a: nat, b: nat|
            a < limbs_value(np@) && b < limbs_value(np@)
                && limbs_value(ap@) == #[trigger] montgomery_form(a, limbs_value(np@), num as nat)
                && limbs_value(bp@) == #[trigger] montgomery_form(b, limbs_value(np@), num as nat)
                ==> limbs_value(final(rp)@) == montgomery_form(
                (a * b) % limbs_value(np@),
                limbs_value(np@),
                num as nat,
            ),
{
    if num == 0 || rp.len() != num || ap.len() != num || bp.len() != num || np.len() != num {
        return 0;
    }
    let mut tmp: Vec<Limb> = vec![0; num];
    let mut upper: Vec<Limb> = vec![0; num];
    tmp.append(&mut upper);
    proof {
        lemma_value_zeros(tmp@);
        assert(tmp.len() == 2 * num);
        assert(limbs_value(bp@.take(0)) == 0);
        assert(limbs_value(ap@) * 0 == 0);
    }
    let mut i: usize = 0;
    while i < num
        invariant
            i <= num,
            ap@.len() == num,
            bp@.len() == num,
            tmp@.len() == 2 * num,
            2 * num <= usize::MAX,
            forall|k: int| num + i <= k < 2 * num ==> tmp@[k] == 0,
            limbs_value(tmp@) == limbs_value(ap@) * limbs_value(bp@.take(i as int)),
        decreases num - i,
    {
        let carry = limbs_mul_add_limb_at(tmp.as_mut_slice(), i, ap, bp[i], num);
        let ghost middle = tmp@;
        tmp[num + i] = carry;
        proof {
            lemma_value_update(middle, (num + i) as int, carry);
            lemma_value_take_next(bp@, i as int);
            let p = radix(i as nat) as int;
            let w = radix((i + num) as nat) as int;
            let av = limbs_value(ap@) as int;
            let bv = limbs_value(bp@.take(i as int)) as int;
            let limb = bp@[i as int] as int;
            assert(av * (bv + limb * p) == av * bv + av * limb * p) by (nonlinear_arith);
            assert((carry - 0) * w == carry * w);
        }
        i += 1;
    }
    proof {
        assert(bp@.take(num as int) =~= bp@);
        lemma_value_bound(np@);
        let av = limbs_value(ap@);
        let bv = limbs_value(bp@);
        let nv = limbs_value(np@);
        let big = radix(num as nat);
        if av < nv && bv < nv {
            assert(av * bv < nv * big) by (nonlinear_arith)
                requires
                    av < nv,
                    bv < nv,
                    nv < big,
            ;
        }
        if is_montgomery_constant(nv, n0) {
            assert forall|a: nat, b: nat|
                a < nv && b < nv
                    && av == #[trigger] montgomery_form(a, nv, num as nat)
                    && bv == #[trigger] montgomery_form(b, nv, num as nat)
                implies montgomery_reduction(av * bv, nv, n0, num as nat)
                    == montgomery_form((a * b) % nv, nv, num as nat) by {
                lemma_montgomery_product(a, b, nv, n0, num as nat);
            }
        }
    }
    bn_from_montgomery_in_place(rp, tmp.as_mut_slice(), np, n0)
}

} // verus!
