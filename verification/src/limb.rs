//! Single-limb primitives: the optimizer barrier, the masked select and
//! subtraction with borrow.

use vstd::prelude::*;

verus! {

/// One machine word of a multi-limb integer.
pub type Limb = u32;

/// A carry or borrow bit, held in a full limb whose value is 0 or 1.
pub type Carry = Limb;

/// Twice the width of a limb; only ever an intermediate.
pub type DoubleLimb = u64;

/// The number of values a limb can take, `2^32`.
#[verifier::inline]
pub open spec fn limb_radix() -> nat {
    0x1_0000_0000
}

/// What a select computes bit by bit: the bits of `a` where `mask` is set,
/// those of `b` elsewhere.
pub open spec fn select_bits(mask: Limb, a: Limb, b: Limb) -> Limb {
    (mask & a) | (!mask & b)
}

/// The exact difference `a - b - borrow_in`, before it is cut to a limb.
pub open spec fn limb_difference(a: Limb, b: Limb, borrow_in: Carry) -> int {
    a - b - borrow_in
}

/// Calls `core::sync::atomic::compiler_fence` with sequentially consistent
/// ordering, which never panics for that ordering. It returns nothing, so
/// nothing is claimed of it.
#[verifier::external_body]
fn optimization_fence() {
    core::sync::atomic::compiler_fence(core::sync::atomic::Ordering::SeqCst);
}

/// Returns `a` unchanged, behind a compiler fence that keeps the optimizer
/// from reasoning about where the value came from.
pub fn value_barrier_w(a: Limb) -> (r: Limb)
    ensures
        r == a,
{
    optimization_fence();
    a
}

/// Selects `a` where `mask` is all ones and `b` where it is zero, reading
/// both in either case.
pub fn constant_time_select_w(mask: Limb, a: Limb, b: Limb) -> (r: Limb)
    ensures
        r == select_bits(mask, a, b),
        mask == 0xffff_ffffu32 ==> r == a,
        mask == 0 ==> r == b,
{
    let r = value_barrier_w(mask) & a | value_barrier_w(!mask) & b;
    assert(mask == 0xffff_ffffu32 ==> (mask & a) | (!mask & b) == a) by (bit_vector);
    assert(mask == 0 ==> (mask & a) | (!mask & b) == b) by (bit_vector);
    r
}

/// Stores the low limb of `a - b - borrow_in` in `r` and returns the borrow:
/// bit 32 of the difference taken in double width.
pub fn limb_sbb(r: &mut Limb, a: Limb, b: Limb, borrow_in: Carry) -> (borrow_out: Carry)
    ensures
        *final(r) == limb_difference(a, b, borrow_in) % (limb_radix() as int),
        borrow_out == (limb_difference(a, b, borrow_in) / (limb_radix() as int)) % 2,
        borrow_in <= 1 ==> borrow_out == (if a < b + borrow_in { 1int } else { 0int }),
        borrow_in <= 1 ==> *final(r) - borrow_out * limb_radix() == a - b - borrow_in,
{
    let x: DoubleLimb = (a as DoubleLimb).wrapping_sub(b as DoubleLimb).wrapping_sub(
        borrow_in as DoubleLimb,
    );
    let ghost d = limb_difference(a, b, borrow_in);
    assert(x == (if d >= 0 { d } else { d + 0x1_0000_0000_0000_0000 }));
    let low: Limb = #[verifier::truncate] (x as Limb);
    let bit: DoubleLimb = (x >> 32) & 1;
    assert(low == x % 0x1_0000_0000) by (bit_vector)
        requires
            low == x as u32,
    ;
    assert(bit == (x / 0x1_0000_0000) % 2) by (bit_vector)
        requires
            bit == (x >> 32) & 1,
    ;
    *r = low;
    bit as Carry
}

/// Stores the low limb of `a - b` in `r` and returns 1 if `a < b`, else 0.
pub fn limb_sub(r: &mut Limb, a: Limb, b: Limb) -> (borrow_out: Carry)
    ensures
        *final(r) == limb_difference(a, b, 0) % (limb_radix() as int),
        borrow_out == (if a < b { 1int } else { 0int }),
        *final(r) - borrow_out * limb_radix() == a - b,
{
    let x: DoubleLimb = (a as DoubleLimb).wrapping_sub(b as DoubleLimb);
    let ghost d = limb_difference(a, b, 0);
    assert(x == (if d >= 0 { d } else { d + 0x1_0000_0000_0000_0000 }));
    let low: Limb = #[verifier::truncate] (x as Limb);
    let bit: DoubleLimb = (x >> 32) & 1;
    assert(low == x % 0x1_0000_0000) by (bit_vector)
        requires
            low == x as u32,
    ;
    assert(bit == (x / 0x1_0000_0000) % 2) by (bit_vector)
        requires
            bit == (x >> 32) & 1,
    ;
    *r = low;
    bit as Carry
}

} // verus!
