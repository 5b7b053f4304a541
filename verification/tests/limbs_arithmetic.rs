use montgomery_core::limbs::{limbs_mul_add_limb, limbs_mul_add_limb_at, limbs_sub};

fn value(limbs: &[u32]) -> u128 {
    let mut v: u128 = 0;
    for (i, limb) in limbs.iter().enumerate() {
        v += (*limb as u128) << (32 * i);
    }
    v
}

#[test]
fn two_limb_subtraction_borrows_across_limbs() {
    // 2^32 - 1: the low limb wraps and takes the one above it.
    let mut r = [0u32; 2];
    let borrow = limbs_sub(&mut r, &[0, 1], &[1, 0], 2);
    assert_eq!(r, [u32::MAX, 0]);
    assert_eq!(borrow, 0);
}

#[test]
fn subtraction_of_larger_value_wraps_and_reports_borrow() {
    let mut r = [0u32; 2];
    let borrow = limbs_sub(&mut r, &[1, 0], &[0, 1], 2);
    assert_eq!(borrow, 1);
    // 1 - 2^32 + 2^64
    assert_eq!(r, [1, u32::MAX]);
}

#[test]
fn subtraction_of_equal_values_is_zero_without_borrow() {
    let mut r = [7u32; 3];
    let a = [0xdead_beef, 0x0123_4567, 0x89ab_cdef];
    let borrow = limbs_sub(&mut r, &a, &a, 3);
    assert_eq!(borrow, 0);
    assert_eq!(r, [0, 0, 0]);
}

#[test]
fn single_limb_subtraction() {
    let mut r = [0u32; 1];
    assert_eq!(limbs_sub(&mut r, &[10], &[3], 1), 0);
    assert_eq!(r, [7]);
    assert_eq!(limbs_sub(&mut r, &[3], &[10], 1), 1);
    assert_eq!(r, [0xffff_fff9]);
}

#[test]
fn borrow_ripples_through_zero_limbs() {
    let mut r = [0u32; 4];
    let borrow = limbs_sub(&mut r, &[0, 0, 0, 1], &[1, 0, 0, 0], 4);
    assert_eq!(borrow, 0);
    assert_eq!(r, [u32::MAX, u32::MAX, u32::MAX, 0]);
}

#[test]
fn subtraction_matches_wide_arithmetic() {
    let a = [0x0000_0001, 0x8000_0000, 0x7fff_ffff];
    let b = [0xffff_ffff, 0x8000_0000, 0x0000_0001];
    let mut r = [0u32; 3];
    let borrow = limbs_sub(&mut r, &a, &b, 3);
    assert_eq!(borrow, 0);
    assert_eq!(value(&r), value(&a) - value(&b));
    let borrow = limbs_sub(&mut r, &b, &a, 3);
    assert_eq!(borrow, 1);
    assert_eq!(value(&r), (1u128 << 96) + value(&b) - value(&a));
}

#[test]
fn multiply_accumulate_single_limb() {
    let mut r = [5u32];
    let carry = limbs_mul_add_limb(&mut r, &[3], 4, 1);
    assert_eq!(r, [17]);
    assert_eq!(carry, 0);
}

#[test]
fn multiply_accumulate_largest_operands() {
    // (2^32 - 1) + (2^32 - 1)^2 = (2^32 - 1) * 2^32
    let mut r = [u32::MAX];
    let carry = limbs_mul_add_limb(&mut r, &[u32::MAX], u32::MAX, 1);
    assert_eq!(r, [0]);
    assert_eq!(carry, u32::MAX);
}

#[test]
fn multiply_accumulate_carries_between_limbs() {
    let mut r = [1u32, 2, 3];
    let a = [0xffff_ffff, 0xffff_ffff, 0xffff_ffff];
    let before = value(&r);
    let carry = limbs_mul_add_limb(&mut r, &a, 0x1234_5678, 3);
    let total = before + value(&a) * 0x1234_5678;
    assert_eq!(value(&r), total % (1u128 << 96));
    assert_eq!(carry as u128, total >> 96);
}

#[test]
fn multiply_accumulate_by_zero_changes_nothing() {
    let mut r = [9u32, 8, 7];
    let carry = limbs_mul_add_limb(&mut r, &[1, 2, 3], 0, 3);
    assert_eq!(r, [9, 8, 7]);
    assert_eq!(carry, 0);
}

#[test]
fn multiply_accumulate_over_no_limbs() {
    let mut r: [u32; 0] = [];
    assert_eq!(limbs_mul_add_limb(&mut r, &[], 5, 0), 0);
}

#[test]
fn windowed_multiply_accumulate_touches_only_the_window() {
    let mut acc = [0x1111_1111u32, 0xffff_ffff, 0xffff_ffff, 0x2222_2222];
    let carry = limbs_mul_add_limb_at(&mut acc, 1, &[1, 0], 1, 2);
    // the window held 2^64 - 1; one more wraps it to zero
    assert_eq!(acc, [0x1111_1111, 0, 0, 0x2222_2222]);
    assert_eq!(carry, 1);
}

#[test]
fn windowed_multiply_accumulate_at_offset_zero_is_the_plain_one() {
    let mut windowed = [10u32, 20, 30];
    let mut plain = [10u32, 20];
    let c1 = limbs_mul_add_limb_at(&mut windowed, 0, &[0xffff_fff0, 3], 0xabcd, 2);
    let c2 = limbs_mul_add_limb(&mut plain, &[0xffff_fff0, 3], 0xabcd, 2);
    assert_eq!(c1, c2);
    assert_eq!(&windowed[..2], &plain[..]);
    assert_eq!(windowed[2], 30);
}
