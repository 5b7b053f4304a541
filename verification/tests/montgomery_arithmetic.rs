use montgomery_core::montgomery::{
    bn_from_montgomery_in_place, bn_mul_mont, GFp_bn_from_montgomery_in_place,
};

/// `-n^-1 mod 2^32` for odd `n`, by Newton's iteration.
fn montgomery_constant(n: u32) -> u32 {
    let mut inverse: u32 = n;
    for _ in 0..5 {
        inverse = inverse.wrapping_mul(2u32.wrapping_sub(n.wrapping_mul(inverse)));
    }
    inverse.wrapping_neg()
}

fn limbs_of(v: u64) -> [u32; 2] {
    [v as u32, (v >> 32) as u32]
}

fn value_of(limbs: &[u32]) -> u128 {
    let mut v: u128 = 0;
    for (i, limb) in limbs.iter().enumerate() {
        v += (*limb as u128) << (32 * i);
    }
    v
}

/// `x * 2^64 mod n`
fn to_form_2(x: u64, n: u64) -> u64 {
    (((x as u128) << 64) % (n as u128)) as u64
}

#[test]
fn constant_for_seven() {
    let n0 = montgomery_constant(7);
    assert_eq!(n0, 0x4924_9249);
    assert_eq!(7u32.wrapping_mul(n0), u32::MAX);
}

#[test]
fn three_times_five_modulo_seven() {
    let n = [7u32];
    let n0 = montgomery_constant(7);
    // 2^64 mod 7, which takes a value into Montgomery form when multiplied in
    let rr = [2u32];
    let mut a_form = [0u32];
    let mut b_form = [0u32];
    assert_eq!(bn_mul_mont(&mut a_form, &[3], &rr, &n, n0, 1), 1);
    assert_eq!(bn_mul_mont(&mut b_form, &[5], &rr, &n, n0, 1), 1);
    // 3 * 2^32 mod 7 and 5 * 2^32 mod 7
    assert_eq!(a_form, [5]);
    assert_eq!(b_form, [6]);
    let mut product_form = [0u32];
    assert_eq!(bn_mul_mont(&mut product_form, &a_form, &b_form, &n, n0, 1), 1);
    // (15 mod 7) * 2^32 mod 7
    assert_eq!(product_form, [4]);
    let mut acc = [product_form[0], 0];
    let mut product = [0u32];
    assert_eq!(bn_from_montgomery_in_place(&mut product, &mut acc, &n, n0), 1);
    assert_eq!(product, [1]);
    assert_eq!(acc, [0, 0]);
}

#[test]
fn reduction_of_small_accumulator_modulo_seven() {
    // 4 * (2^32)^-1 mod 7 = 4 * 2 mod 7
    let mut r = [0xffu32];
    let mut a = [4u32, 0];
    assert_eq!(bn_from_montgomery_in_place(&mut r, &mut a, &[7], 0x4924_9249), 1);
    assert_eq!(r, [1]);
    assert_eq!(a, [0, 0]);
}

#[test]
fn reduction_subtracts_modulus_when_quotient_reaches_it() {
    // accumulator v = 7 * 2^32 - 1, the largest below n * 2^32. The round
    // adds 0xb6db6db7 * 7 = 5 * 2^32 + 1, so the quotient is 12 and one
    // subtraction of the modulus leaves 5; indeed 5 * 2^32 = 6 = v (mod 7).
    let n = 7u64;
    let v: u64 = 7 * (1u64 << 32) - 1;
    let mut a = limbs_of(v);
    let mut r = [0u32];
    assert_eq!(bn_from_montgomery_in_place(&mut r, &mut a, &[7], 0x4924_9249), 1);
    assert!(r[0] < 7);
    assert_eq!(((r[0] as u64) << 32) % n, v % n);
    assert_eq!(r, [5]);
    assert_eq!(a, [0, 0]);
}

#[test]
fn reduction_folds_carry_out_of_the_top_limb() {
    // the largest one-limb modulus and an accumulator just below n * 2^32:
    // the running sum overflows 64 bits and only the carry keeps the result right
    let n: u32 = u32::MAX;
    let n0 = montgomery_constant(n);
    let v: u64 = (n as u64) * (1u64 << 32) - 1;
    let mut a = limbs_of(v);
    let mut r = [0u32];
    assert_eq!(bn_from_montgomery_in_place(&mut r, &mut a, &[n], n0), 1);
    assert!(r[0] < n);
    assert_eq!((((r[0] as u128) << 32) % (n as u128)) as u64, v % (n as u64));
    assert_eq!(a, [0, 0]);
}

#[test]
fn round_trip_through_montgomery_form_two_limbs() {
    let n: u64 = 0xffff_ffff_0000_0001;
    let n_limbs = limbs_of(n);
    let n0 = montgomery_constant(n_limbs[0]);
    for x in [0u64, 1, 2, 0xdead_beef, 0x1234_5678_9abc_def0, n - 1] {
        let form = to_form_2(x, n);
        let f = limbs_of(form);
        let mut acc = [f[0], f[1], 0, 0];
        let mut r = [0u32; 2];
        assert_eq!(bn_from_montgomery_in_place(&mut r, &mut acc, &n_limbs, n0), 1);
        assert_eq!(value_of(&r), x as u128);
        assert_eq!(acc, [0, 0, 0, 0]);
    }
}

#[test]
fn product_in_montgomery_form_two_limbs() {
    let n: u64 = 0xc000_0000_0000_0a4d;
    let n_limbs = limbs_of(n);
    let n0 = montgomery_constant(n_limbs[0]);
    let cases = [
        (0u64, 5u64),
        (1, 1),
        (3, 5),
        (0xffff_ffff, 0xffff_ffff),
        (0x0123_4567_89ab_cdef, 0xfedc_ba98_7654_3210 % n),
        (n - 1, n - 1),
    ];
    for (a, b) in cases {
        let a_form = limbs_of(to_form_2(a, n));
        let b_form = limbs_of(to_form_2(b, n));
        let mut r = [0u32; 2];
        assert_eq!(bn_mul_mont(&mut r, &a_form, &b_form, &n_limbs, n0, 2), 1);
        let ab = ((a as u128) * (b as u128) % (n as u128)) as u64;
        assert_eq!(value_of(&r), to_form_2(ab, n) as u128);
    }
}

#[test]
fn product_result_is_below_modulus() {
    let n: u64 = 0x8000_0000_0000_001d;
    let n_limbs = limbs_of(n);
    let n0 = montgomery_constant(n_limbs[0]);
    let a = limbs_of(n - 1);
    let b = limbs_of(n - 2);
    let mut r = [0u32; 2];
    assert_eq!(bn_mul_mont(&mut r, &a, &b, &n_limbs, n0, 2), 1);
    assert!(value_of(&r) < n as u128);
    // result * 2^64 = a * b (mod n)
    let lhs = (value_of(&r) % (n as u128)) * ((1u128 << 64) % (n as u128)) % (n as u128);
    let rhs = ((n - 1) as u128) * ((n - 2) as u128) % (n as u128);
    assert_eq!(lhs, rhs);
}

#[test]
fn three_limb_product_matches_reduction_of_schoolbook_product() {
    // multiplying by the Montgomery form of one, 2^96 mod n, returns the operand
    let n_limbs = [0xffff_fffbu32, 0xffff_ffff, 0x0000_ffff];
    let n = value_of(&n_limbs);
    let n0 = montgomery_constant(n_limbs[0]);
    let one_form_value = (1u128 << 96) % n;
    let one_form = [
        one_form_value as u32,
        (one_form_value >> 32) as u32,
        (one_form_value >> 64) as u32,
    ];
    let a = [0x89ab_cdefu32, 0x0123_4567, 0x0000_0fed];
    let mut r = [0u32; 3];
    assert_eq!(bn_mul_mont(&mut r, &a, &one_form, &n_limbs, n0, 3), 1);
    assert_eq!(r, a);
}

#[test]
fn reduction_rejects_empty_modulus() {
    let mut r: [u32; 0] = [];
    let mut a: [u32; 0] = [];
    assert_eq!(bn_from_montgomery_in_place(&mut r, &mut a, &[], 1), 0);
}

#[test]
fn reduction_rejects_result_of_wrong_length() {
    let mut r = [0xaaaa_aaaau32, 0xbbbb_bbbb];
    let mut a = [4u32, 0];
    assert_eq!(bn_from_montgomery_in_place(&mut r, &mut a, &[7], 0x4924_9249), 0);
    assert_eq!(r, [0xaaaa_aaaa, 0xbbbb_bbbb]);
    assert_eq!(a, [4, 0]);
}

#[test]
fn reduction_rejects_accumulator_of_wrong_length() {
    for len in [0usize, 1, 3, 4] {
        let mut r = [0xaaaa_aaaau32];
        let mut a = vec![9u32; len];
        assert_eq!(bn_from_montgomery_in_place(&mut r, &mut a, &[7], 0x4924_9249), 0);
        assert_eq!(r, [0xaaaa_aaaa]);
        assert_eq!(a, vec![9u32; len]);
    }
}

#[test]
fn multiplication_rejects_mismatched_lengths() {
    let n0 = 0x4924_9249;
    let mut r1 = [0x5555_5555u32];
    let mut r2 = [0x5555_5555u32, 0x6666_6666];
    assert_eq!(bn_mul_mont(&mut r1, &[3], &[5], &[7], n0, 0), 0);
    assert_eq!(bn_mul_mont(&mut r1, &[3], &[5], &[7], n0, 2), 0);
    assert_eq!(bn_mul_mont(&mut r1, &[3, 0], &[5], &[7], n0, 1), 0);
    assert_eq!(bn_mul_mont(&mut r1, &[3], &[5, 0], &[7], n0, 1), 0);
    assert_eq!(bn_mul_mont(&mut r1, &[3], &[5], &[7, 0], n0, 1), 0);
    assert_eq!(bn_mul_mont(&mut r2, &[3], &[5], &[7], n0, 1), 0);
    assert_eq!(r1, [0x5555_5555]);
    assert_eq!(r2, [0x5555_5555, 0x6666_6666]);
}

#[test]
fn multiplication_rejects_empty_operands() {
    let mut r: [u32; 0] = [];
    assert_eq!(bn_mul_mont(&mut r, &[], &[], &[], 1, 0), 0);
}

#[test]
fn both_reduction_entry_points_agree() {
    let n_limbs = [0x0000_0a4du32, 0xc000_0000];
    let n0 = montgomery_constant(n_limbs[0]);
    let accumulators = [
        [0u32, 0, 0, 0],
        [1, 0, 0, 0],
        [0xffff_ffff, 0xffff_ffff, 0x0000_0a4c, 0xc000_0000],
        [0x89ab_cdef, 0x0123_4567, 0x7654_3210, 0x0edc_ba98],
    ];
    for acc in accumulators {
        let mut a1 = acc;
        let mut a2 = acc;
        let mut r1 = [0u32; 2];
        let mut r2 = [0u32; 2];
        let ok1 = bn_from_montgomery_in_place(&mut r1, &mut a1, &n_limbs, n0);
        let ok2 = GFp_bn_from_montgomery_in_place(&mut r2, &mut a2, &n_limbs, n0);
        assert_eq!(ok1, 1);
        assert_eq!(ok2, 1);
        assert_eq!(r1, r2);
        assert_eq!(a1, a2);
        assert_eq!(a1, [0, 0, 0, 0]);
    }
    let mut r = [3u32];
    let mut a = [1u32, 2, 3];
    assert_eq!(GFp_bn_from_montgomery_in_place(&mut r, &mut a, &[7], n0), 0);
    assert_eq!(r, [3]);
    assert_eq!(a, [1, 2, 3]);
}

#[test]
fn accumulator_is_zeroed_even_with_a_wrong_constant() {
    // with a constant that does not match the modulus the rounds leave the
    // low limbs nonzero; they are cleared all the same
    let mut r = [0u32; 2];
    let mut a = [0x1111_1111u32, 0x2222_2222, 0x3333_3333, 0x4444_4444];
    assert_eq!(bn_from_montgomery_in_place(&mut r, &mut a, &[7, 9], 12345), 1);
    assert_eq!(a, [0, 0, 0, 0]);
}
