//! Comparison of byte buffers in time that depends on their length alone.

use vstd::prelude::*;

verus! {

/// The bits in which the first `len` bytes of `a` and `b` differ, gathered
/// into one byte: the OR of the XOR of each pair.
pub open spec fn accumulated_difference(a: Seq<u8>, b: Seq<u8>, len: usize) -> u8
    decreases len,
{
    if len == 0 {
        0
    } else {
        accumulated_difference(a, b, (len - 1) as usize) | (a[len - 1] ^ b[len - 1])
    }
}

/// The first `len` bytes of `a` and `b` are the same.
pub open spec fn same_bytes(a: Seq<u8>, b: Seq<u8>, len: usize) -> bool {
    forall|k: int| 0 <= k < len ==> a[k] == b[k]
}

/// No bit is gathered exactly when no byte differs.
pub proof fn lemma_difference_is_zero_iff_same(a: Seq<u8>, b: Seq<u8>, len: usize)
    ensures
        accumulated_difference(a, b, len) == 0 <==> same_bytes(a, b, len),
    decreases len,
{
    if len > 0 {
        let shorter = (len - 1) as usize;
        lemma_difference_is_zero_iff_same(a, b, shorter);
        let gathered = accumulated_difference(a, b, shorter);
        let x = a[len - 1];
        let y = b[len - 1];
        assert((gathered | (x ^ y)) == 0 <==> gathered == 0 && x == y) by (bit_vector);
        if same_bytes(a, b, shorter) && x == y {
            assert forall|k: int| 0 <= k < len implies a[k] == b[k] by {
                if k < shorter {
                } else {
                    assert(k == len - 1);
                }
            }
        }
        if same_bytes(a, b, len) {
            assert(a[len - 1] == b[len - 1]);
            assert(same_bytes(a, b, shorter));
        }
    }
}

/// A byte as a signed 32-bit integer of the same value.
fn widen(x: u8) -> (r: i32)
    ensures
        r == x,
{
    x as i32
}

/// Compares the first `len` bytes of `a` and `b`, reading every one of them
/// whatever they hold. Returns zero exactly when they are all equal; any
/// other result says only that some byte differs.
#[allow(non_snake_case)]
pub fn GFp_memcmp(a: &[u8], b: &[u8], len: usize) -> (r: i32)
    requires
        len <= a@.len(),
        len <= b@.len(),
    ensures
        r == accumulated_difference(a@, b@, len),
        r == 0 <==> same_bytes(a@, b@, len),
{
    let mut x: u8 = 0;
    let mut i: usize = 0;
    while i < len
        invariant
            i <= len,
            len <= a@.len(),
            len <= b@.len(),
            x == accumulated_difference(a@, b@, i),
        decreases len - i,
    {
        x = x | (a[i] ^ b[i]);
        i += 1;
    }
    proof {
        lemma_difference_is_zero_iff_same(a@, b@, len);
    }
    widen(x)
}

} // verus!
