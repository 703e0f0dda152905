//! The metrics fingerprint that gates the measure cache: a stable hash over
//! the bit patterns of the metrics that, if changed, invalidate the height
//! map or the wrap cache (size, font, gutter, wrap settings).

use vstd::prelude::*;

verus! {

/// Seed of the fingerprint.
pub const FINGERPRINT_SEED: u64 = 0xA076_1D64_78BD_642F;

/// Multiplier mixed into each metric.
pub const FINGERPRINT_MUL: u64 = 0x9E37_79B9_7F4A_7C15;

/// `x` rotated left by 27 bits (`u64::rotate_left(27)`).
pub open spec fn rotl27(x: u64) -> u64 {
    (x << 27u64) | (x >> 37u64)
}

/// One mixing step: xor in the metric times the multiplier (wrapping), then
/// rotate left by 27.
pub open spec fn fp_step(acc: u64, bits: u64) -> u64 {
    rotl27(acc ^ vstd::wrapping::u64_specs::wrapping_mul(bits, FINGERPRINT_MUL))
}

/// The fingerprint of the first `n` metrics of `bits`.
pub open spec fn fp_fold(bits: Seq<u64>, n: int) -> u64
    decreases n,
{
    if n <= 0 {
        FINGERPRINT_SEED
    } else {
        fp_step(fp_fold(bits, n - 1), bits[n - 1])
    }
}

/// Stable fingerprint over the bit patterns of the view metrics, in order:
/// width, height, font size, line height, gutter width, wrap width, and
/// whether wrapping is enabled (0 or 1).
pub fn compute_metrics_fingerprint(bits: [u64; 7]) -> (r: u64)
    ensures
        r == fp_fold(bits@, 7),
{
    let mut acc: u64 = FINGERPRINT_SEED;
    let mut i: usize = 0;
    while i < 7
        invariant
            i <= 7,
            acc == fp_fold(bits@, i as int),
        decreases 7 - i,
    {
        let b = bits[i];
        let mixed = acc ^ b.wrapping_mul(FINGERPRINT_MUL);
        acc = (mixed << 27u64) | (mixed >> 37u64);
        i = i + 1;
    }
    acc
}

} // verus!
