use hiker_editor::measure::compute_metrics_fingerprint;

fn reference(bits: [u64; 7]) -> u64 {
    let mut acc: u64 = 0xA076_1D64_78BD_642F;
    for b in bits {
        acc ^= b.wrapping_mul(0x9E37_79B9_7F4A_7C15);
        acc = acc.rotate_left(27);
    }
    acc
}

#[test]
fn fingerprint_matches_the_rotating_mix() {
    let bits = [
        800.0f32.to_bits() as u64,
        600.0f32.to_bits() as u64,
        14.0f32.to_bits() as u64,
        18.0f32.to_bits() as u64,
        40.0f32.to_bits() as u64,
        760.0f32.to_bits() as u64,
        1,
    ];
    assert_eq!(compute_metrics_fingerprint(bits), reference(bits));
    assert_eq!(compute_metrics_fingerprint([0; 7]), reference([0; 7]));
}

#[test]
fn fingerprint_changes_with_any_metric() {
    let base = [1, 2, 3, 4, 5, 6, 1];
    let f = compute_metrics_fingerprint(base);
    for i in 0..7 {
        let mut other = base;
        other[i] ^= 1;
        assert_ne!(compute_metrics_fingerprint(other), f);
    }
}
