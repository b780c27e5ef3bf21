use rusty_opus::{compute_silk_rate_for_hybrid, Bandwidth};

#[test]
fn test_reference_table_exact_entries() {
    assert_eq!(compute_silk_rate_for_hybrid(12000, Bandwidth::Fullband, true, true), 10000);
    assert_eq!(compute_silk_rate_for_hybrid(16000, Bandwidth::Fullband, true, true), 13500);
    assert_eq!(compute_silk_rate_for_hybrid(20000, Bandwidth::Fullband, true, true), 16000);
    assert_eq!(compute_silk_rate_for_hybrid(24000, Bandwidth::Fullband, true, true), 18000);
    assert_eq!(compute_silk_rate_for_hybrid(32000, Bandwidth::Fullband, true, true), 22000);
    assert_eq!(compute_silk_rate_for_hybrid(64000, Bandwidth::Fullband, true, true), 38000);
}

#[test]
fn test_32kbps_gives_22kbps_silk() {
    assert_eq!(compute_silk_rate_for_hybrid(32000, Bandwidth::Fullband, true, true), 22000);
}

#[test]
fn test_interpolation_between_table_entries() {
    let r = compute_silk_rate_for_hybrid(18000, Bandwidth::Fullband, true, true);
    assert_eq!(r, 14750);
}

#[test]
fn test_above_table_max_gives_half_extra() {
    let r = compute_silk_rate_for_hybrid(72000, Bandwidth::Fullband, true, true);
    assert_eq!(r, 38000 + (72000 - 64000) / 2);
}

#[test]
fn silk_rate_same_for_10ms_and_20ms_frames() {
    for rate in [0, 5000, 12000, 13000, 25000, 40000, 64000, 100000] {
        assert_eq!(
            compute_silk_rate_for_hybrid(rate, Bandwidth::Fullband, true, true),
            compute_silk_rate_for_hybrid(rate, Bandwidth::Fullband, false, true)
        );
    }
}

#[test]
fn silk_rate_cbr_and_superwideband_bonuses() {
    assert_eq!(compute_silk_rate_for_hybrid(32000, Bandwidth::Fullband, true, false), 22100);
    assert_eq!(compute_silk_rate_for_hybrid(32000, Bandwidth::Superwideband, true, true), 22300);
    assert_eq!(compute_silk_rate_for_hybrid(32000, Bandwidth::Superwideband, false, false), 22400);
}

#[test]
fn silk_rate_below_and_at_bottom_of_table() {
    assert_eq!(compute_silk_rate_for_hybrid(0, Bandwidth::Fullband, true, true), 0);
    assert_eq!(compute_silk_rate_for_hybrid(6000, Bandwidth::Fullband, true, true), 5000);
    // truncating division toward zero for negative totals
    assert_eq!(compute_silk_rate_for_hybrid(-7, Bandwidth::Fullband, true, true), -5);
}

#[test]
fn silk_rate_interpolates_in_upper_segment() {
    // between 32000 -> 22000 and 64000 -> 38000: half of the excess
    assert_eq!(compute_silk_rate_for_hybrid(48000, Bandwidth::Fullband, true, true), 30000);
}
