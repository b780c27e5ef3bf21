use rusty_opus::{compute_equiv_rate, compute_mode_threshold, compute_voice_est, Application};

#[test]
fn equiv_rate_is_bitrate_for_vbr_50fps_complexity_10_no_loss() {
    assert_eq!(compute_equiv_rate(64000, 2, 50, true, 10, 0), 64000);
    assert_eq!(compute_equiv_rate(12345, 1, 25, true, 10, 0), 12345);
}

#[test]
fn equiv_rate_frame_overhead_cbr_complexity_loss() {
    // 64000 - 60*50 = 61000; CBR: 61000 - 5083 = 55917; *99/100 = 55357;
    // loss 5: 55357 - 55357*5/80 = 51898
    assert_eq!(compute_equiv_rate(64000, 1, 100, false, 9, 5), 51898);
    // stereo frame overhead: (40*2+20) * (100-50) = 5000
    assert_eq!(compute_equiv_rate(64000, 2, 100, true, 10, 0), 59000);
}

#[test]
fn equiv_rate_truncates_toward_zero() {
    // -1000 * 99 / 100 = -990 exactly; -1001 * 99 / 100 = -990.99 -> -990
    assert_eq!(compute_equiv_rate(-1001, 1, 50, true, 9, 0), -990);
}

#[test]
fn mode_threshold_values() {
    // music-only estimate: 10000
    assert_eq!(compute_mode_threshold(Application::Audio, 1, false, false, 0), 10000);
    // VoIP voice estimate 115, mono, previously SILK
    let offset = (115 * 115 * 54000) >> 14;
    assert_eq!(
        compute_mode_threshold(Application::Voip, 1, false, true, 115),
        10000 + offset + 8000 + 4000
    );
    // stereo, previously CELT
    let offset = (48 * 48 * 34000) >> 14;
    assert_eq!(
        compute_mode_threshold(Application::Audio, 2, true, true, 48),
        10000 + offset - 4000
    );
    // restricted low delay always 0
    assert_eq!(compute_mode_threshold(Application::RestrictedLowDelay, 1, true, true, 127), 0);
}

#[test]
fn voice_est_values() {
    assert_eq!(compute_voice_est(-1, Application::Voip), 115);
    assert_eq!(compute_voice_est(-1, Application::Audio), 48);
    assert_eq!(compute_voice_est(-1, Application::RestrictedLowDelay), 0);
    assert_eq!(compute_voice_est(50, Application::Voip), 63);
    assert_eq!(compute_voice_est(100, Application::Voip), 127);
    assert_eq!(compute_voice_est(100, Application::Audio), 115);
    assert_eq!(compute_voice_est(0, Application::Audio), 0);
}

#[test]
fn application_and_bandwidth_codes() {
    assert_eq!(Application::Voip.code(), 2048);
    assert_eq!(Application::Audio.code(), 2049);
    assert_eq!(Application::RestrictedLowDelay.code(), 2051);
    assert_eq!(rusty_opus::Bandwidth::Auto.code(), -1000);
    assert_eq!(rusty_opus::Bandwidth::Fullband.code(), 1105);
}
