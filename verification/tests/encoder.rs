use rusty_opus::decoder::{silk_frames_per_frame, silk_internal_rate, split_frames};
use rusty_opus::encoder::{
    auto_bandwidth, celt_budget, check_config, check_frame_rate, choose_mode, coded_bandwidth,
    detected_bandwidth, dtx_step, hybrid_bandwidth, packet_bytes, settle_mode, silk_only_packet,
    silk_budget, start_mode, transition_resets, EncoderControl, EncoderSettings,
};
use rusty_opus::repacketizer::parse_packet;
use rusty_opus::{
    bandwidth_from_toc, channels_from_toc, gen_toc, mode_from_toc, Application, Bandwidth,
    OpusMode,
};

#[test]
fn config_checks() {
    assert_eq!(check_config(44100, 1), Err("Invalid sampling rate"));
    assert_eq!(check_config(48000, 3), Err("Invalid number of channels"));
    assert_eq!(check_config(48000, 0), Err("Invalid number of channels"));
    assert_eq!(check_config(16000, 2), Ok(()));
    assert_eq!(check_config(8000, 1), Ok(()));
}

#[test]
fn start_modes() {
    assert_eq!(start_mode(48000, Application::Voip), (OpusMode::Hybrid, Bandwidth::Fullband));
    assert_eq!(start_mode(16000, Application::Voip), (OpusMode::SilkOnly, Bandwidth::Wideband));
    assert_eq!(start_mode(12000, Application::Voip), (OpusMode::SilkOnly, Bandwidth::Mediumband));
    assert_eq!(
        start_mode(48000, Application::RestrictedLowDelay),
        (OpusMode::CeltOnly, Bandwidth::Fullband)
    );
    assert_eq!(
        start_mode(8000, Application::RestrictedLowDelay),
        (OpusMode::CeltOnly, Bandwidth::Narrowband)
    );
    assert_eq!(start_mode(8000, Application::Audio), (OpusMode::SilkOnly, Bandwidth::Narrowband));
    assert_eq!(start_mode(16000, Application::Audio), (OpusMode::SilkOnly, Bandwidth::Wideband));
    assert_eq!(start_mode(24000, Application::Audio), (OpusMode::Hybrid, Bandwidth::Superwideband));
}

#[test]
fn hybrid_switch() {
    assert_eq!(
        hybrid_bandwidth(16000),
        Err("Hybrid mode requires 24kHz or 48kHz sampling rate")
    );
    assert_eq!(hybrid_bandwidth(24000), Ok(Bandwidth::Superwideband));
    assert_eq!(hybrid_bandwidth(48000), Ok(Bandwidth::Fullband));
}

#[test]
fn detected_bandwidths() {
    assert_eq!(detected_bandwidth(false, 20), 0);
    assert_eq!(detected_bandwidth(true, 12), 1101);
    assert_eq!(detected_bandwidth(true, 13), 1102);
    assert_eq!(detected_bandwidth(true, 16), 1103);
    assert_eq!(detected_bandwidth(true, 18), 1104);
    assert_eq!(detected_bandwidth(true, 19), 1105);
}

#[test]
fn mode_choice() {
    // restricted low delay: always CELT
    assert_eq!(
        choose_mode(Application::RestrictedLowDelay, 8000, 1, 50, 6000, true, 0, 0, None, -1),
        OpusMode::CeltOnly
    );
    // VoIP mono at 64 kb/s: equivalent 63360 >= threshold 61588
    assert_eq!(
        choose_mode(Application::Voip, 48000, 1, 50, 64000, false, 9, 0, None, -1),
        OpusMode::CeltOnly
    );
    // the same at 16 kHz stays SILK
    assert_eq!(
        choose_mode(Application::Voip, 16000, 1, 50, 64000, false, 9, 0, None, -1),
        OpusMode::SilkOnly
    );
    // after SILK the threshold rises by 4000: 63360 < 65588
    assert_eq!(
        choose_mode(Application::Voip, 48000, 1, 50, 64000, false, 9, 0, Some(OpusMode::SilkOnly), -1),
        OpusMode::SilkOnly
    );
    // audio at 12 kb/s: SILK
    assert_eq!(
        choose_mode(Application::Audio, 48000, 1, 50, 12000, false, 9, 0, None, -1),
        OpusMode::SilkOnly
    );
}

#[test]
fn bandwidth_walk() {
    // first frame, music estimate: thresholds FB 12000, SWB 11000, WB 9000, MB 9000
    assert_eq!(auto_bandwidth(12000, 0, true, 0), 1105);
    assert_eq!(auto_bandwidth(11999, 0, true, 0), 1104);
    assert_eq!(auto_bandwidth(9000, 0, true, 0), 1103);
    assert_eq!(auto_bandwidth(8999, 0, true, 0), 1101);
    // hysteresis toward the previous choice
    assert_eq!(auto_bandwidth(10500, 0, false, 1105), 1105);
    assert_eq!(auto_bandwidth(10500, 0, false, 1104), 1104);
    // voice estimate raises the SWB and FB thresholds: 13461 and 13968
    assert_eq!(auto_bandwidth(13967, 127, true, 0), 1104);
    assert_eq!(auto_bandwidth(13968, 127, true, 0), 1105);
    assert_eq!(auto_bandwidth(13460, 127, true, 0), 1103);
}

#[test]
fn bandwidth_caps() {
    assert_eq!(coded_bandwidth(1105, OpusMode::SilkOnly, false, 64000, 16000, 1, 40000, 0, None), Bandwidth::Wideband);
    assert_eq!(coded_bandwidth(1105, OpusMode::SilkOnly, true, 12000, 48000, 1, 9000, 0, None), Bandwidth::Wideband);
    assert_eq!(coded_bandwidth(1101, OpusMode::SilkOnly, false, 64000, 48000, 1, 9000, 0, None), Bandwidth::Wideband);
    assert_eq!(coded_bandwidth(1101, OpusMode::CeltOnly, false, 64000, 48000, 1, 9000, 0, None), Bandwidth::Narrowband);
    assert_eq!(coded_bandwidth(1105, OpusMode::CeltOnly, false, 64000, 24000, 1, 9000, 0, None), Bandwidth::Superwideband);
    assert_eq!(coded_bandwidth(1105, OpusMode::CeltOnly, false, 64000, 8000, 1, 9000, 0, None), Bandwidth::Narrowband);
    // mediumband CELT is coded as narrowband
    assert_eq!(coded_bandwidth(1102, OpusMode::CeltOnly, false, 64000, 12000, 1, 9000, 0, None), Bandwidth::Narrowband);
    // detected bandwidth narrows SILK/hybrid, floored by the rate
    assert_eq!(coded_bandwidth(1105, OpusMode::SilkOnly, false, 64000, 48000, 1, 25000, 1103, None), Bandwidth::Wideband);
    assert_eq!(coded_bandwidth(1105, OpusMode::SilkOnly, false, 64000, 48000, 1, 35000, 1103, None), Bandwidth::Superwideband);
    assert_eq!(coded_bandwidth(1105, OpusMode::SilkOnly, false, 64000, 48000, 2, 35000, 1103, None), Bandwidth::Wideband);
    // a forced bandwidth wins
    assert_eq!(coded_bandwidth(1105, OpusMode::SilkOnly, false, 64000, 48000, 1, 35000, 1103, Some(Bandwidth::Mediumband)), Bandwidth::Mediumband);
}

#[test]
fn mode_settling() {
    assert_eq!(settle_mode(OpusMode::SilkOnly, Bandwidth::Fullband, 1), (OpusMode::Hybrid, Bandwidth::Fullband));
    assert_eq!(settle_mode(OpusMode::SilkOnly, Bandwidth::Superwideband, 2), (OpusMode::CeltOnly, Bandwidth::Fullband));
    assert_eq!(settle_mode(OpusMode::Hybrid, Bandwidth::Wideband, 1), (OpusMode::SilkOnly, Bandwidth::Wideband));
    assert_eq!(settle_mode(OpusMode::CeltOnly, Bandwidth::Narrowband, 2), (OpusMode::CeltOnly, Bandwidth::Narrowband));
    assert_eq!(settle_mode(OpusMode::SilkOnly, Bandwidth::Wideband, 2), (OpusMode::SilkOnly, Bandwidth::Wideband));
}

#[test]
fn frame_rate_checks() {
    assert_eq!(check_frame_rate(OpusMode::CeltOnly, 25), Err("Unsupported frame size for CELT-only mode"));
    assert_eq!(check_frame_rate(OpusMode::CeltOnly, 400), Ok(()));
    assert_eq!(check_frame_rate(OpusMode::Hybrid, 200), Err("Unsupported frame size for Hybrid mode"));
    assert_eq!(check_frame_rate(OpusMode::Hybrid, 50), Ok(()));
    assert_eq!(check_frame_rate(OpusMode::SilkOnly, 25), Ok(()));
    assert_eq!(check_frame_rate(OpusMode::SilkOnly, 1000), Err("Unsupported frame size for SILK-only mode"));
}

#[test]
fn transition_reset_flags() {
    assert_eq!(transition_resets(None, OpusMode::CeltOnly), (false, false));
    assert_eq!(transition_resets(Some(OpusMode::CeltOnly), OpusMode::SilkOnly), (false, true));
    assert_eq!(transition_resets(Some(OpusMode::SilkOnly), OpusMode::CeltOnly), (true, false));
    assert_eq!(transition_resets(Some(OpusMode::SilkOnly), OpusMode::Hybrid), (true, false));
    assert_eq!(transition_resets(Some(OpusMode::CeltOnly), OpusMode::Hybrid), (true, true));
    assert_eq!(transition_resets(Some(OpusMode::Hybrid), OpusMode::Hybrid), (false, false));
}

#[test]
fn dtx_decisions() {
    // 20 ms at 48 kHz is 40 half-milliseconds
    assert_eq!(dtx_step(true, true, false, false, 0, 960, 48000), (40, false));
    assert_eq!(dtx_step(true, true, false, false, 380, 960, 48000), (420, true));
    assert_eq!(dtx_step(true, true, false, false, 1160, 960, 48000), (1200, true));
    assert_eq!(dtx_step(true, true, false, false, 1180, 960, 48000), (400, false));
    // speech restarts the count
    assert_eq!(dtx_step(true, true, false, true, 500, 960, 48000), (0, false));
    // silence without analysis counts as inactive
    assert_eq!(dtx_step(true, false, true, true, 390, 960, 48000), (430, true));
    // without analysis or silence, or with DTX off, nothing is counted
    assert_eq!(dtx_step(true, false, false, false, 500, 960, 48000), (0, false));
    assert_eq!(dtx_step(false, true, true, false, 500, 960, 48000), (0, false));
}

#[test]
fn packet_sizes() {
    assert_eq!(packet_bytes(64000, 960, 48000, true, 1500), 160);
    assert_eq!(packet_bytes(64000, 960, 48000, false, 1500), 1276);
    assert_eq!(packet_bytes(64000, 960, 48000, true, 100), 100);
    assert_eq!(packet_bytes(64000, 960, 48000, false, 100), 100);
    assert_eq!(packet_bytes(6000, 120, 48000, false, 1500), 1276);
    assert_eq!(packet_bytes(0, 960, 48000, true, 1500), 1);
    assert_eq!(packet_bytes(1000, 120, 48000, false, 2), 3);
    // a negative target wraps to a huge CBR size, capped by the output
    assert_eq!(packet_bytes(-8000, 960, 48000, true, 50), 50);
}

#[test]
fn silk_packets() {
    let toc = 0x08u8;
    let coded = [1u8, 2, 3, 0, 0];
    // VBR: trailing zeros dropped, code 0
    assert_eq!(silk_only_packet(toc, &coded, false, 100, 1500), vec![0x08, 1, 2, 3]);
    // CBR exactly filled
    assert_eq!(silk_only_packet(toc, &coded, true, 4, 1500), vec![0x08, 1, 2, 3]);
    // CBR one byte over: code 3, one frame, no padding
    assert_eq!(silk_only_packet(toc, &coded, true, 5, 1500), vec![0x0B, 1, 1, 2, 3]);
    // CBR with room: padded code 3
    let p = silk_only_packet(toc, &coded, true, 10, 1500);
    assert_eq!(p, vec![0x0B, 0x41, 4, 1, 2, 3, 0, 0, 0, 0]);
    let (_, f, _) = parse_packet(&p, false).unwrap();
    assert_eq!(f, vec![(3, 3)]);
    assert_eq!(split_frames(&p), Ok(vec![(3, 3)]));
    // CBR truncation
    let long: Vec<u8> = (1..=10).collect();
    assert_eq!(silk_only_packet(toc, &long, true, 6, 1500), vec![0x08, 1, 2, 3, 4, 5]);
    // at least two coded bytes are kept
    assert_eq!(silk_only_packet(toc, &[0, 0, 0, 0], false, 10, 1500), vec![0x08, 0, 0]);
    // a long padding uses runs of 255
    let p = silk_only_packet(toc, &coded, true, 400, 1500);
    assert_eq!(p.len(), 400);
    let (_, f, _) = parse_packet(&p, false).unwrap();
    assert_eq!(f.len(), 1);
    assert_eq!(&p[f[0].0..f[0].0 + f[0].1], &[1, 2, 3]);
}

#[test]
fn encoder_toc_reads_back() {
    for (mode, bw, ch, rate) in [
        (OpusMode::SilkOnly, Bandwidth::Fullband, 1usize, 50),
        (OpusMode::SilkOnly, Bandwidth::Wideband, 2, 25),
        (OpusMode::Hybrid, Bandwidth::Superwideband, 2, 100),
        (OpusMode::CeltOnly, Bandwidth::Superwideband, 1, 400),
    ] {
        let (m, b) = settle_mode(mode, bw, ch);
        assert_eq!(check_frame_rate(m, rate), Ok(()));
        let toc = gen_toc(m, rate, b, ch);
        assert_eq!(mode_from_toc(toc), m);
        assert_eq!(bandwidth_from_toc(toc), b);
        assert_eq!(channels_from_toc(toc), ch);
    }
    // CELT narrowband reads back as narrowband; CELT mediumband, which has
    // no CELT configuration, is written and read back as narrowband
    let toc = gen_toc(OpusMode::CeltOnly, 50, Bandwidth::Narrowband, 1);
    assert_eq!(bandwidth_from_toc(toc), Bandwidth::Narrowband);
    let toc = gen_toc(OpusMode::CeltOnly, 50, Bandwidth::Mediumband, 1);
    assert_eq!(bandwidth_from_toc(toc), Bandwidth::Narrowband);
}

#[test]
fn celt_budgets() {
    // CELT fullband VBR at 64 kb/s, 20 ms: target 64000*960/6000 rounded = 10240 eighth bits
    assert_eq!(
        celt_budget(OpusMode::CeltOnly, Bandwidth::Fullband, 1276, false, 64000, 960, 48000),
        (0, 21, 10200, 10240)
    );
    // hybrid superwideband CBR
    assert_eq!(
        celt_budget(OpusMode::Hybrid, Bandwidth::Superwideband, 161, true, 64000, 960, 48000),
        (17, 19, 1280, 0)
    );
    // CELT wideband: end band 17; rounding of the VBR target
    assert_eq!(
        celt_budget(OpusMode::CeltOnly, Bandwidth::Wideband, 3, false, 1001, 120, 48000),
        (0, 17, 16, 20)
    );
}

#[test]
fn silk_budgets() {
    // SILK VBR: the bitrate, the packet's bits as cap
    assert_eq!(
        silk_budget(OpusMode::SilkOnly, Bandwidth::Wideband, 24000, false, 1276, 320, 16000, 320),
        (24000, 10200, 0)
    );
    // SILK CBR: 8 * 59 bytes * 16000 / 320 samples = 23600 b/s
    assert_eq!(
        silk_budget(OpusMode::SilkOnly, Bandwidth::Wideband, 24000, true, 60, 320, 16000, 320),
        (23600, 472, 1)
    );
    // hybrid VBR at 32 kb/s: SILK gets 22000; cap from the packet rate
    // 10200 * 48000 / 960 = 510000 -> 38000 + 223000 = 261000 -> * 960 / 48000 = 5220
    assert_eq!(
        silk_budget(OpusMode::Hybrid, Bandwidth::Fullband, 32000, false, 1276, 960, 48000, 320),
        (22000, 5220, 0)
    );
    // hybrid CBR at 32 kb/s: 22100 b/s for SILK, 7072 / 16000 ... silk bits = 22100 * 320 / 16000 = 442
    // total 1272 bits, other 830, cap 1272 - 622 = 650
    assert_eq!(
        silk_budget(OpusMode::Hybrid, Bandwidth::Fullband, 32000, true, 160, 960, 48000, 320),
        (22100, 650, 0)
    );
}

#[test]
fn decoder_silk_rates() {
    assert_eq!(silk_internal_rate(OpusMode::Hybrid, Bandwidth::Fullband), 16000);
    assert_eq!(silk_internal_rate(OpusMode::SilkOnly, Bandwidth::Narrowband), 8000);
    assert_eq!(silk_internal_rate(OpusMode::SilkOnly, Bandwidth::Mediumband), 12000);
    assert_eq!(silk_internal_rate(OpusMode::SilkOnly, Bandwidth::Wideband), 16000);
    assert_eq!(silk_frames_per_frame(20), 1);
    assert_eq!(silk_frames_per_frame(40), 2);
    assert_eq!(silk_frames_per_frame(60), 3);
    assert_eq!(silk_frames_per_frame(10), 1);
}

fn settings(
    application: Application,
    sampling_rate: i32,
    channels: usize,
    bitrate_bps: i32,
    use_cbr: bool,
    complexity: i32,
) -> EncoderSettings {
    EncoderSettings {
        application,
        sampling_rate,
        channels,
        bitrate_bps,
        complexity,
        use_cbr,
        packet_loss_perc: 0,
        force_bandwidth: None,
    }
}

/// The decisions of a first frame.
fn decide(
    application: Application,
    sampling_rate: i32,
    channels: usize,
    frame_size: usize,
    bitrate: i32,
    use_cbr: bool,
    complexity: i32,
) -> Result<(OpusMode, Bandwidth, i32), &'static str> {
    let s = settings(application, sampling_rate, channels, bitrate, use_cbr, complexity);
    let mut control = EncoderControl::new();
    let d = control.decide(&s, frame_size, 0)?;
    assert_eq!(d.toc, gen_toc(d.mode, d.frame_rate, d.bandwidth, channels));
    Ok((d.mode, d.bandwidth, d.frame_rate))
}

#[test]
fn invalid_small_frame_size_is_refused_by_the_frame_size_check() {
    // 48 samples at 48 kHz is 1 ms: frame rate 1000
    let r = decide(Application::Voip, 48000, 2, 48, 64000, true, 5);
    assert_eq!(r, Err("Unsupported frame size for SILK-only mode"));
    let r = decide(Application::Audio, 48000, 1, 48, 64000, false, 9);
    assert_eq!(r, Err("Unsupported frame size for SILK-only mode"));
}

#[test]
fn frame_decisions_for_common_configurations() {
    // VoIP stereo at 64 kb/s CBR, 20 ms: equivalent 55733 reaches the stereo
    // threshold 45444, CELT fullband
    assert_eq!(
        decide(Application::Voip, 48000, 2, 960, 64000, true, 5),
        Ok((OpusMode::CeltOnly, Bandwidth::Fullband, 50))
    );
    // VoIP stereo at 24 kb/s: SILK at fullband would be hybrid, which stereo
    // codes as CELT fullband
    assert_eq!(
        decide(Application::Voip, 48000, 2, 960, 24000, false, 9),
        Ok((OpusMode::CeltOnly, Bandwidth::Fullband, 50))
    );
    // VoIP stereo at 8 kb/s: SILK, raised to wideband above 16 kHz
    assert_eq!(
        decide(Application::Voip, 48000, 2, 960, 8000, false, 9),
        Ok((OpusMode::SilkOnly, Bandwidth::Wideband, 50))
    );
    // audio mono at 64 kb/s, 20 ms: CELT fullband
    assert_eq!(
        decide(Application::Audio, 48000, 1, 960, 64000, false, 9),
        Ok((OpusMode::CeltOnly, Bandwidth::Fullband, 50))
    );
    // VoIP mono at 16 kHz: SILK wideband
    assert_eq!(
        decide(Application::Voip, 16000, 1, 320, 16000, true, 9),
        Ok((OpusMode::SilkOnly, Bandwidth::Wideband, 50))
    );
    // restricted low delay, 2.5 ms: CELT
    assert_eq!(
        decide(Application::RestrictedLowDelay, 48000, 1, 120, 64000, false, 9),
        Ok((OpusMode::CeltOnly, Bandwidth::Fullband, 400))
    );
    // a frame size that does not divide the rate
    assert_eq!(
        decide(Application::Audio, 48000, 1, 1001, 64000, false, 9),
        Err("Invalid frame size for sampling rate")
    );
}

#[test]
fn decisions_carry_state_between_frames() {
    let s = settings(Application::Audio, 48000, 1, 11500, false, 9);
    let mut c = EncoderControl::new();
    assert!(c.first_frame);
    assert_eq!(c.bandwidth, Bandwidth::Auto);
    // first frame: equivalent 11385 >= SWB threshold 11351, below FB 12281
    let d = c.decide(&s, 960, 0).unwrap();
    assert_eq!(d.mode, OpusMode::Hybrid);
    assert_eq!(d.bandwidth, Bandwidth::Superwideband);
    assert_eq!(c.auto_bandwidth, 1104);
    assert!(!c.first_frame);
    assert_eq!(c.bandwidth, Bandwidth::Superwideband);
    // next frame: the hysteresis keeps SWB (threshold 11351 - 1000)
    let s2 = settings(Application::Audio, 48000, 1, 10500, false, 9);
    let d = c.decide(&s2, 960, 0).unwrap();
    assert_eq!(d.bandwidth, Bandwidth::Superwideband);
    // a fresh encoder at that rate drops to wideband
    let mut fresh = EncoderControl::new();
    let d = fresh.decide(&s2, 960, 0).unwrap();
    assert_eq!(d.bandwidth, Bandwidth::Wideband);
    assert_eq!(d.mode, OpusMode::SilkOnly);
}

#[test]
fn refused_frame_sizes_keep_or_update_state() {
    let s = settings(Application::Audio, 48000, 1, 64000, false, 9);
    let mut c = EncoderControl::new();
    // a frame size that does not divide the rate changes nothing
    assert_eq!(c.decide(&s, 1001, 0).map(|d| d.toc), Err("Invalid frame size for sampling rate"));
    assert!(c.first_frame);
    // a frame size the mode refuses still updates the bandwidth state
    assert_eq!(c.decide(&s, 48, 0).map(|d| d.toc), Err("Unsupported frame size for SILK-only mode"));
    assert!(!c.first_frame);
    assert_eq!(c.bandwidth, Bandwidth::Wideband);
}

#[test]
fn forced_bandwidth_and_detected_bandwidth() {
    let mut s = settings(Application::Audio, 48000, 1, 15000, false, 9);
    let mut c = EncoderControl::new();
    // detected wideband narrows SILK/hybrid at this rate
    let d = c.decide(&s, 960, 1103).unwrap();
    assert_eq!((d.mode, d.bandwidth), (OpusMode::SilkOnly, Bandwidth::Wideband));
    s.force_bandwidth = Some(Bandwidth::Fullband);
    let mut c = EncoderControl::new();
    let d = c.decide(&s, 960, 1103).unwrap();
    assert_eq!((d.mode, d.bandwidth), (OpusMode::Hybrid, Bandwidth::Fullband));
    assert_eq!(mode_from_toc(d.toc), OpusMode::Hybrid);
    assert_eq!(bandwidth_from_toc(d.toc), Bandwidth::Fullband);
}
