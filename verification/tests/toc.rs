use rusty_opus::repacketizer::samples_per_frame;
use rusty_opus::{
    bandwidth_from_toc, celt_end_band_from_toc, celt_endband_for_bandwidth, channels_from_toc,
    frame_duration_ms_from_toc, frame_rate_from_params, gen_toc, mode_from_toc,
    read_opus_frame_len, Bandwidth, OpusMode,
};

fn frame_size_from_toc(toc: u8, sampling_rate: i32) -> Option<usize> {
    let mode = mode_from_toc(toc);
    match mode {
        OpusMode::CeltOnly => {
            let period = ((toc >> 3) & 0x03) as i32;
            let frame_rate = 400 >> period;
            if frame_rate == 0 || sampling_rate % frame_rate != 0 {
                return None;
            }
            Some((sampling_rate / frame_rate) as usize)
        }
        OpusMode::SilkOnly => {
            let duration_ms = frame_duration_ms_from_toc(toc);
            Some((sampling_rate as i64 * duration_ms as i64 / 1000) as usize)
        }
        OpusMode::Hybrid => {
            let duration_ms = frame_duration_ms_from_toc(toc);
            Some((sampling_rate as i64 * duration_ms as i64 / 1000) as usize)
        }
    }
}

#[test]
fn gen_toc_matches_celt_reference_values() {
    let sampling_rate = 48_000;
    let cases = [
        (120usize, 0xE0u8),
        (240usize, 0xE8u8),
        (480usize, 0xF0u8),
        (960usize, 0xF8u8),
    ];

    for (frame_size, expected_toc) in cases {
        let frame_rate = frame_rate_from_params(sampling_rate, frame_size).unwrap();
        let toc = gen_toc(OpusMode::CeltOnly, frame_rate, Bandwidth::Fullband, 1);
        assert_eq!(
            toc, expected_toc,
            "frame_size {} expected TOC {:02X} got {:02X}",
            frame_size, expected_toc, toc
        );
        let decoded_size = frame_size_from_toc(toc, sampling_rate).unwrap();
        assert_eq!(decoded_size, frame_size);
    }

    let stereo_toc = gen_toc(
        OpusMode::CeltOnly,
        frame_rate_from_params(sampling_rate, 960).unwrap(),
        Bandwidth::Fullband,
        2,
    );
    assert_eq!(channels_from_toc(stereo_toc), 2);
}

#[test]
fn frame_rate_from_params_cases() {
    assert_eq!(frame_rate_from_params(48000, 960), Some(50));
    assert_eq!(frame_rate_from_params(48000, 120), Some(400));
    assert_eq!(frame_rate_from_params(48000, 0), None);
    assert_eq!(frame_rate_from_params(48000, 2880), None);
    assert_eq!(frame_rate_from_params(16000, 320), Some(50));
    assert_eq!(frame_rate_from_params(-48000, 960), Some(-50));
}

#[test]
fn gen_toc_known_bytes() {
    // SILK WB 20 ms mono: config 9
    assert_eq!(gen_toc(OpusMode::SilkOnly, 50, Bandwidth::Wideband, 1), 9 << 3);
    // SILK NB 10 ms stereo: config 0, stereo flag
    assert_eq!(gen_toc(OpusMode::SilkOnly, 100, Bandwidth::Narrowband, 2), 0x04);
    // hybrid SWB 10 ms: config 12; FB 20 ms: config 15
    assert_eq!(gen_toc(OpusMode::Hybrid, 100, Bandwidth::Superwideband, 1), 12 << 3);
    assert_eq!(gen_toc(OpusMode::Hybrid, 50, Bandwidth::Fullband, 1), 15 << 3);
    // CELT narrowband 20 ms: config 19; CELT has no mediumband configuration
    // and writes it as narrowband
    assert_eq!(gen_toc(OpusMode::CeltOnly, 50, Bandwidth::Narrowband, 1), 0x98);
    assert_eq!(gen_toc(OpusMode::CeltOnly, 50, Bandwidth::Mediumband, 1), 0x98);
}

#[test]
fn gen_toc_roundtrip_all_encoder_configurations() {
    let silk = [Bandwidth::Narrowband, Bandwidth::Mediumband, Bandwidth::Wideband];
    let hybrid = [Bandwidth::Superwideband, Bandwidth::Fullband];
    let celt = [
        Bandwidth::Narrowband,
        Bandwidth::Wideband,
        Bandwidth::Superwideband,
        Bandwidth::Fullband,
    ];
    let mut cases: Vec<(OpusMode, i32, Bandwidth)> = Vec::new();
    for bw in silk {
        for rate in [100, 50, 25] {
            cases.push((OpusMode::SilkOnly, rate, bw));
        }
    }
    for bw in hybrid {
        for rate in [100, 50] {
            cases.push((OpusMode::Hybrid, rate, bw));
        }
    }
    for bw in celt {
        for rate in [400, 200, 100, 50] {
            cases.push((OpusMode::CeltOnly, rate, bw));
        }
    }
    for (mode, rate, bw) in cases {
        for channels in [1usize, 2] {
            let toc = gen_toc(mode, rate, bw, channels);
            assert_eq!(mode_from_toc(toc), mode);
            assert_eq!(bandwidth_from_toc(toc), bw);
            assert_eq!(channels_from_toc(toc), channels);
            let ms = if rate == 400 { 2 } else { 1000 / rate };
            assert_eq!(frame_duration_ms_from_toc(toc), ms);
            for fs in [8000, 12000, 16000, 24000, 48000] {
                assert_eq!(samples_per_frame(toc, fs), fs / rate);
            }
        }
    }
}

#[test]
fn toc_field_readers() {
    // config 3: SILK NB 60 ms
    assert_eq!(mode_from_toc(3 << 3), OpusMode::SilkOnly);
    assert_eq!(frame_duration_ms_from_toc(3 << 3), 60);
    assert_eq!(bandwidth_from_toc(3 << 3), Bandwidth::Narrowband);
    // config 13: hybrid SWB 20 ms
    assert_eq!(mode_from_toc(13 << 3), OpusMode::Hybrid);
    assert_eq!(frame_duration_ms_from_toc(13 << 3), 20);
    assert_eq!(bandwidth_from_toc(13 << 3), Bandwidth::Superwideband);
    // config 16: CELT NB 2.5 ms
    assert_eq!(mode_from_toc(16 << 3), OpusMode::CeltOnly);
    assert_eq!(frame_duration_ms_from_toc(16 << 3), 2);
    assert_eq!(bandwidth_from_toc(16 << 3), Bandwidth::Narrowband);
    // config 20: CELT WB 2.5 ms
    assert_eq!(bandwidth_from_toc(20 << 3), Bandwidth::Wideband);
    assert_eq!(channels_from_toc(0x04), 2);
    assert_eq!(channels_from_toc(0x00), 1);
}

#[test]
fn read_opus_frame_len_cases() {
    assert_eq!(read_opus_frame_len(&[7], 0), Ok((7, 1)));
    assert_eq!(read_opus_frame_len(&[251], 0), Ok((251, 1)));
    assert_eq!(read_opus_frame_len(&[0, 253, 10], 1), Ok((10 * 4 + 253, 2)));
    assert_eq!(read_opus_frame_len(&[255, 255], 0), Ok((1275, 2)));
    assert_eq!(read_opus_frame_len(&[1, 2], 2), Err("Opus frame length: truncated"));
    assert_eq!(read_opus_frame_len(&[252], 0), Err("Opus frame length: truncated 2-byte"));
}

#[test]
fn celt_end_bands() {
    assert_eq!(celt_endband_for_bandwidth(Bandwidth::Narrowband), 13);
    assert_eq!(celt_endband_for_bandwidth(Bandwidth::Mediumband), 17);
    assert_eq!(celt_endband_for_bandwidth(Bandwidth::Wideband), 17);
    assert_eq!(celt_endband_for_bandwidth(Bandwidth::Superwideband), 19);
    assert_eq!(celt_endband_for_bandwidth(Bandwidth::Fullband), 21);
    assert_eq!(celt_endband_for_bandwidth(Bandwidth::Auto), 21);
    // CELT-only: trims of 4, 2, 1, 0 band pairs from the 21 coded bands
    assert_eq!(celt_end_band_from_toc(0x80, 21), 13);
    assert_eq!(celt_end_band_from_toc(0xA0, 21), 17);
    assert_eq!(celt_end_band_from_toc(0xC0, 21), 19);
    assert_eq!(celt_end_band_from_toc(0xE0, 21), 21);
    // never below one band
    assert_eq!(celt_end_band_from_toc(0x80, 5), 1);
    // SWB hybrid stops at band 19, FB hybrid uses all
    assert_eq!(celt_end_band_from_toc(12 << 3, 21), 19);
    assert_eq!(celt_end_band_from_toc(14 << 3, 21), 21);
    // SILK-only packets: the full band count
    assert_eq!(celt_end_band_from_toc(0, 21), 21);
}
