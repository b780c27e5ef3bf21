//! The decisions an encoder takes for each frame before coding it: which
//! configurations it accepts, the coding mode, the automatic bandwidth with
//! its hysteresis and caps, the frame sizes each mode allows, the resets at
//! mode transitions, discontinuous transmission, the packet and layer
//! budgets, and the SILK-only packet.

use vstd::prelude::*;
use crate::control::{
    compute_equiv_rate, compute_mode_threshold, compute_silk_rate_for_hybrid, compute_voice_est,
    equiv_rate_fits, fits_i32, spec_equiv_rate, spec_mode_threshold, spec_silk_rate_for_hybrid,
    spec_voice_est,
};
use crate::framing::{
    concat_frames, frames_hold, lemma_out_frames, lemma_samples_per_frame_rates, packet_frames,
    padding_code, spec_out,
};
use crate::repacketizer::{append_bytes, write_padding};
use crate::toc::{
    celt_endband_for_bandwidth, frame_rate_from_params, gen_toc, lemma_gen_toc_roundtrip,
    spec_bandwidth_from_toc, spec_celt_endband, spec_channels_from_toc, spec_frame_duration_ms,
    spec_frame_rate, spec_gen_toc, spec_mode_from_toc, toc_bandwidth, toc_params_valid,
    valid_sampling_rate,
};
use crate::{tdiv, Application, Bandwidth, OpusMode};

verus! {

/// Whether a sampling rate and channel count can be coded: the error for
/// the first that cannot.
pub open spec fn spec_check_config(sampling_rate: i32, channels: usize) -> Result<(), &'static str> {
    if !valid_sampling_rate(sampling_rate) {
        Err("Invalid sampling rate")
    } else if !(channels == 1 || channels == 2) {
        Err("Invalid number of channels")
    } else {
        Ok(())
    }
}

/// Checks the sampling rate (8, 12, 16, 24 or 48 kHz) and the channel count
/// (1 or 2) of a new encoder or decoder.
pub fn check_config(sampling_rate: i32, channels: usize) -> (r: Result<(), &'static str>)
    ensures
        r == spec_check_config(sampling_rate, channels),
{
    if !(sampling_rate == 8000 || sampling_rate == 12000 || sampling_rate == 16000 || sampling_rate
        == 24000 || sampling_rate == 48000) {
        return Err("Invalid sampling rate");
    }
    if !(channels == 1 || channels == 2) {
        return Err("Invalid number of channels");
    }
    Ok(())
}

/// The mode and bandwidth a new encoder starts with: VoIP codes SILK up to
/// 16 kHz and hybrid above, restricted low delay always CELT, audio SILK up
/// to 16 kHz and hybrid above; the bandwidth is the widest the sampling
/// rate holds.
pub open spec fn spec_start_mode(sampling_rate: i32, application: Application) -> (OpusMode, Bandwidth) {
    match application {
        Application::Voip => (
            if sampling_rate > 16000 {
                OpusMode::Hybrid
            } else {
                OpusMode::SilkOnly
            },
            if sampling_rate == 12000 {
                Bandwidth::Mediumband
            } else if sampling_rate == 16000 {
                Bandwidth::Wideband
            } else if sampling_rate == 24000 {
                Bandwidth::Superwideband
            } else if sampling_rate == 48000 {
                Bandwidth::Fullband
            } else {
                Bandwidth::Narrowband
            },
        ),
        Application::RestrictedLowDelay => (
            OpusMode::CeltOnly,
            if sampling_rate == 8000 {
                Bandwidth::Narrowband
            } else if sampling_rate == 12000 {
                Bandwidth::Mediumband
            } else if sampling_rate == 16000 {
                Bandwidth::Wideband
            } else if sampling_rate == 24000 {
                Bandwidth::Superwideband
            } else {
                Bandwidth::Fullband
            },
        ),
        Application::Audio => if sampling_rate <= 16000 {
            (
                OpusMode::SilkOnly,
                if sampling_rate == 8000 {
                    Bandwidth::Narrowband
                } else if sampling_rate == 12000 {
                    Bandwidth::Mediumband
                } else {
                    Bandwidth::Wideband
                },
            )
        } else {
            (
                OpusMode::Hybrid,
                if sampling_rate == 24000 {
                    Bandwidth::Superwideband
                } else {
                    Bandwidth::Fullband
                },
            )
        },
    }
}

/// The mode and bandwidth a new encoder starts with.
pub fn start_mode(sampling_rate: i32, application: Application) -> (r: (OpusMode, Bandwidth))
    ensures
        r == spec_start_mode(sampling_rate, application),
{
    match application {
        Application::Voip => {
            let bw = if sampling_rate == 8000 {
                Bandwidth::Narrowband
            } else if sampling_rate == 12000 {
                Bandwidth::Mediumband
            } else if sampling_rate == 16000 {
                Bandwidth::Wideband
            } else if sampling_rate == 24000 {
                Bandwidth::Superwideband
            } else if sampling_rate == 48000 {
                Bandwidth::Fullband
            } else {
                Bandwidth::Narrowband
            };
            let mode = if sampling_rate > 16000 {
                OpusMode::Hybrid
            } else {
                OpusMode::SilkOnly
            };
            (mode, bw)
        },
        Application::RestrictedLowDelay => {
            let bw = if sampling_rate == 8000 {
                Bandwidth::Narrowband
            } else if sampling_rate == 12000 {
                Bandwidth::Mediumband
            } else if sampling_rate == 16000 {
                Bandwidth::Wideband
            } else if sampling_rate == 24000 {
                Bandwidth::Superwideband
            } else {
                Bandwidth::Fullband
            };
            (OpusMode::CeltOnly, bw)
        },
        Application::Audio => {
            if sampling_rate <= 16000 {
                let bw = if sampling_rate == 8000 {
                    Bandwidth::Narrowband
                } else if sampling_rate == 12000 {
                    Bandwidth::Mediumband
                } else {
                    Bandwidth::Wideband
                };
                (OpusMode::SilkOnly, bw)
            } else {
                let bw = if sampling_rate == 24000 {
                    Bandwidth::Superwideband
                } else {
                    Bandwidth::Fullband
                };
                (OpusMode::Hybrid, bw)
            }
        },
    }
}

/// The bandwidth an encoder switched to hybrid coding takes: fullband at
/// 48 kHz, superwideband at 24 kHz; other rates cannot code hybrid.
pub fn hybrid_bandwidth(sampling_rate: i32) -> (r: Result<Bandwidth, &'static str>)
    ensures
        r == (if sampling_rate != 24000 && sampling_rate != 48000 {
            Err("Hybrid mode requires 24kHz or 48kHz sampling rate")
        } else if sampling_rate == 48000 {
            Ok(Bandwidth::Fullband)
        } else {
            Ok(Bandwidth::Superwideband)
        }),
{
    if sampling_rate != 24000 && sampling_rate != 48000 {
        return Err("Hybrid mode requires 24kHz or 48kHz sampling rate");
    }
    if sampling_rate == 48000 {
        Ok(Bandwidth::Fullband)
    } else {
        Ok(Bandwidth::Superwideband)
    }
}

/// The bandwidth (as its numeric code, 0 for none) the signal analysis
/// detects from the highest band `analysis_bandwidth` holding energy.
pub open spec fn spec_detected_bandwidth(valid: bool, analysis_bandwidth: i32) -> int {
    if !valid {
        0
    } else if analysis_bandwidth <= 12 {
        1101
    } else if analysis_bandwidth <= 14 {
        1102
    } else if analysis_bandwidth <= 16 {
        1103
    } else if analysis_bandwidth <= 18 {
        1104
    } else {
        1105
    }
}

/// The bandwidth the analysis detects, or 0 when it did not run.
pub fn detected_bandwidth(valid: bool, analysis_bandwidth: i32) -> (r: i32)
    ensures
        r == spec_detected_bandwidth(valid, analysis_bandwidth),
{
    if !valid {
        0
    } else if analysis_bandwidth <= 12 {
        1101
    } else if analysis_bandwidth <= 14 {
        1102
    } else if analysis_bandwidth <= 16 {
        1103
    } else if analysis_bandwidth <= 18 {
        1104
    } else {
        1105
    }
}

/// The coding mode the rate decides (before the bandwidth may turn SILK
/// into hybrid): always CELT for restricted low delay; otherwise CELT when
/// the equivalent rate reaches the mode threshold at a sampling rate of at
/// least 24 kHz, SILK below.
pub open spec fn spec_choose_mode(
    application: Application,
    sampling_rate: i32,
    channels: usize,
    frame_rate: i32,
    bitrate_bps: i32,
    use_cbr: bool,
    complexity: i32,
    packet_loss_perc: i32,
    prev_enc_mode: Option<OpusMode>,
    voice_ratio: i32,
) -> OpusMode {
    if application == Application::RestrictedLowDelay {
        OpusMode::CeltOnly
    } else if spec_equiv_rate(bitrate_bps, channels, frame_rate, !use_cbr, complexity, packet_loss_perc)
        >= spec_mode_threshold(
        application,
        channels,
        prev_enc_mode == Some(OpusMode::CeltOnly),
        prev_enc_mode is Some,
        spec_voice_est(voice_ratio, application) as i32,
    ) && sampling_rate >= 24000 {
        OpusMode::CeltOnly
    } else {
        OpusMode::SilkOnly
    }
}

/// The inputs on which the mode choice computes without overflow.
pub open spec fn choose_mode_fits(
    application: Application,
    channels: usize,
    frame_rate: i32,
    bitrate_bps: i32,
    use_cbr: bool,
    complexity: i32,
    packet_loss_perc: i32,
    voice_ratio: i32,
) -> bool {
    application != Application::RestrictedLowDelay ==> {
        &&& equiv_rate_fits(bitrate_bps, channels, frame_rate, !use_cbr, complexity, packet_loss_perc)
        &&& voice_ratio * 327 <= i32::MAX
        &&& spec_voice_est(voice_ratio, application) * spec_voice_est(voice_ratio, application) * (
        if channels == 1 {
            54000int
        } else {
            34000
        }) <= i32::MAX
    }
}

/// The coding mode of a frame from the encoder's settings, its previous
/// mode and its voice ratio.
pub fn choose_mode(
    application: Application,
    sampling_rate: i32,
    channels: usize,
    frame_rate: i32,
    bitrate_bps: i32,
    use_cbr: bool,
    complexity: i32,
    packet_loss_perc: i32,
    prev_enc_mode: Option<OpusMode>,
    voice_ratio: i32,
) -> (r: OpusMode)
    requires
        choose_mode_fits(
            application,
            channels,
            frame_rate,
            bitrate_bps,
            use_cbr,
            complexity,
            packet_loss_perc,
            voice_ratio,
        ),
    ensures
        r == spec_choose_mode(
            application,
            sampling_rate,
            channels,
            frame_rate,
            bitrate_bps,
            use_cbr,
            complexity,
            packet_loss_perc,
            prev_enc_mode,
            voice_ratio,
        ),
{
    if application == Application::RestrictedLowDelay {
        OpusMode::CeltOnly
    } else {
        let equiv = compute_equiv_rate(
            bitrate_bps,
            channels,
            frame_rate,
            !use_cbr,
            complexity,
            packet_loss_perc,
        );
        let prev_was_celt = match prev_enc_mode {
            Some(OpusMode::CeltOnly) => true,
            _ => false,
        };
        let has_prev_mode = prev_enc_mode.is_some();
        let voice_est = compute_voice_est(voice_ratio, application);
        let threshold = compute_mode_threshold(
            application,
            channels,
            prev_was_celt,
            has_prev_mode,
            voice_est,
        );
        if equiv >= threshold && sampling_rate >= 24000 {
            OpusMode::CeltOnly
        } else {
            OpusMode::SilkOnly
        }
    }
}

/// The music-signal bandwidth thresholds (b/s) with their hysteresis, for
/// the switches NB/MB, MB/WB, WB/SWB and SWB/FB (the same for mono and
/// stereo).
pub open spec fn music_threshold(i: int) -> int {
    if i == 0 || i == 2 {
        9000
    } else if i == 1 || i == 3 {
        700
    } else if i == 4 {
        11000
    } else if i == 5 {
        1000
    } else if i == 6 {
        12000
    } else {
        2000
    }
}

/// The voice-signal bandwidth thresholds, in the same order.
pub open spec fn voice_threshold(i: int) -> int {
    if i == 4 {
        13500
    } else if i == 6 {
        14000
    } else {
        music_threshold(i)
    }
}

/// A bandwidth threshold interpolated from music to voice by the square of
/// the voice estimate (Q7): `music + voice_est^2 * (voice - music) / 2^14`.
pub open spec fn bandwidth_threshold(i: int, voice_est: int) -> int {
    music_threshold(i) + voice_est * voice_est * (voice_threshold(i) - music_threshold(i)) / 16384
}

/// The threshold the walk compares with when it considers dropping below
/// bandwidth `bw`, with hysteresis toward the bandwidth chosen last (none
/// on the first frame).
pub open spec fn walk_threshold(bw: int, voice_est: int, first_frame: bool, prev_auto: int) -> int {
    let idx = 2 * (bw - 1102);
    let t = bandwidth_threshold(idx, voice_est);
    let h = bandwidth_threshold(idx + 1, voice_est);
    if first_frame {
        t
    } else if prev_auto >= bw {
        t - h
    } else {
        t + h
    }
}

/// The bandwidth walk from `bw` down: it stops at the first bandwidth whose
/// threshold the equivalent rate reaches, or at narrowband.
pub open spec fn walk_from(bw: int, equiv: int, voice_est: int, first_frame: bool, prev_auto: int) -> int
    decreases bw - 1101,
{
    if bw <= 1101 {
        bw
    } else if equiv >= walk_threshold(bw, voice_est, first_frame, prev_auto) {
        bw
    } else {
        walk_from(bw - 1, equiv, voice_est, first_frame, prev_auto)
    }
}

/// The automatic bandwidth (as its numeric code): the walk from fullband,
/// with mediumband taken up to wideband.
pub open spec fn spec_auto_bandwidth(equiv: i32, voice_est: i32, first_frame: bool, prev_auto: i32) -> int {
    let w = walk_from(1105, equiv as int, voice_est as int, first_frame, prev_auto as int);
    if w == 1102 {
        1103
    } else {
        w
    }
}

/// The interpolated bandwidth threshold `i`.
fn bandwidth_threshold_at(i: i32, voice_est: i32) -> (r: i32)
    requires
        0 <= i < 8,
        voice_est * voice_est * 2500 <= i32::MAX,
    ensures
        r == bandwidth_threshold(i as int, voice_est as int),
        0 <= r <= 200000,
{
    let (music, voice): (i32, i32) = if i == 0 || i == 2 {
        (9000, 9000)
    } else if i == 1 || i == 3 {
        (700, 700)
    } else if i == 4 {
        (11000, 13500)
    } else if i == 5 {
        (1000, 1000)
    } else if i == 6 {
        (12000, 14000)
    } else {
        (2000, 2000)
    };
    assert(0 <= voice_est * voice_est <= voice_est * voice_est * 2500) by (nonlinear_arith);
    let sq = voice_est * voice_est;
    assert(0 <= sq * (voice - music) <= sq * 2500) by (nonlinear_arith)
        requires
            0 <= sq,
            0 <= voice - music <= 2500,
    ;
    let prod = sq * (voice - music);
    assert(prod >> 14u32 == prod / 16384) by (bit_vector)
        requires
            prod >= 0,
    ;
    music + (prod >> 14u32)
}

/// The automatic bandwidth of a frame (numeric code) from its equivalent
/// rate, the voice estimate and the bandwidth chosen for the previous frame.
pub fn auto_bandwidth(equiv: i32, voice_est: i32, first_frame: bool, prev_auto: i32) -> (r: i32)
    requires
        voice_est * voice_est * 2500 <= i32::MAX,
    ensures
        r == spec_auto_bandwidth(equiv, voice_est, first_frame, prev_auto),
        1101 <= r <= 1105,
        r != 1102,
{
    let mut bw: i32 = 1105;
    while bw > 1101
        invariant
            1101 <= bw <= 1105,
            voice_est * voice_est * 2500 <= i32::MAX,
            walk_from(1105, equiv as int, voice_est as int, first_frame, prev_auto as int) == walk_from(
                bw as int,
                equiv as int,
                voice_est as int,
                first_frame,
                prev_auto as int,
            ),
        decreases bw - 1101,
    {
        let idx = 2 * (bw - 1102);
        let mut threshold = bandwidth_threshold_at(idx, voice_est);
        let hysteresis = bandwidth_threshold_at(idx + 1, voice_est);
        if !first_frame {
            if prev_auto >= bw {
                threshold -= hysteresis;
            } else {
                threshold += hysteresis;
            }
        }
        if equiv >= threshold {
            return if bw == 1102 {
                1103
            } else {
                bw
            };
        }
        bw -= 1;
    }
    bw
}

/// The smaller of two bandwidth codes.
pub open spec fn bw_min(a: int, b: int) -> int {
    if a < b {
        a
    } else {
        b
    }
}

/// The larger of two bandwidth codes.
pub open spec fn bw_max(a: int, b: int) -> int {
    if a > b {
        a
    } else {
        b
    }
}

/// The bandwidth of a numeric code (wideband for a code that names none).
pub open spec fn bandwidth_of_code(code: int) -> Bandwidth {
    if code == 1101 {
        Bandwidth::Narrowband
    } else if code == 1102 {
        Bandwidth::Mediumband
    } else if code == 1104 {
        Bandwidth::Superwideband
    } else if code == 1105 {
        Bandwidth::Fullband
    } else {
        Bandwidth::Wideband
    }
}

/// The automatic bandwidth after the rate caps: SILK and hybrid at CBR
/// below 15 kb/s stay at or below wideband, and above a 16 kHz sampling
/// rate at or above it; no bandwidth exceeds what the sampling rate holds;
/// mediumband above 12 kHz becomes wideband.
pub open spec fn capped_bandwidth(
    auto_bw: int,
    mode: OpusMode,
    use_cbr: bool,
    bitrate_bps: i32,
    sampling_rate: i32,
) -> int {
    let b1 = if mode != OpusMode::CeltOnly && use_cbr && bitrate_bps < 15000 {
        bw_min(auto_bw, 1103)
    } else {
        auto_bw
    };
    let b2 = if mode != OpusMode::CeltOnly && sampling_rate > 16000 {
        bw_max(b1, 1103)
    } else {
        b1
    };
    let b3 = if sampling_rate <= 24000 {
        bw_min(b2, 1104)
    } else {
        b2
    };
    let b4 = if sampling_rate <= 16000 {
        bw_min(b3, 1103)
    } else {
        b3
    };
    let b5 = if sampling_rate <= 12000 {
        bw_min(b4, 1102)
    } else {
        b4
    };
    let b6 = if sampling_rate <= 8000 {
        bw_min(b5, 1101)
    } else {
        b5
    };
    if b6 == 1102 && sampling_rate > 12000 {
        1103
    } else {
        b6
    }
}

/// The lowest bandwidth the detected bandwidth may narrow SILK or hybrid
/// coding to at equivalent rate `equiv`: wideband up to 30 kb/s per
/// channel, superwideband up to 44 kb/s, fullband above.
pub open spec fn min_detected(equiv: int, ch: int, mode: OpusMode) -> int {
    if equiv <= 18000 * ch && mode == OpusMode::CeltOnly {
        1101
    } else if equiv <= 24000 * ch && mode == OpusMode::CeltOnly {
        1102
    } else if equiv <= 30000 * ch {
        1103
    } else if equiv <= 44000 * ch {
        1104
    } else {
        1105
    }
}

/// The bandwidth a frame is coded at: the forced bandwidth if one is set;
/// otherwise the capped automatic bandwidth, narrowed for SILK and hybrid
/// toward the detected bandwidth (never below `min_detected`), with CELT's
/// mediumband coded as narrowband.
pub open spec fn spec_coded_bandwidth(
    auto_bw: i32,
    mode: OpusMode,
    use_cbr: bool,
    bitrate_bps: i32,
    sampling_rate: i32,
    channels: usize,
    equiv: i32,
    detected: i32,
    force_bandwidth: Option<Bandwidth>,
) -> Bandwidth {
    match force_bandwidth {
        Some(f) => f,
        None => {
            let c = capped_bandwidth(auto_bw as int, mode, use_cbr, bitrate_bps, sampling_rate);
            let d = if detected != 0 && mode != OpusMode::CeltOnly {
                bw_min(
                    c,
                    bw_max(detected as int, min_detected(equiv as int, (channels as i32) as int, mode)),
                )
            } else {
                c
            };
            let e = if mode == OpusMode::CeltOnly && d == 1102 {
                1101
            } else {
                d
            };
            bandwidth_of_code(e)
        },
    }
}

/// The bandwidth of a frame from its automatic bandwidth and the encoder's
/// settings, after the walk.
pub fn coded_bandwidth(
    auto_bw: i32,
    mode: OpusMode,
    use_cbr: bool,
    bitrate_bps: i32,
    sampling_rate: i32,
    channels: usize,
    equiv: i32,
    detected: i32,
    force_bandwidth: Option<Bandwidth>,
) -> (r: Bandwidth)
    requires
        detected != 0 && force_bandwidth is None && mode != OpusMode::CeltOnly ==> {
            let ch = (channels as i32) as int;
            &&& fits_i32(18000 * ch)
            &&& fits_i32(24000 * ch)
            &&& fits_i32(30000 * ch)
            &&& equiv > 30000 * ch ==> fits_i32(44000 * ch)
        },
    ensures
        r == spec_coded_bandwidth(
            auto_bw,
            mode,
            use_cbr,
            bitrate_bps,
            sampling_rate,
            channels,
            equiv,
            detected,
            force_bandwidth,
        ),
{
    let celt = match mode {
        OpusMode::CeltOnly => true,
        _ => false,
    };
    let mut bw = auto_bw;
    if !celt && use_cbr && bitrate_bps < 15000 {
        bw = if bw < 1103 {
            bw
        } else {
            1103
        };
    }
    if !celt && sampling_rate > 16000 {
        bw = if bw > 1103 {
            bw
        } else {
            1103
        };
    }
    if sampling_rate <= 24000 {
        bw = if bw < 1104 {
            bw
        } else {
            1104
        };
    }
    if sampling_rate <= 16000 {
        bw = if bw < 1103 {
            bw
        } else {
            1103
        };
    }
    if sampling_rate <= 12000 {
        bw = if bw < 1102 {
            bw
        } else {
            1102
        };
    }
    if sampling_rate <= 8000 {
        bw = if bw < 1101 {
            bw
        } else {
            1101
        };
    }
    if bw == 1102 && sampling_rate > 12000 {
        bw = 1103;
    }
    if detected != 0 && force_bandwidth.is_none() && !celt {
        let ch = channels as i32;
        let min_det: i32 = if equiv <= 18000 * ch && celt {
            1101
        } else if equiv <= 24000 * ch && celt {
            1102
        } else if equiv <= 30000 * ch {
            1103
        } else if equiv <= 44000 * ch {
            1104
        } else {
            1105
        };
        let floor = if detected > min_det {
            detected
        } else {
            min_det
        };
        bw = if bw < floor {
            bw
        } else {
            floor
        };
    }
    if celt && bw == 1102 {
        bw = 1101;
    }
    match force_bandwidth {
        Some(f) => f,
        None => {
            if bw == 1101 {
                Bandwidth::Narrowband
            } else if bw == 1102 {
                Bandwidth::Mediumband
            } else if bw == 1104 {
                Bandwidth::Superwideband
            } else if bw == 1105 {
                Bandwidth::Fullband
            } else {
                Bandwidth::Wideband
            }
        },
    }
}

/// The mode a frame is coded in once its bandwidth is known: SILK at
/// super-wide- or fullband is hybrid, hybrid below superwideband is SILK,
/// and stereo hybrid is coded as CELT at fullband.
pub open spec fn spec_settle_mode(mode: OpusMode, bandwidth: Bandwidth, channels: usize) -> (OpusMode, Bandwidth) {
    let m1 = if mode == OpusMode::SilkOnly && (bandwidth == Bandwidth::Superwideband || bandwidth
        == Bandwidth::Fullband) {
        OpusMode::Hybrid
    } else {
        mode
    };
    let m2 = if m1 == OpusMode::Hybrid && (bandwidth == Bandwidth::Narrowband || bandwidth
        == Bandwidth::Mediumband || bandwidth == Bandwidth::Wideband) {
        OpusMode::SilkOnly
    } else {
        m1
    };
    if channels == 2 && m2 == OpusMode::Hybrid {
        (OpusMode::CeltOnly, Bandwidth::Fullband)
    } else {
        (m2, bandwidth)
    }
}

/// The mode and bandwidth a frame is coded with, from the mode the rate
/// chose and the coded bandwidth.
pub fn settle_mode(mode: OpusMode, bandwidth: Bandwidth, channels: usize) -> (r: (OpusMode, Bandwidth))
    ensures
        r == spec_settle_mode(mode, bandwidth, channels),
{
    let mut m = mode;
    let wide = match bandwidth {
        Bandwidth::Superwideband | Bandwidth::Fullband => true,
        _ => false,
    };
    let narrow = match bandwidth {
        Bandwidth::Narrowband | Bandwidth::Mediumband | Bandwidth::Wideband => true,
        _ => false,
    };
    if m == OpusMode::SilkOnly && wide {
        m = OpusMode::Hybrid;
    }
    if m == OpusMode::Hybrid && narrow {
        m = OpusMode::SilkOnly;
    }
    if channels == 2 && m == OpusMode::Hybrid {
        (OpusMode::CeltOnly, Bandwidth::Fullband)
    } else {
        (m, bandwidth)
    }
}

/// The frame rates each mode codes: CELT 2.5 to 20 ms frames, hybrid 10 or
/// 20 ms, SILK 2.5 to 40 ms; the error for any other.
pub open spec fn spec_check_frame_rate(mode: OpusMode, frame_rate: i32) -> Result<(), &'static str> {
    match mode {
        OpusMode::CeltOnly => if frame_rate == 400 || frame_rate == 200 || frame_rate == 100
            || frame_rate == 50 {
            Ok(())
        } else {
            Err("Unsupported frame size for CELT-only mode")
        },
        OpusMode::Hybrid => if frame_rate == 100 || frame_rate == 50 {
            Ok(())
        } else {
            Err("Unsupported frame size for Hybrid mode")
        },
        OpusMode::SilkOnly => if frame_rate == 400 || frame_rate == 200 || frame_rate == 100
            || frame_rate == 50 || frame_rate == 25 {
            Ok(())
        } else {
            Err("Unsupported frame size for SILK-only mode")
        },
    }
}

/// Checks that the mode codes frames of the given rate.
pub fn check_frame_rate(mode: OpusMode, frame_rate: i32) -> (r: Result<(), &'static str>)
    ensures
        r == spec_check_frame_rate(mode, frame_rate),
{
    match mode {
        OpusMode::CeltOnly => {
            if frame_rate == 400 || frame_rate == 200 || frame_rate == 100 || frame_rate == 50 {
                Ok(())
            } else {
                Err("Unsupported frame size for CELT-only mode")
            }
        },
        OpusMode::Hybrid => {
            if frame_rate == 100 || frame_rate == 50 {
                Ok(())
            } else {
                Err("Unsupported frame size for Hybrid mode")
            }
        },
        OpusMode::SilkOnly => {
            if frame_rate == 400 || frame_rate == 200 || frame_rate == 100 || frame_rate == 50
                || frame_rate == 25 {
                Ok(())
            } else {
                Err("Unsupported frame size for SILK-only mode")
            }
        },
    }
}

/// What a change of mode resets, as the decoder does: the CELT state when
/// the new mode uses CELT, the SILK state (with a prefill) when leaving
/// CELT-only for a mode that uses SILK. `(reset CELT, restart SILK)`.
pub fn transition_resets(prev_enc_mode: Option<OpusMode>, mode: OpusMode) -> (r: (bool, bool))
    ensures
        r == (match prev_enc_mode {
            Some(prev) => (prev != mode && mode != OpusMode::SilkOnly, prev != mode && mode
                != OpusMode::CeltOnly && prev == OpusMode::CeltOnly),
            None => (false, false),
        }),
{
    match prev_enc_mode {
        Some(prev) => {
            if prev != mode {
                (mode != OpusMode::SilkOnly, mode != OpusMode::CeltOnly && prev == OpusMode::CeltOnly)
            } else {
                (false, false)
            }
        },
        None => (false, false),
    }
}

/// Inactive 20 ms frames SILK codes before discontinuous transmission
/// starts.
pub const NB_SPEECH_FRAMES_BEFORE_DTX: i32 = 10;

/// Frames discontinuous transmission may skip before one is coded again.
pub const MAX_CONSECUTIVE_DTX: i32 = 20;

/// The inactivity (in half milliseconds) after which frames are skipped:
/// 200 ms.
pub const DTX_START_Q1: i32 = NB_SPEECH_FRAMES_BEFORE_DTX * 20 * 2;

/// The inactivity (in half milliseconds) up to which frames are skipped
/// before one is coded again: 600 ms.
pub const DTX_END_Q1: i32 = (NB_SPEECH_FRAMES_BEFORE_DTX + MAX_CONSECUTIVE_DTX) * 20 * 2;

/// The discontinuous-transmission decision for a frame, from the inactive time counted so far (half
/// milliseconds): the new count and whether the frame is skipped. It runs
/// only with DTX on and an analysis or a silent frame; a frame is active
/// unless silent, and with a valid analysis only if speech is likely. An
/// active frame restarts the count; an inactive one adds its duration, and
/// after 200 ms of inactivity frames are skipped, up to 600 ms, when one is
/// coded and the count falls back to 200 ms.
pub open spec fn spec_dtx_step(
    use_dtx: bool,
    analysis_valid: bool,
    is_silence: bool,
    speech_likely: bool,
    count_q1: i32,
    frame_size: usize,
    sampling_rate: i32,
) -> (int, bool) {
    if use_dtx && (analysis_valid || is_silence) {
        let activity = if is_silence {
            false
        } else if analysis_valid {
            speech_likely
        } else {
            true
        };
        if !activity {
            let c = count_q1 + tdiv(2000 * ((frame_size as i32) as int), sampling_rate as int);
            if c > 400 {
                if c <= 1200 {
                    (c, true)
                } else {
                    (400, false)
                }
            } else {
                (c, false)
            }
        } else {
            (0, false)
        }
    } else {
        (0, false)
    }
}

/// The inputs on which the DTX decision computes without overflow.
pub open spec fn dtx_step_fits(
    use_dtx: bool,
    analysis_valid: bool,
    is_silence: bool,
    count_q1: i32,
    frame_size: usize,
    sampling_rate: i32,
) -> bool {
    use_dtx && (analysis_valid || is_silence) ==> {
        &&& fits_i32(2000 * ((frame_size as i32) as int))
        &&& sampling_rate > 0
        &&& fits_i32(count_q1 + tdiv(2000 * ((frame_size as i32) as int), sampling_rate as int))
    }
}

/// Decides whether discontinuous transmission skips a frame, and updates
/// the inactive-time count.
pub fn dtx_step(
    use_dtx: bool,
    analysis_valid: bool,
    is_silence: bool,
    speech_likely: bool,
    count_q1: i32,
    frame_size: usize,
    sampling_rate: i32,
) -> (r: (i32, bool))
    requires
        dtx_step_fits(use_dtx, analysis_valid, is_silence, count_q1, frame_size, sampling_rate),
    ensures
        (r.0 as int, r.1) == spec_dtx_step(
            use_dtx,
            analysis_valid,
            is_silence,
            speech_likely,
            count_q1,
            frame_size,
            sampling_rate,
        ),
{
    if use_dtx && (analysis_valid || is_silence) {
        let activity = if is_silence {
            false
        } else if analysis_valid {
            speech_likely
        } else {
            true
        };
        if !activity {
            let frame_ms_q1 = 2 * 1000 * frame_size as i32 / sampling_rate;
            let count = count_q1 + frame_ms_q1;
            if count > DTX_START_Q1 {
                if count <= DTX_END_Q1 {
                    (count, true)
                } else {
                    (DTX_START_Q1, false)
                }
            } else {
                (count, false)
            }
        } else {
            (0, false)
        }
    } else {
        (0, false)
    }
}

/// The target bits of a frame: the bitrate over the frame's duration,
/// truncated, in the encoder's `i32`.
pub open spec fn target_bits(bitrate_bps: i32, frame_size: usize, sampling_rate: i32) -> i32 {
    tdiv(bitrate_bps * ((frame_size as i64) as int), sampling_rate as int) as i32
}

/// The bytes of a constant-bitrate packet: the target bits, rounded to the
/// nearest byte.
pub open spec fn cbr_bytes(bitrate_bps: i32, frame_size: usize, sampling_rate: i32) -> usize {
    tdiv(target_bits(bitrate_bps, frame_size, sampling_rate) + 4, 8) as usize
}

/// The size the range coder of a frame starts with, TOC byte included: for
/// CBR the target size (at least 1, at most the output); for VBR room for a
/// full packet (at most 1276 bytes and the output, at least the CBR size
/// and 3 bytes).
pub open spec fn spec_packet_bytes(
    bitrate_bps: i32,
    frame_size: usize,
    sampling_rate: i32,
    use_cbr: bool,
    max_data_bytes: usize,
) -> int {
    let c = cbr_bytes(bitrate_bps, frame_size, sampling_rate) as int;
    let c_cap = if c < max_data_bytes {
        c
    } else {
        max_data_bytes as int
    };
    if use_cbr {
        if c_cap > 1 {
            c_cap
        } else {
            1
        }
    } else {
        let m = if max_data_bytes < 1276 {
            max_data_bytes as int
        } else {
            1276
        };
        let v = if m > c_cap {
            m
        } else {
            c_cap
        };
        if v > 3 {
            v
        } else {
            3
        }
    }
}

/// The inputs on which the packet size computes without overflow.
pub open spec fn packet_bytes_fits(bitrate_bps: i32, frame_size: usize, sampling_rate: i32) -> bool {
    &&& i64::MIN <= bitrate_bps * ((frame_size as i64) as int) <= i64::MAX
    &&& sampling_rate > 0
    &&& target_bits(bitrate_bps, frame_size, sampling_rate) + 4 <= i32::MAX
}

/// The size the range coder of a frame starts with.
pub fn packet_bytes(
    bitrate_bps: i32,
    frame_size: usize,
    sampling_rate: i32,
    use_cbr: bool,
    max_data_bytes: usize,
) -> (r: usize)
    requires
        packet_bytes_fits(bitrate_bps, frame_size, sampling_rate),
    ensures
        r == spec_packet_bytes(bitrate_bps, frame_size, sampling_rate, use_cbr, max_data_bytes),
        r >= 1,
{
    let target = (bitrate_bps as i64 * frame_size as i64 / sampling_rate as i64) as i32;
    let cbr = ((target + 4) / 8) as usize;
    let c_cap = if cbr < max_data_bytes {
        cbr
    } else {
        max_data_bytes
    };
    if use_cbr {
        if c_cap > 1 {
            c_cap
        } else {
            1
        }
    } else {
        let m = if max_data_bytes < 1276 {
            max_data_bytes
        } else {
            1276
        };
        let v = if m > c_cap {
            m
        } else {
            c_cap
        };
        if v > 3 {
            v
        } else {
            3
        }
    }
}

/// The coded SILK bytes once trailing zero bytes are dropped (keeping at
/// least two).
pub open spec fn stripped_len(coded: Seq<u8>, ret: int) -> int
    decreases ret,
{
    if ret > 2 && coded[ret - 1] == 0 {
        stripped_len(coded, ret - 1)
    } else {
        ret
    }
}

/// The length of a SILK-only packet: the CBR size, or the TOC byte and the
/// SILK bytes for VBR, at most the output's size.
pub open spec fn silk_target(coded: Seq<u8>, use_cbr: bool, n_bytes: usize, max_data_bytes: usize) -> int {
    let ret = stripped_len(coded, coded.len() as int);
    let t = if use_cbr {
        n_bytes as int
    } else {
        ret + 1
    };
    if t < max_data_bytes {
        t
    } else {
        max_data_bytes as int
    }
}

/// The SILK-only packet an encoder emits from the TOC byte and the coded
/// SILK bytes: a code-0 packet for VBR, or when the bytes fill the CBR
/// size (cut to fit); otherwise a code-3 packet of one frame, padded to the
/// CBR size with zero bytes when there is room for the padding length.
pub open spec fn spec_silk_packet(
    toc: u8,
    coded: Seq<u8>,
    use_cbr: bool,
    n_bytes: usize,
    max_data_bytes: usize,
) -> Seq<u8> {
    let ret = stripped_len(coded, coded.len() as int);
    let tt = silk_target(coded, use_cbr, n_bytes, max_data_bytes);
    if !use_cbr || ret + 1 >= tt {
        let cl = if ret < tt - 1 {
            ret
        } else {
            tt - 1
        };
        seq![toc] + coded.take(cl)
    } else if ret + 2 >= tt {
        seq![toc | 3u8, 1u8] + coded.take(tt - 2)
    } else {
        let pad = tt - ret - 2;
        let hdr = seq![toc | 3u8, 0x41u8] + padding_code(pad) + coded.take(ret);
        hdr + Seq::new((tt - hdr.len()) as nat, |i: int| 0u8)
    }
}

/// The SILK bytes a SILK-only packet carries as its frame.
pub open spec fn silk_frame(coded: Seq<u8>, use_cbr: bool, n_bytes: usize, max_data_bytes: usize) -> Seq<u8> {
    let ret = stripped_len(coded, coded.len() as int);
    let tt = silk_target(coded, use_cbr, n_bytes, max_data_bytes);
    if !use_cbr || ret + 1 >= tt {
        coded.take(
            if ret < tt - 1 {
                ret
            } else {
                tt - 1
            },
        )
    } else if ret + 2 >= tt {
        coded.take(tt - 2)
    } else {
        coded.take(ret)
    }
}

/// The SILK-only packet of a frame, from its TOC byte and the SILK range
/// coder's bytes.
pub fn silk_only_packet(toc: u8, coded: &[u8], use_cbr: bool, n_bytes: usize, max_data_bytes: usize) -> (out: Vec<u8>)
    requires
        max_data_bytes >= 2,
        n_bytes >= 1,
        coded@.len() < usize::MAX,
    ensures
        out@ == spec_silk_packet(toc, coded@, use_cbr, n_bytes, max_data_bytes),
        out@.len() <= max_data_bytes,
{
    let mut ret = coded.len();
    while ret > 2 && coded[ret - 1] == 0
        invariant
            ret <= coded@.len(),
            stripped_len(coded@, coded@.len() as int) == stripped_len(coded@, ret as int),
        decreases ret,
    {
        ret -= 1;
    }
    let t = if use_cbr {
        n_bytes
    } else {
        ret + 1
    };
    let target_total = if t < max_data_bytes {
        t
    } else {
        max_data_bytes
    };
    let silk_len = ret;
    let mut out: Vec<u8> = Vec::new();
    if !use_cbr || silk_len + 1 >= target_total {
        out.push(toc);
        let copy_len = if silk_len < target_total - 1 {
            silk_len
        } else {
            target_total - 1
        };
        append_bytes(&mut out, &coded[0..copy_len]);
        assert(coded@.subrange(0, copy_len as int) =~= coded@.take(copy_len as int));
        return out;
    }
    out.push(toc | 3u8);
    if silk_len + 2 >= target_total {
        out.push(1u8);
        let copy_len = target_total - 2;
        append_bytes(&mut out, &coded[0..copy_len]);
        assert(coded@.subrange(0, copy_len as int) =~= coded@.take(copy_len as int));
        assert(out@ =~= seq![toc | 3u8, 1u8] + coded@.take(copy_len as int));
        return out;
    }
    let pad_amount = target_total - silk_len - 2;
    out.push(0x41u8);
    write_padding(&mut out, pad_amount);
    append_bytes(&mut out, &coded[0..silk_len]);
    assert(coded@.subrange(0, silk_len as int) =~= coded@.take(silk_len as int));
    let ghost hdr = out@;
    assert(hdr =~= seq![toc | 3u8, 0x41u8] + padding_code(pad_amount as int) + coded@.take(silk_len as int));
    proof {
        lemma_padding_code_len(pad_amount as int);
    }
    while out.len() < target_total
        invariant
            hdr.len() <= out@.len() <= target_total,
            out@ == hdr + Seq::new((out@.len() - hdr.len()) as nat, |i: int| 0u8),
        decreases target_total - out.len(),
    {
        out.push(0);
        assert(out@ =~= hdr + Seq::new((out@.len() - hdr.len()) as nat, |i: int| 0u8));
    }
    out
}

/// The padding-length bytes for `pad` bytes of padding are no more than the
/// padding.
proof fn lemma_padding_code_len(pad: int)
    requires
        pad > 0,
    ensures
        padding_code(pad).len() == (pad - 1) / 255 + 1,
        padding_code(pad).len() <= pad,
{
    assert((pad - 1) / 255 + 1 <= pad) by (nonlinear_arith)
        requires
            pad > 0,
    ;
}

/// Dropping trailing zero bytes keeps a length between 0 and the one given.
proof fn lemma_stripped_len(coded: Seq<u8>, ret: int)
    requires
        0 <= ret <= coded.len(),
    ensures
        0 <= stripped_len(coded, ret) <= ret,
    decreases ret,
{
    if ret > 2 && coded[ret - 1] == 0 {
        lemma_stripped_len(coded, ret - 1);
    }
}

/// A SILK-only packet holds one frame, the SILK bytes it keeps, as the
/// packet model reads it; a CBR packet is exactly the CBR size (capped by
/// the output). The TOC byte is one `gen_toc` writes (code 0) and the frame
/// at most 1275 bytes long.
pub proof fn lemma_silk_packet_frame(
    toc: u8,
    coded: Seq<u8>,
    use_cbr: bool,
    n_bytes: usize,
    max_data_bytes: usize,
)
    requires
        toc % 4 == 0,
        max_data_bytes >= 2,
        n_bytes >= 1,
        silk_frame(coded, use_cbr, n_bytes, max_data_bytes).len() <= 1275,
    ensures
        packet_frames(spec_silk_packet(toc, coded, use_cbr, n_bytes, max_data_bytes), false) == Some(
            seq![silk_frame(coded, use_cbr, n_bytes, max_data_bytes)],
        ),
        use_cbr ==> spec_silk_packet(toc, coded, use_cbr, n_bytes, max_data_bytes).len()
            == silk_target(coded, use_cbr, n_bytes, max_data_bytes),
{
    let ret = stripped_len(coded, coded.len() as int);
    lemma_stripped_len(coded, coded.len() as int);
    let tt = silk_target(coded, use_cbr, n_bytes, max_data_bytes);
    let f = silk_frame(coded, use_cbr, n_bytes, max_data_bytes);
    let fs = seq![f];
    let pkt = spec_silk_packet(toc, coded, use_cbr, n_bytes, max_data_bytes);
    lemma_samples_per_frame_rates(toc);
    assert(fs.len() == 1 && fs[0] == f);
    assert(frames_hold(toc, fs));
    assert(concat_frames(fs) =~= f) by {
        assert(fs.drop_last() =~= Seq::<Seq<u8>>::empty());
        assert(concat_frames(Seq::<Seq<u8>>::empty()) =~= Seq::<u8>::empty());
        assert(concat_frames(fs) == concat_frames(fs.drop_last()) + fs.last());
    }
    assert((toc | 3u8) == (toc / 4 * 4 + 3) as u8) by (bit_vector);
    if !use_cbr || ret + 1 >= tt {
        assert((toc / 4 * 4) as u8 == toc);
        assert(pkt =~= spec_out(toc, fs, None, false));
        lemma_out_frames(toc, fs, None);
    } else if ret + 2 >= tt {
        assert(pkt =~= spec_out(toc, fs, Some(tt as usize), false));
        lemma_out_frames(toc, fs, Some(tt as usize));
    } else {
        let pad = tt - ret - 2;
        lemma_padding_code_len(pad);
        assert(pkt =~= spec_out(toc, fs, Some(tt as usize), false));
        lemma_out_frames(toc, fs, Some(tt as usize));
    }
}

/// The TOC byte an encoder writes for a frame reads back as what it codes:
/// once the mode is settled for the bandwidth and the frame rate checked,
/// the byte gives the mode, the bandwidth (CELT's mediumband, which CELT
/// has no configuration for, reads as narrowband), the channel count and the frame
/// duration. SILK frames shorter than 10 ms pass the frame-rate check but
/// have no SILK configuration, so they are left out.
pub proof fn lemma_encoder_toc(mode: OpusMode, bandwidth: Bandwidth, channels: usize, frame_rate: i32)
    requires
        bandwidth != Bandwidth::Auto,
        channels == 1 || channels == 2,
        spec_check_frame_rate(spec_settle_mode(mode, bandwidth, channels).0, frame_rate) is Ok,
        !(spec_settle_mode(mode, bandwidth, channels).0 == OpusMode::SilkOnly && frame_rate > 100),
    ensures
        ({
            let (m, b) = spec_settle_mode(mode, bandwidth, channels);
            let toc = spec_gen_toc(m, frame_rate, b, channels);
            &&& spec_mode_from_toc(toc) == m
            &&& spec_bandwidth_from_toc(toc) == toc_bandwidth(m, b)
            &&& spec_channels_from_toc(toc) == channels as int
            &&& spec_frame_duration_ms(toc) == (if frame_rate == 400 {
                2int
            } else {
                1000int / frame_rate as int
            })
        }),
{
    let (m, b) = spec_settle_mode(mode, bandwidth, channels);
    assert(toc_params_valid(m, frame_rate, b));
    lemma_gen_toc_roundtrip(m, frame_rate, b, channels);
}

/// The widest bandwidth (numeric code) a sampling rate holds: half the
/// rate, its Nyquist frequency.
pub open spec fn nyquist_bandwidth(sampling_rate: i32) -> int {
    if sampling_rate <= 8000 {
        1101
    } else if sampling_rate <= 12000 {
        1102
    } else if sampling_rate <= 16000 {
        1103
    } else if sampling_rate <= 24000 {
        1104
    } else {
        1105
    }
}

/// Unless a bandwidth is forced, a frame is never coded above the Nyquist
/// frequency of the input, and SILK or hybrid frames of input above 16 kHz
/// are coded at wideband or more.
pub proof fn lemma_coded_bandwidth_bounds(
    auto_bw: i32,
    mode: OpusMode,
    use_cbr: bool,
    bitrate_bps: i32,
    sampling_rate: i32,
    channels: usize,
    equiv: i32,
    detected: i32,
)
    requires
        1101 <= auto_bw <= 1105,
    ensures
        ({
            let b = spec_coded_bandwidth(
                auto_bw,
                mode,
                use_cbr,
                bitrate_bps,
                sampling_rate,
                channels,
                equiv,
                detected,
                None,
            ).spec_code();
            &&& 1101 <= b <= nyquist_bandwidth(sampling_rate)
            &&& mode != OpusMode::CeltOnly && sampling_rate > 16000 ==> b >= 1103
        }),
{
}

/// The inactivity count of discontinuous transmission stays between 0 and
/// 600 ms, and a frame is skipped only after more than 200 ms of inactivity.
pub proof fn lemma_dtx_bounds(
    use_dtx: bool,
    analysis_valid: bool,
    is_silence: bool,
    speech_likely: bool,
    count_q1: i32,
    frame_size: usize,
    sampling_rate: i32,
)
    requires
        0 <= count_q1 <= 1200,
        frame_size <= i32::MAX,
        sampling_rate > 0,
    ensures
        ({
            let (c, skip) = spec_dtx_step(
                use_dtx,
                analysis_valid,
                is_silence,
                speech_likely,
                count_q1,
                frame_size,
                sampling_rate,
            );
            &&& 0 <= c <= 1200
            &&& skip ==> 400 < c
        }),
{
    let ms = tdiv(2000 * ((frame_size as i32) as int), sampling_rate as int);
    assert(ms >= 0) by (nonlinear_arith)
        requires
            ms == tdiv(2000 * ((frame_size as i32) as int), sampling_rate as int),
            (frame_size as i32) as int >= 0,
            sampling_rate > 0,
    ;
}

/// What the CELT layer of a CELT or hybrid frame is given: the first band
/// (17 for hybrid, where SILK codes the low band), the end band of the
/// bandwidth, the packet's bits after the TOC byte, and for VBR the target
/// in eighth bits per frame (the bitrate over the frame, rounded).
pub open spec fn spec_celt_budget(
    mode: OpusMode,
    bandwidth: Bandwidth,
    n_bytes: usize,
    use_cbr: bool,
    bitrate_bps: i32,
    frame_size: usize,
    sampling_rate: i32,
) -> (int, int, i32, i32) {
    let den = sampling_rate / 8;
    (
        if mode == OpusMode::Hybrid {
            17
        } else {
            0
        },
        spec_celt_endband(bandwidth),
        ((n_bytes - 1) * 8) as i32,
        if use_cbr {
            0
        } else {
            tdiv(bitrate_bps * ((frame_size as i64) as int) + den / 2, den) as i32
        },
    )
}

/// The CELT layer's bands and bit budget for a frame.
pub fn celt_budget(
    mode: OpusMode,
    bandwidth: Bandwidth,
    n_bytes: usize,
    use_cbr: bool,
    bitrate_bps: i32,
    frame_size: usize,
    sampling_rate: i32,
) -> (r: (usize, usize, i32, i32))
    requires
        1 <= n_bytes,
        (n_bytes - 1) * 8 <= usize::MAX,
        !use_cbr ==> sampling_rate >= 8 && i64::MIN <= bitrate_bps * ((frame_size as i64) as int)
            <= i64::MAX && i64::MIN <= bitrate_bps * ((frame_size as i64) as int) + sampling_rate / 16
            <= i64::MAX,
    ensures
        (r.0 as int, r.1 as int, r.2, r.3) == spec_celt_budget(
            mode,
            bandwidth,
            n_bytes,
            use_cbr,
            bitrate_bps,
            frame_size,
            sampling_rate,
        ),
{
    let start_band: usize = match mode {
        OpusMode::Hybrid => 17,
        _ => 0,
    };
    let end_band = celt_endband_for_bandwidth(bandwidth);
    let total_packet_bits = ((n_bytes - 1) * 8) as i32;
    let vbr_rate = if use_cbr {
        0
    } else {
        let den = sampling_rate >> 3u32;
        assert(den == sampling_rate / 8) by (bit_vector)
            requires
                den == sampling_rate >> 3u32,
                sampling_rate >= 8,
        ;
        assert(den >> 1u32 == den / 2) by (bit_vector)
            requires
                den >= 1,
        ;
        assert(den / 2 == sampling_rate / 16);
        ((bitrate_bps as i64 * frame_size as i64 + (den >> 1u32) as i64) / den as i64) as i32
    };
    (start_band, end_band, total_packet_bits, vbr_rate)
}

/// The SILK share of a frame's rate, from the rate the SILK encoder runs at
/// (16 kHz for hybrid) and its frame length there: hybrid takes its table
/// share; CBR SILK the packet's bits over the frame; VBR SILK the bitrate.
pub open spec fn silk_bitrate(
    mode: OpusMode,
    bandwidth: Bandwidth,
    bitrate_bps: i32,
    use_cbr: bool,
    n_bytes: usize,
    sampling_rate: i32,
    silk_frame_len: usize,
) -> int {
    let rate_calc = silk_rate_for_calc(mode, sampling_rate);
    if mode == OpusMode::Hybrid {
        spec_silk_rate_for_hybrid(bitrate_bps, bandwidth, !use_cbr)
    } else if use_cbr {
        tdiv(8 * (((n_bytes - 1) as i64) as int) * rate_calc, (silk_frame_len as i64) as int) as i32 as int
    } else {
        bitrate_bps as int
    }
}

/// The rate the SILK encoder runs at: 16 kHz for hybrid, the input rate up
/// to 16 kHz for SILK.
pub open spec fn silk_rate_for_calc(mode: OpusMode, sampling_rate: i32) -> int {
    if mode == OpusMode::Hybrid {
        16000
    } else if sampling_rate < 16000 {
        sampling_rate as int
    } else {
        16000
    }
}

/// The SILK bit cap of a frame: the packet's bits for SILK; for CBR hybrid
/// the packet's bits less three quarters of what CELT would be left; for
/// VBR hybrid the table share of the packet's rate over the frame.
pub open spec fn silk_max_bits(
    mode: OpusMode,
    bandwidth: Bandwidth,
    bitrate_bps: i32,
    use_cbr: bool,
    n_bytes: usize,
    frame_size: usize,
    sampling_rate: i32,
    silk_frame_len: usize,
) -> int {
    let total = ((n_bytes - 1) * 8) as i32 as int;
    if mode == OpusMode::Hybrid {
        if use_cbr {
            let sb = silk_bitrate(mode, bandwidth, bitrate_bps, use_cbr, n_bytes, sampling_rate, silk_frame_len);
            let silk_bits = tdiv(sb * ((silk_frame_len as i64) as int), 16000) as i32 as int;
            let other = if total - silk_bits > 0 {
                total - silk_bits
            } else {
                0
            };
            let m = total - tdiv(other * 3, 4);
            if m > 0 {
                m
            } else {
                0
            }
        } else {
            let fs32 = (frame_size as i32) as int;
            let mbr = spec_silk_rate_for_hybrid(tdiv(total * sampling_rate, fs32) as i32, bandwidth, !use_cbr);
            tdiv(mbr * fs32, sampling_rate as int)
        }
    } else {
        total
    }
}

/// The inputs on which the SILK budget computes without overflow or a
/// division by zero.
pub open spec fn silk_budget_fits(
    mode: OpusMode,
    bandwidth: Bandwidth,
    bitrate_bps: i32,
    use_cbr: bool,
    n_bytes: usize,
    frame_size: usize,
    sampling_rate: i32,
    silk_frame_len: usize,
) -> bool {
    let total = ((n_bytes - 1) * 8) as i32 as int;
    let fs32 = (frame_size as i32) as int;
    let sb = silk_bitrate(mode, bandwidth, bitrate_bps, use_cbr, n_bytes, sampling_rate, silk_frame_len);
    &&& 1 <= n_bytes
    &&& (n_bytes - 1) * 8 <= usize::MAX
    &&& sampling_rate > 0
    &&& mode != OpusMode::CeltOnly
    &&& mode == OpusMode::Hybrid ==> bitrate_bps >= -214748 && fits_i32(fs32 * 1000)
    &&& mode == OpusMode::SilkOnly && use_cbr ==> {
        &&& 0 < silk_frame_len <= i64::MAX
        &&& i64::MIN <= 8 * (((n_bytes - 1) as i64) as int) <= i64::MAX
        &&& i64::MIN <= 8 * (((n_bytes - 1) as i64) as int) * silk_rate_for_calc(mode, sampling_rate)
            <= i64::MAX
    }
    &&& mode == OpusMode::Hybrid && use_cbr ==> {
        &&& i64::MIN <= sb * ((silk_frame_len as i64) as int) <= i64::MAX
        &&& fits_i32(total - tdiv(sb * ((silk_frame_len as i64) as int), 16000) as i32)
        &&& 3 * (total - tdiv(sb * ((silk_frame_len as i64) as int), 16000) as i32) <= i32::MAX
    }
    &&& mode == OpusMode::Hybrid && !use_cbr ==> {
        &&& fits_i32(total * sampling_rate)
        &&& fs32 > 0
        &&& tdiv(total * sampling_rate, fs32) >= -214748
        &&& fits_i32(
            spec_silk_rate_for_hybrid(tdiv(total * sampling_rate, fs32) as i32, bandwidth, !use_cbr) * fs32,
        )
    }
}

/// The SILK encoder's bitrate, bit cap and CBR flag for a SILK or hybrid
/// frame; hybrid CBR runs SILK in VBR inside the constant packet.
pub fn silk_budget(
    mode: OpusMode,
    bandwidth: Bandwidth,
    bitrate_bps: i32,
    use_cbr: bool,
    n_bytes: usize,
    frame_size: usize,
    sampling_rate: i32,
    silk_frame_len: usize,
) -> (r: (i32, i32, i32))
    requires
        silk_budget_fits(
            mode,
            bandwidth,
            bitrate_bps,
            use_cbr,
            n_bytes,
            frame_size,
            sampling_rate,
            silk_frame_len,
        ),
    ensures
        r.0 == silk_bitrate(mode, bandwidth, bitrate_bps, use_cbr, n_bytes, sampling_rate, silk_frame_len),
        r.1 == silk_max_bits(
            mode,
            bandwidth,
            bitrate_bps,
            use_cbr,
            n_bytes,
            frame_size,
            sampling_rate,
            silk_frame_len,
        ),
        r.2 == (if use_cbr && mode != OpusMode::Hybrid {
            1i32
        } else {
            0
        }),
{
    let hybrid = match mode {
        OpusMode::Hybrid => true,
        _ => false,
    };
    let silk_rate_for_calc: i32 = if hybrid {
        16000
    } else if sampling_rate < 16000 {
        sampling_rate
    } else {
        16000
    };
    let total_max_bits = ((n_bytes - 1) * 8) as i32;
    let fs32 = frame_size as i32;
    let silk_bitrate = if hybrid {
        let frame_duration_ms = fs32 * 1000 / sampling_rate;
        let frame20ms = frame_duration_ms >= 20;
        compute_silk_rate_for_hybrid(bitrate_bps, bandwidth, frame20ms, !use_cbr)
    } else if use_cbr {
        (8i64 * (n_bytes - 1) as i64 * silk_rate_for_calc as i64 / silk_frame_len as i64) as i32
    } else {
        bitrate_bps
    };
    let silk_max_bits = if hybrid {
        if use_cbr {
            let silk_bits = (silk_bitrate as i64 * silk_frame_len as i64 / silk_rate_for_calc as i64) as i32;
            let diff = total_max_bits - silk_bits;
            let other_bits = if diff > 0 {
                diff
            } else {
                0
            };
            let m = total_max_bits - other_bits * 3 / 4;
            if m > 0 {
                m
            } else {
                0
            }
        } else {
            let frame_duration_ms = fs32 * 1000 / sampling_rate;
            let frame20ms = frame_duration_ms >= 20;
            let max_bit_rate = compute_silk_rate_for_hybrid(
                total_max_bits * sampling_rate / fs32,
                bandwidth,
                frame20ms,
                !use_cbr,
            );
            max_bit_rate * fs32 / sampling_rate
        }
    } else {
        total_max_bits
    };
    let silk_use_cbr = if hybrid && use_cbr {
        0
    } else if use_cbr {
        1
    } else {
        0
    };
    (silk_bitrate, silk_max_bits, silk_use_cbr)
}

/// The settings of an encoder that its per-frame decisions read.
#[derive(Clone, Copy)]
pub struct EncoderSettings {
    pub application: Application,
    pub sampling_rate: i32,
    pub channels: usize,
    pub bitrate_bps: i32,
    pub complexity: i32,
    pub use_cbr: bool,
    pub packet_loss_perc: i32,
    /// Overrides the automatic bandwidth when set.
    pub force_bandwidth: Option<Bandwidth>,
}

/// What an encoder carries from frame to frame for its decisions.
#[derive(Clone, Copy)]
pub struct EncoderControl {
    /// The mode of the last coded frame, none before the first.
    pub prev_enc_mode: Option<OpusMode>,
    /// The automatic bandwidth chosen last (numeric code), for hysteresis.
    pub auto_bandwidth: i32,
    pub first_frame: bool,
    /// The analysed voice probability in percent, negative when unknown.
    pub voice_ratio: i32,
    /// The bandwidth of the last frame.
    pub bandwidth: Bandwidth,
}

/// The decisions for one frame: its rate, coding mode, bandwidth and TOC
/// byte.
#[derive(Clone, Copy)]
pub struct FrameDecision {
    pub frame_rate: i32,
    pub mode: OpusMode,
    pub bandwidth: Bandwidth,
    pub toc: u8,
}

/// The inputs on which a frame's decisions compute without overflow: a
/// valid encoder configuration and a voice ratio the analysis gives
/// (at most 100) or none.
pub open spec fn decide_fits(settings: EncoderSettings, voice_ratio: i32) -> bool {
    &&& valid_sampling_rate(settings.sampling_rate)
    &&& settings.channels == 1 || settings.channels == 2
    &&& voice_ratio <= 100
    &&& forall|frame_rate: i32|
        -settings.sampling_rate <= frame_rate <= settings.sampling_rate ==> #[trigger] settings_rate_fits(
            settings,
            frame_rate,
        )
}

/// The equivalent rate of the settings computes without overflow at this
/// frame rate.
pub open spec fn settings_rate_fits(settings: EncoderSettings, frame_rate: i32) -> bool {
    equiv_rate_fits(
        settings.bitrate_bps,
        settings.channels,
        frame_rate,
        !settings.use_cbr,
        settings.complexity,
        settings.packet_loss_perc,
    )
}

/// The mode the rate chooses, the automatic bandwidth, and the mode and
/// bandwidth once settled, for a frame of rate `frame_rate`.
pub open spec fn frame_choice(
    settings: EncoderSettings,
    control: EncoderControl,
    frame_rate: i32,
    detected_bandwidth: i32,
) -> (int, OpusMode, Bandwidth) {
    let mode0 = spec_choose_mode(
        settings.application,
        settings.sampling_rate,
        settings.channels,
        frame_rate,
        settings.bitrate_bps,
        settings.use_cbr,
        settings.complexity,
        settings.packet_loss_perc,
        control.prev_enc_mode,
        control.voice_ratio,
    );
    let equiv = spec_equiv_rate(
        settings.bitrate_bps,
        settings.channels,
        frame_rate,
        !settings.use_cbr,
        settings.complexity,
        settings.packet_loss_perc,
    ) as i32;
    let voice_est = spec_voice_est(control.voice_ratio, settings.application) as i32;
    let auto = spec_auto_bandwidth(equiv, voice_est, control.first_frame, control.auto_bandwidth);
    let bw = spec_coded_bandwidth(
        auto as i32,
        mode0,
        settings.use_cbr,
        settings.bitrate_bps,
        settings.sampling_rate,
        settings.channels,
        equiv,
        detected_bandwidth,
        settings.force_bandwidth,
    );
    let (mode, band) = spec_settle_mode(mode0, bw, settings.channels);
    (auto, mode, band)
}

impl EncoderControl {
    /// The control state of a new encoder.
    pub fn new() -> (r: Self)
        ensures
            r.prev_enc_mode is None,
            r.auto_bandwidth == 0,
            r.first_frame,
            r.voice_ratio == -1,
            r.bandwidth == Bandwidth::Auto,
    {
        EncoderControl {
            prev_enc_mode: None,
            auto_bandwidth: 0,
            first_frame: true,
            voice_ratio: -1,
            bandwidth: Bandwidth::Auto,
        }
    }

    /// Decides a frame of `frame_size` samples per channel, up to its TOC
    /// byte: its frame rate,
    /// the coding mode, the automatic bandwidth (kept for the next frame's
    /// hysteresis), the coded bandwidth, the settled mode, the frame-size
    /// check of that mode, and the TOC byte. The bandwidth state changes
    /// even when the frame size is then refused.
    pub fn decide(&mut self, settings: &EncoderSettings, frame_size: usize, detected_bandwidth: i32) -> (r:
        Result<FrameDecision, &'static str>)
        requires
            decide_fits(*settings, old(self).voice_ratio),
        ensures
            match spec_frame_rate(settings.sampling_rate, frame_size) {
                None => r == Err::<FrameDecision, &'static str>("Invalid frame size for sampling rate")
                    && *final(self) == *old(self),
                Some(frame_rate) => {
                    let (auto, mode, band) = frame_choice(
                        *settings,
                        *old(self),
                        frame_rate,
                        detected_bandwidth,
                    );
                    &&& final(self).auto_bandwidth == auto
                    &&& !final(self).first_frame
                    &&& final(self).bandwidth == band
                    &&& final(self).prev_enc_mode == old(self).prev_enc_mode
                    &&& final(self).voice_ratio == old(self).voice_ratio
                    &&& match spec_check_frame_rate(mode, frame_rate) {
                        Err(e) => r == Err::<FrameDecision, &'static str>(e),
                        Ok(_) => r matches Ok(d) && d.frame_rate == frame_rate && d.mode == mode
                            && d.bandwidth == band && d.toc == spec_gen_toc(
                            mode,
                            frame_rate,
                            band,
                            settings.channels,
                        ),
                    }
                },
            },
    {
        let frame_rate = match frame_rate_from_params(settings.sampling_rate, frame_size) {
            Some(fr) => fr,
            None => {
                return Err("Invalid frame size for sampling rate");
            },
        };
        proof {
            lemma_frame_rate_range(settings.sampling_rate, frame_size);
            lemma_voice_est_bounds(self.voice_ratio, settings.application);
        }
        assert(settings_rate_fits(*settings, frame_rate));
        let mode0 = choose_mode(
            settings.application,
            settings.sampling_rate,
            settings.channels,
            frame_rate,
            settings.bitrate_bps,
            settings.use_cbr,
            settings.complexity,
            settings.packet_loss_perc,
            self.prev_enc_mode,
            self.voice_ratio,
        );
        let equiv = compute_equiv_rate(
            settings.bitrate_bps,
            settings.channels,
            frame_rate,
            !settings.use_cbr,
            settings.complexity,
            settings.packet_loss_perc,
        );
        let voice_est = compute_voice_est(self.voice_ratio, settings.application);
        let auto = auto_bandwidth(equiv, voice_est, self.first_frame, self.auto_bandwidth);
        self.auto_bandwidth = auto;
        let bw = coded_bandwidth(
            auto,
            mode0,
            settings.use_cbr,
            settings.bitrate_bps,
            settings.sampling_rate,
            settings.channels,
            equiv,
            detected_bandwidth,
            settings.force_bandwidth,
        );
        self.first_frame = false;
        let (mode, band) = settle_mode(mode0, bw, settings.channels);
        self.bandwidth = band;
        match check_frame_rate(mode, frame_rate) {
            Ok(()) => {},
            Err(e) => {
                return Err(e);
            },
        }
        let toc = gen_toc(mode, frame_rate, band, settings.channels);
        Ok(FrameDecision { frame_rate, mode, bandwidth: band, toc })
    }
}

/// A frame rate the sampling rate gives for a frame size is at most the
/// sampling rate in size.
proof fn lemma_frame_rate_range(sampling_rate: i32, frame_size: usize)
    requires
        valid_sampling_rate(sampling_rate),
        spec_frame_rate(sampling_rate, frame_size) is Some,
    ensures
        -sampling_rate <= spec_frame_rate(sampling_rate, frame_size)->0 <= sampling_rate,
{
    let f = (frame_size as i32) as int;
    let fs = sampling_rate as int;
    assert(f != 0 ==> -fs <= fs / f <= fs) by (nonlinear_arith)
        requires
            fs > 0,
    ;
}

/// The voice estimate of an analysed voice ratio (at most 100) or of none
/// is at most 127, so the thresholds it weighs compute without overflow.
proof fn lemma_voice_est_bounds(voice_ratio: i32, application: Application)
    requires
        voice_ratio <= 100,
    ensures
        0 <= spec_voice_est(voice_ratio, application) <= 127,
        spec_voice_est(voice_ratio, application) * spec_voice_est(voice_ratio, application) * 54000
            <= i32::MAX,
        voice_ratio * 327 <= i32::MAX,
{
    let v = spec_voice_est(voice_ratio, application);
    if voice_ratio >= 0 {
        assert(0 <= voice_ratio * 327 / 256 <= 127) by (nonlinear_arith)
            requires
                0 <= voice_ratio <= 100,
        ;
    }
    assert(v * v * 54000 <= 127 * 127 * 54000) by (nonlinear_arith)
        requires
            0 <= v <= 127,
    ;
}

/// The TOC byte of a decided frame reads back as what the frame is coded
/// with: its mode, its bandwidth (CELT's mediumband as narrowband), its
/// channel count and its frame duration. Left out: a forced bandwidth of
/// `Auto`, which names no bandwidth, and SILK frames shorter than 10 ms,
/// which have no SILK configuration.
pub proof fn lemma_decision_toc(
    settings: EncoderSettings,
    control: EncoderControl,
    frame_size: usize,
    detected_bandwidth: i32,
)
    requires
        decide_fits(settings, control.voice_ratio),
        settings.force_bandwidth != Some(Bandwidth::Auto),
        spec_frame_rate(settings.sampling_rate, frame_size) is Some,
        ({
            let fr = spec_frame_rate(settings.sampling_rate, frame_size)->0;
            let (_, mode, _) = frame_choice(settings, control, fr, detected_bandwidth);
            spec_check_frame_rate(mode, fr) is Ok && !(mode == OpusMode::SilkOnly && fr > 100)
        }),
    ensures
        ({
            let fr = spec_frame_rate(settings.sampling_rate, frame_size)->0;
            let (_, mode, band) = frame_choice(settings, control, fr, detected_bandwidth);
            let toc = spec_gen_toc(mode, fr, band, settings.channels);
            &&& spec_mode_from_toc(toc) == mode
            &&& spec_bandwidth_from_toc(toc) == toc_bandwidth(mode, band)
            &&& spec_channels_from_toc(toc) == settings.channels as int
            &&& spec_frame_duration_ms(toc) == (if fr == 400 {
                2int
            } else {
                1000int / fr as int
            })
        }),
{
    let fr = spec_frame_rate(settings.sampling_rate, frame_size)->0;
    let mode0 = spec_choose_mode(
        settings.application,
        settings.sampling_rate,
        settings.channels,
        fr,
        settings.bitrate_bps,
        settings.use_cbr,
        settings.complexity,
        settings.packet_loss_perc,
        control.prev_enc_mode,
        control.voice_ratio,
    );
    let equiv = spec_equiv_rate(
        settings.bitrate_bps,
        settings.channels,
        fr,
        !settings.use_cbr,
        settings.complexity,
        settings.packet_loss_perc,
    ) as i32;
    let voice_est = spec_voice_est(control.voice_ratio, settings.application) as i32;
    let auto = spec_auto_bandwidth(equiv, voice_est, control.first_frame, control.auto_bandwidth);
    let bw = spec_coded_bandwidth(
        auto as i32,
        mode0,
        settings.use_cbr,
        settings.bitrate_bps,
        settings.sampling_rate,
        settings.channels,
        equiv,
        detected_bandwidth,
        settings.force_bandwidth,
    );
    lemma_encoder_toc(mode0, bw, settings.channels, fr);
}

} // verus!

verus! {

/// The SILK/CELT switch of a frame decision, with the previous mode as a
/// free input: leaving restricted low delay aside (always CELT), a frame
/// at 24 kHz or more goes to CELT when its equivalent rate reaches the
/// voice-weighted threshold (10 kb/s, plus up to 54 kb/s mono or 34 kb/s
/// stereo by the voice estimate squared, plus 8 kb/s for VoIP), raised by
/// 4 kb/s after a SILK or hybrid frame and lowered by 4 kb/s after a CELT
/// frame. For mono that is exactly when the decision is CELT; stereo may
/// also turn a hybrid frame into CELT.
pub proof fn lemma_mode_hysteresis(
    settings: EncoderSettings,
    control: EncoderControl,
    frame_rate: i32,
    detected_bandwidth: i32,
)
    requires
        control.voice_ratio <= 100,
        settings.channels == 1 || settings.channels == 2,
    ensures
        ({
            let ve = spec_voice_est(control.voice_ratio, settings.application);
            let base = 10000 + ve * ve * (if settings.channels == 1 {
                54000int
            } else {
                34000
            }) / 16384 + (if settings.application == Application::Voip {
                8000int
            } else {
                0
            });
            let shift = match control.prev_enc_mode {
                None => 0int,
                Some(OpusMode::CeltOnly) => -4000,
                Some(_) => 4000,
            };
            let equiv = spec_equiv_rate(
                settings.bitrate_bps,
                settings.channels,
                frame_rate,
                !settings.use_cbr,
                settings.complexity,
                settings.packet_loss_perc,
            );
            let wants_celt = settings.application == Application::RestrictedLowDelay || (
            settings.sampling_rate >= 24000 && equiv >= base + shift);
            let mode = frame_choice(settings, control, frame_rate, detected_bandwidth).1;
            &&& wants_celt ==> mode == OpusMode::CeltOnly
            &&& settings.channels == 1 ==> (mode == OpusMode::CeltOnly <==> wants_celt)
        }),
{
    lemma_voice_est_bounds(control.voice_ratio, settings.application);
}

/// The CBR SILK bitrate spends the packet's payload over the frame's
/// duration: for a SILK-only CBR frame of `frame_size` samples at
/// `sampling_rate` Hz whose SILK frame holds `silk_frame_len` samples at
/// the SILK rate (the input rate up to 16 kHz), the bitrate times the
/// duration is the payload's bits, rounded down to whole bits per second.
pub proof fn lemma_silk_cbr_rate(
    bandwidth: Bandwidth,
    bitrate_bps: i32,
    n_bytes: usize,
    frame_size: usize,
    sampling_rate: i32,
    silk_frame_len: usize,
)
    requires
        n_bytes >= 1,
        frame_size > 0,
        sampling_rate > 0,
        silk_frame_len > 0,
        silk_frame_len <= i64::MAX,
        8 * (n_bytes - 1) * sampling_rate <= i32::MAX,
        silk_frame_len * sampling_rate == frame_size * (if sampling_rate < 16000 {
            sampling_rate as int
        } else {
            16000
        }),
    ensures
        ({
            let rate = silk_bitrate(
                OpusMode::SilkOnly,
                bandwidth,
                bitrate_bps,
                true,
                n_bytes,
                sampling_rate,
                silk_frame_len,
            );
            let bits = 8 * (n_bytes - 1);
            &&& rate * frame_size <= bits * sampling_rate
            &&& bits * sampling_rate < (rate + 1) * frame_size
        }),
{
    let r = if sampling_rate < 16000 {
        sampling_rate as int
    } else {
        16000
    };
    let a = 8 * ((n_bytes - 1) as int);
    let l = silk_frame_len as int;
    let f = frame_size as int;
    let fs = sampling_rate as int;
    assert(n_bytes - 1 <= i32::MAX) by (nonlinear_arith)
        requires
            8 * (n_bytes - 1) * sampling_rate <= i32::MAX,
            sampling_rate > 0,
            n_bytes >= 1,
    ;
    assert(((n_bytes - 1) as i64) as int == n_bytes - 1);
    let q = (a * r) / l;
    assert(q * l <= a * r < (q + 1) * l) by (nonlinear_arith)
        requires
            q == (a * r) / l,
            l > 0,
    ;
    assert(q * f <= a * fs < (q + 1) * f) by (nonlinear_arith)
        requires
            q * l <= a * r < (q + 1) * l,
            l * fs == f * r,
            r > 0,
            fs > 0,
            f > 0,
        {
            assert(q * l * fs <= a * r * fs < (q + 1) * l * fs);
            assert(q * f * r <= a * fs * r < (q + 1) * f * r);
        }
    assert(0 <= q <= a * fs) by (nonlinear_arith)
        requires
            q * f <= a * fs,
            f > 0,
            a >= 0,
            r > 0,
            l > 0,
            q == (a * r) / l,
            fs > 0,
    ;
    assert(tdiv(a * r, l) == q);
}

} // verus!
