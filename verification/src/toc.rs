//! The TOC byte of an Opus packet: building it from the
//! coding mode, frame rate, bandwidth and channel count, and reading those
//! back.

use vstd::prelude::*;
use crate::{tdiv, trem, Bandwidth, OpusMode};
use crate::framing::{pow2_small, read_size, spec_samples_per_frame};

verus! {

/// The mode a TOC byte declares: CELT for configurations 16..=31, hybrid
/// for 12..=15, SILK below.
pub open spec fn spec_mode_from_toc(toc: u8) -> OpusMode {
    if toc >= 128 {
        OpusMode::CeltOnly
    } else if (toc / 32) % 4 == 3 {
        OpusMode::Hybrid
    } else {
        OpusMode::SilkOnly
    }
}

/// The coding mode of a packet.
pub fn mode_from_toc(toc: u8) -> (m: OpusMode)
    ensures
        m == spec_mode_from_toc(toc),
{
    if toc >= 128 {
        OpusMode::CeltOnly
    } else if (toc / 32) % 4 == 3 {
        OpusMode::Hybrid
    } else {
        OpusMode::SilkOnly
    }
}

/// The bandwidth a TOC byte declares. CELT has no mediumband
/// configuration: its bandwidth field 0 is narrowband.
pub open spec fn spec_bandwidth_from_toc(toc: u8) -> Bandwidth {
    let bits = (toc / 32) % 4;
    match spec_mode_from_toc(toc) {
        OpusMode::SilkOnly => if bits == 0 {
            Bandwidth::Narrowband
        } else if bits == 1 {
            Bandwidth::Mediumband
        } else {
            Bandwidth::Wideband
        },
        OpusMode::Hybrid => if (toc / 16) % 2 == 0 {
            Bandwidth::Superwideband
        } else {
            Bandwidth::Fullband
        },
        OpusMode::CeltOnly => if bits == 0 {
            Bandwidth::Narrowband
        } else if bits == 1 {
            Bandwidth::Wideband
        } else if bits == 2 {
            Bandwidth::Superwideband
        } else {
            Bandwidth::Fullband
        },
    }
}

/// The audio bandwidth of a packet.
pub fn bandwidth_from_toc(toc: u8) -> (bw: Bandwidth)
    ensures
        bw == spec_bandwidth_from_toc(toc),
{
    let mode = mode_from_toc(toc);
    match mode {
        OpusMode::SilkOnly => {
            let bw_bits = (toc / 32) % 4;
            if bw_bits == 0 {
                Bandwidth::Narrowband
            } else if bw_bits == 1 {
                Bandwidth::Mediumband
            } else {
                Bandwidth::Wideband
            }
        },
        OpusMode::Hybrid => {
            let bw_bit = (toc / 16) % 2;
            if bw_bit == 0 {
                Bandwidth::Superwideband
            } else {
                Bandwidth::Fullband
            }
        },
        OpusMode::CeltOnly => {
            let bw_bits = (toc / 32) % 4;
            if bw_bits == 0 {
                Bandwidth::Narrowband
            } else if bw_bits == 1 {
                Bandwidth::Wideband
            } else if bw_bits == 2 {
                Bandwidth::Superwideband
            } else {
                Bandwidth::Fullband
            }
        },
    }
}

/// The frame duration a TOC byte declares, in whole milliseconds (2.5 ms
/// CELT frames give 2).
pub open spec fn spec_frame_duration_ms(toc: u8) -> int {
    let c = (toc / 8) % 4;
    match spec_mode_from_toc(toc) {
        OpusMode::SilkOnly => if c == 0 {
            10
        } else if c == 1 {
            20
        } else if c == 2 {
            40
        } else {
            60
        },
        OpusMode::Hybrid => if c % 2 == 0 {
            10
        } else {
            20
        },
        OpusMode::CeltOnly => if c == 0 {
            2
        } else if c == 1 {
            5
        } else if c == 2 {
            10
        } else {
            20
        },
    }
}

/// The frame duration of a packet in milliseconds.
pub fn frame_duration_ms_from_toc(toc: u8) -> (ms: i32)
    ensures
        ms == spec_frame_duration_ms(toc),
{
    let mode = mode_from_toc(toc);
    match mode {
        OpusMode::SilkOnly => {
            let config = (toc / 8) % 4;
            if config == 0 {
                10
            } else if config == 1 {
                20
            } else if config == 2 {
                40
            } else {
                60
            }
        },
        OpusMode::Hybrid => {
            let config = (toc / 8) % 2;
            if config == 0 {
                10
            } else {
                20
            }
        },
        OpusMode::CeltOnly => {
            let config = (toc / 8) % 4;
            if config == 0 {
                2
            } else if config == 1 {
                5
            } else if config == 2 {
                10
            } else {
                20
            }
        },
    }
}

/// The channel count a TOC byte declares: the stereo flag (bit 2).
pub open spec fn spec_channels_from_toc(toc: u8) -> int {
    if (toc / 4) % 2 == 1 {
        2
    } else {
        1
    }
}

/// The channel count of a packet.
pub fn channels_from_toc(toc: u8) -> (c: usize)
    ensures
        c == spec_channels_from_toc(toc),
{
    if (toc / 4) % 2 == 1 {
        2
    } else {
        1
    }
}

/// The frame rate of `frame_size` samples per frame (read as the encoder's
/// `i32`) at `sampling_rate`: `None` unless the frame size divides the rate.
pub open spec fn spec_frame_rate(sampling_rate: i32, frame_size: usize) -> Option<i32> {
    if frame_size as i32 == 0 || trem(sampling_rate as int, (frame_size as i32) as int) != 0 {
        None
    } else {
        Some(tdiv(sampling_rate as int, (frame_size as i32) as int) as i32)
    }
}

/// The frame rate for `frame_size` samples per frame at `sampling_rate`,
/// when the frame size divides the rate.
pub fn frame_rate_from_params(sampling_rate: i32, frame_size: usize) -> (r: Option<i32>)
    requires
        !(sampling_rate == i32::MIN && frame_size as i32 == -1),
    ensures
        r == spec_frame_rate(sampling_rate, frame_size),
{
    let frame_size = frame_size as i32;
    if frame_size == 0 || sampling_rate % frame_size != 0 {
        return None;
    }
    Some(sampling_rate / frame_size)
}

/// 2 to the power `p`.
pub open spec fn pow2(p: nat) -> int
    decreases p,
{
    if p == 0 {
        1
    } else {
        2 * pow2((p - 1) as nat)
    }
}

/// How many doublings bring a frame rate to 400 Hz or more: the frame-size
/// field of a CELT TOC byte (400 Hz is 2.5 ms).
pub open spec fn toc_period(rate: int) -> nat
    decreases (if rate <= 0 || rate >= 400 {
        0
    } else {
        400 - rate
    }),
{
    if rate <= 0 || rate >= 400 {
        0
    } else {
        1 + toc_period(rate * 2)
    }
}

/// The TOC byte `gen_toc` writes: configuration and stereo flag, computed as
/// the encoder does (SILK: `(bandwidth - NB) << 5 | (period - 2) << 3`; CELT:
/// `0x80 | max(bandwidth - MB, 0) << 5 | period << 3`; hybrid: configuration
/// 12 for SWB, 14 otherwise, plus one for 20 ms), then bit 2 for stereo.
pub open spec fn spec_gen_toc(mode: OpusMode, frame_rate: i32, bandwidth: Bandwidth, channels: usize) -> u8 {
    let period = toc_period(frame_rate as int) as i32;
    let toc = match mode {
        OpusMode::SilkOnly => ((((bandwidth.spec_code() - 1101) as i32) << 5u32) | ((period - 2) as i32)
            << 3u32) as u8,
        OpusMode::CeltOnly => {
            let d = bandwidth.spec_code() - 1102;
            let tmp = (if d < 0 {
                0
            } else {
                d
            }) as i32;
            (0x80i32 | (tmp << 5u32) | (period << 3u32)) as u8
        },
        OpusMode::Hybrid => {
            let base: i32 = if bandwidth == Bandwidth::Superwideband {
                12
            } else {
                14
            };
            let off: i32 = if frame_rate >= 100 {
                0
            } else {
                1
            };
            (((base + off) as i32) << 3u32) as u8
        },
    };
    if channels == 2 {
        toc | 4u8
    } else {
        toc
    }
}

proof fn lemma_pow2_large(p: nat)
    requires
        p >= 9,
    ensures
        pow2(p) >= 512,
    decreases p,
{
    if p > 9 {
        lemma_pow2_large((p - 1) as nat);
    } else {
        reveal_with_fuel(pow2, 10);
    }
}

proof fn lemma_pow2_pos(p: nat)
    ensures
        pow2(p) >= 1,
    decreases p,
{
    if p > 0 {
        lemma_pow2_pos((p - 1) as nat);
    }
}

/// The TOC byte for a mode, frame rate, bandwidth and channel count.
pub fn gen_toc(mode: OpusMode, frame_rate: i32, bandwidth: Bandwidth, channels: usize) -> (toc: u8)
    requires
        frame_rate > 0,
    ensures
        toc == spec_gen_toc(mode, frame_rate, bandwidth, channels),
{
    let mut rate = frame_rate;
    let mut period: i32 = 0;
    while rate < 400
        invariant
            0 < rate,
            0 <= period,
            rate >= pow2(period as nat),
            period + toc_period(rate as int) == toc_period(frame_rate as int),
        decreases toc_period(rate as int),
    {
        proof {
            if period >= 9 {
                lemma_pow2_large(period as nat);
            }
        }
        rate = rate * 2;
        period = period + 1;
        assert(pow2(period as nat) == 2 * pow2((period - 1) as nat));
    }
    proof {
        lemma_pow2_pos(period as nat);
        if period >= 10 {
            lemma_pow2_large((period - 1) as nat);
        }
    }
    let bw = bandwidth.code();
    let mut toc: u8 = match mode {
        OpusMode::SilkOnly => {
            let b = (bw - 1101) << 5u32;
            let per = (period - 2) << 3u32;
            (b | per) as u8
        },
        OpusMode::CeltOnly => {
            let mut tmp = bw - 1102;
            if tmp < 0 {
                tmp = 0;
            }
            let per = period << 3u32;
            (0x80i32 | (tmp << 5u32) | per) as u8
        },
        OpusMode::Hybrid => {
            let base_config: i32 = if bandwidth == Bandwidth::Superwideband {
                12
            } else {
                14
            };
            let period_offset: i32 = if frame_rate >= 100 {
                0
            } else {
                1
            };
            ((base_config + period_offset) << 3u32) as u8
        },
    };
    if channels == 2 {
        toc = toc | 4u8;
    }
    toc
}

/// Opus frame-length coding (code 2 and VBR code 3): 0..=251 is
/// one byte of that value; 252..=1275 is a byte `b0` of 252..=255 then `b1`,
/// giving `b1 * 4 + b0`. Reads the code at `ptr`: `(length, bytes used)`.
pub fn read_opus_frame_len(data: &[u8], ptr: usize) -> (r: Result<(usize, usize), &'static str>)
    ensures
        match r {
            Ok((len, used)) => read_size(data@, ptr as int) == Some((used as int, len as int)),
            Err(e) => read_size(data@, ptr as int) is None && (if ptr >= data@.len() {
                e == "Opus frame length: truncated"
            } else {
                e == "Opus frame length: truncated 2-byte"
            }),
        },
{
    if ptr >= data.len() {
        return Err("Opus frame length: truncated");
    }
    let b0 = data[ptr] as usize;
    if b0 < 252 {
        Ok((b0, 1))
    } else {
        if ptr + 1 >= data.len() {
            return Err("Opus frame length: truncated 2-byte");
        }
        let b1 = data[ptr + 1] as usize;
        Ok((b1 * 4 + b0, 2))
    }
}

/// The CELT end band the decoder uses for a packet bandwidth.
pub open spec fn spec_celt_endband(bw: Bandwidth) -> int {
    match bw {
        Bandwidth::Narrowband => 13,
        Bandwidth::Mediumband => 17,
        Bandwidth::Wideband => 17,
        Bandwidth::Superwideband => 19,
        _ => 21,
    }
}

/// The CELT end band the decoder uses for a packet bandwidth.
pub fn celt_endband_for_bandwidth(bw: Bandwidth) -> (r: usize)
    ensures
        r == spec_celt_endband(bw),
{
    match bw {
        Bandwidth::Narrowband => 13,
        Bandwidth::Mediumband | Bandwidth::Wideband => 17,
        Bandwidth::Superwideband => 19,
        _ => 21,
    }
}

/// The band trim of a CELT-only TOC byte: how many pairs of bands above the
/// coded bandwidth the decoder skips (NB 4, WB 2, SWB 1, FB 0).
pub open spec fn celt_trim(toc: u8) -> int {
    let bits = (toc / 32) % 4;
    if bits == 0 {
        4
    } else if bits == 1 {
        2
    } else if bits == 2 {
        1
    } else {
        0
    }
}

/// The CELT end band the decoder uses for a packet, given the mode's
/// effective band count `top`: CELT-only packets drop two bands per trim
/// step (at least one band is kept); SWB hybrid packets stop at band 19.
pub open spec fn spec_celt_end_band_from_toc(toc: u8, top: int) -> int {
    if toc >= 128 {
        let e = top - 2 * celt_trim(toc);
        if e < 1 {
            1
        } else {
            e
        }
    } else if spec_mode_from_toc(toc) == OpusMode::Hybrid && spec_bandwidth_from_toc(toc)
        == Bandwidth::Superwideband {
        if top < 19 {
            top
        } else {
            19
        }
    } else {
        top
    }
}

/// The CELT end band the decoder uses for a packet, given the mode's
/// effective band count `top`.
pub fn celt_end_band_from_toc(toc: u8, top: usize) -> (r: usize)
    ensures
        r == spec_celt_end_band_from_toc(toc, top as int),
{
    if mode_from_toc(toc) == OpusMode::CeltOnly && toc >= 0x80 {
        let bits = (toc / 32) % 4;
        let trim: usize = if bits == 0 {
            4
        } else if bits == 1 {
            2
        } else if bits == 2 {
            1
        } else {
            0
        };
        let e = top.saturating_sub(2 * trim);
        return if e < 1 {
            1
        } else {
            e
        };
    }
    if mode_from_toc(toc) == OpusMode::Hybrid && bandwidth_from_toc(toc) == Bandwidth::Superwideband {
        return if top < 19 {
            top
        } else {
            19
        };
    }
    top
}

} // verus!

verus! {

/// The TOC configurations an encoder writes: SILK at narrow-, medium- or
/// wideband with 10, 20 or 40 ms frames; hybrid at super-wide- or fullband
/// with 10 or 20 ms frames; CELT from narrowband to fullband with 2.5 to
/// 20 ms frames.
pub open spec fn toc_params_valid(mode: OpusMode, frame_rate: i32, bandwidth: Bandwidth) -> bool {
    match mode {
        OpusMode::SilkOnly => (bandwidth == Bandwidth::Narrowband || bandwidth == Bandwidth::Mediumband
            || bandwidth == Bandwidth::Wideband) && (frame_rate == 100 || frame_rate == 50
            || frame_rate == 25),
        OpusMode::Hybrid => (bandwidth == Bandwidth::Superwideband || bandwidth == Bandwidth::Fullband)
            && (frame_rate == 100 || frame_rate == 50),
        OpusMode::CeltOnly => (bandwidth == Bandwidth::Narrowband || bandwidth == Bandwidth::Mediumband
            || bandwidth == Bandwidth::Wideband
            || bandwidth == Bandwidth::Superwideband || bandwidth == Bandwidth::Fullband) && (
        frame_rate == 400 || frame_rate == 200 || frame_rate == 100 || frame_rate == 50),
    }
}

/// The sampling rates Opus codes at.
pub open spec fn valid_sampling_rate(fs: i32) -> bool {
    fs == 8000 || fs == 12000 || fs == 16000 || fs == 24000 || fs == 48000
}

/// The bit formulas of `spec_gen_toc` as arithmetic on the configuration
/// fields.
proof fn lemma_toc_bits(b: i32, p: i32, c: i32)
    requires
        0 <= b < 4,
        0 <= p < 4,
        12 <= c < 16,
    ensures
        ((b << 5u32) | (p << 3u32)) as u8 == 32 * b + 8 * p,
        (0x80i32 | (b << 5u32) | (p << 3u32)) as u8 == 128 + 32 * b + 8 * p,
        (c << 3u32) as u8 == 8 * c,
{
    assert(((b << 5u32) | (p << 3u32)) as u8 == 32 * b + 8 * p) by (bit_vector)
        requires
            0 <= b < 4,
            0 <= p < 4,
    ;
    assert((0x80i32 | (b << 5u32) | (p << 3u32)) as u8 == 128 + 32 * b + 8 * p) by (bit_vector)
        requires
            0 <= b < 4,
            0 <= p < 4,
    ;
    assert((c << 3u32) as u8 == 8 * c) by (bit_vector)
        requires
            12 <= c < 16,
    ;
}

/// Setting the stereo flag of a byte whose bit 2 is clear adds 4.
proof fn lemma_stereo_bit(t: u8)
    requires
        t % 8 == 0,
    ensures
        t | 4u8 == t + 4,
{
    assert(t | 4u8 == t + 4) by (bit_vector)
        requires
            t % 8 == 0,
    ;
}

/// The TOC byte `gen_toc` writes for a valid configuration, as a number:
/// eight times the configuration plus 4 for stereo.
proof fn lemma_gen_toc_value(mode: OpusMode, frame_rate: i32, bandwidth: Bandwidth, channels: usize)
    requires
        toc_params_valid(mode, frame_rate, bandwidth),
    ensures
        ({
            let p = toc_period(frame_rate as int);
            let config: int = match mode {
                OpusMode::SilkOnly => 4 * (bandwidth.spec_code() - 1101) + p - 2,
                OpusMode::Hybrid => (if bandwidth == Bandwidth::Superwideband {
                    12int
                } else {
                    14
                }) + (if frame_rate >= 100 {
                    0int
                } else {
                    1
                }),
                OpusMode::CeltOnly => 16 + 4 * (if bandwidth.spec_code() < 1102 {
                    0int
                } else {
                    bandwidth.spec_code() - 1102
                }) + p,
            };
            spec_gen_toc(mode, frame_rate, bandwidth, channels) as int == 8 * config + (if channels
                == 2 {
                4int
            } else {
                0
            })
        }),
{
    reveal_with_fuel(toc_period, 5);
    let p = toc_period(frame_rate as int) as i32;
    let base: i32 = if bandwidth == Bandwidth::Superwideband {
        12
    } else {
        14
    };
    let off: i32 = if frame_rate >= 100 {
        0
    } else {
        1
    };
    let b: i32 = match mode {
        OpusMode::SilkOnly => (bandwidth.spec_code() - 1101) as i32,
        _ => if bandwidth.spec_code() < 1102 {
            0i32
        } else {
            (bandwidth.spec_code() - 1102) as i32
        },
    };
    let q: i32 = match mode {
        OpusMode::SilkOnly => (p - 2) as i32,
        _ => p,
    };
    lemma_toc_bits(b, q, (base + off) as i32);
    let t = spec_gen_toc(mode, frame_rate, bandwidth, 1);
    assert(t % 8 == 0);
    if channels == 2 {
        lemma_stereo_bit(t);
    }
}

/// The bandwidth a TOC byte written for `mode` and `bandwidth` declares:
/// the bandwidth itself, but for CELT's mediumband, which CELT has no
/// configuration for and writes as narrowband.
pub open spec fn toc_bandwidth(mode: OpusMode, bandwidth: Bandwidth) -> Bandwidth {
    if mode == OpusMode::CeltOnly && bandwidth == Bandwidth::Mediumband {
        Bandwidth::Narrowband
    } else {
        bandwidth
    }
}

/// The TOC byte `gen_toc` writes reads back as what it was given: its mode,
/// its bandwidth (CELT's mediumband as narrowband), its channel count (stereo exactly when two channels), the
/// frame duration of its frame rate, and at every Opus sampling rate the
/// frame size of that frame rate.
pub proof fn lemma_gen_toc_roundtrip(mode: OpusMode, frame_rate: i32, bandwidth: Bandwidth, channels: usize)
    requires
        toc_params_valid(mode, frame_rate, bandwidth),
    ensures
        spec_mode_from_toc(spec_gen_toc(mode, frame_rate, bandwidth, channels)) == mode,
        spec_bandwidth_from_toc(spec_gen_toc(mode, frame_rate, bandwidth, channels)) == toc_bandwidth(
            mode,
            bandwidth,
        ),
        spec_channels_from_toc(spec_gen_toc(mode, frame_rate, bandwidth, channels)) == (if channels
            == 2 {
            2int
        } else {
            1
        }),
        spec_frame_duration_ms(spec_gen_toc(mode, frame_rate, bandwidth, channels)) == (if frame_rate
            == 400 {
            2int
        } else {
            1000int / frame_rate as int
        }),
        forall|fs: i32|
            valid_sampling_rate(fs) ==> #[trigger] spec_samples_per_frame(
                spec_gen_toc(mode, frame_rate, bandwidth, channels),
                fs,
            ) == fs as int / frame_rate as int,
{
    lemma_gen_toc_value(mode, frame_rate, bandwidth, channels);
    reveal_with_fuel(toc_period, 5);
    let toc = spec_gen_toc(mode, frame_rate, bandwidth, channels);
    assert forall|fs: i32| valid_sampling_rate(fs) implies #[trigger] spec_samples_per_frame(toc, fs)
        == fs as int / frame_rate as int by {
        reveal(spec_samples_per_frame);
        let a = ((toc / 8) % 4) as int;
        let m = pow2_small(a);
        assert(1 <= m <= 8);
        assert(vstd::wrapping::i32_specs::signed_crop(fs * m) == fs * m);
    }
}

} // verus!
