//! Encoder rate-control decisions: the equivalent
//! bitrate, the SILK/CELT mode threshold, the SILK share of a hybrid bitrate
//! and the voice estimate.

use vstd::prelude::*;
use crate::{tdiv, Application, Bandwidth};

verus! {

/// The bitrate after the frame-rate overhead: above 50 frames per second,
/// each extra frame costs `40 * channels + 20` bits.
pub open spec fn equiv_frame_step(bitrate: int, ch: int, frame_rate: int) -> int {
    if frame_rate > 50 {
        bitrate - (40 * ch + 20) * (frame_rate - 50)
    } else {
        bitrate
    }
}

/// Constant bitrate costs a twelfth.
pub open spec fn equiv_vbr_step(e: int, vbr: bool) -> int {
    if !vbr {
        e - tdiv(e, 12)
    } else {
        e
    }
}

/// Scaling by the complexity: `(90 + complexity)` percent.
pub open spec fn equiv_complexity_step(e: int, complexity: int) -> int {
    tdiv(e * (90 + complexity), 100)
}

/// Packet loss costs `loss / (12 * loss + 20)` of the rate.
pub open spec fn equiv_loss_step(e: int, loss: int) -> int {
    if loss > 0 {
        e - tdiv(e * loss, 12 * loss + 20)
    } else {
        e
    }
}

/// The equivalent bitrate the encoder compares against its mode and bandwidth
/// thresholds, with the channel count read as the encoder's `i32`.
pub open spec fn spec_equiv_rate(
    bitrate: i32,
    channels: usize,
    frame_rate: i32,
    vbr: bool,
    complexity: i32,
    loss: i32,
) -> int {
    let ch = (channels as i32) as int;
    let e1 = equiv_frame_step(bitrate as int, ch, frame_rate as int);
    let e2 = equiv_vbr_step(e1, vbr);
    let e3 = equiv_complexity_step(e2, complexity as int);
    equiv_loss_step(e3, loss as int)
}

/// Whether `x` fits an `i32`.
pub open spec fn fits_i32(x: int) -> bool {
    i32::MIN <= x <= i32::MAX
}

/// Every intermediate value of the equivalent-rate computation fits an
/// `i32`: the inputs on which it does not overflow.
pub open spec fn equiv_rate_fits(
    bitrate: i32,
    channels: usize,
    frame_rate: i32,
    vbr: bool,
    complexity: i32,
    loss: i32,
) -> bool {
    let ch = (channels as i32) as int;
    let e1 = equiv_frame_step(bitrate as int, ch, frame_rate as int);
    let e2 = equiv_vbr_step(e1, vbr);
    let e3 = equiv_complexity_step(e2, complexity as int);
    &&& (frame_rate > 50 ==> {
        &&& fits_i32(40 * ch)
        &&& fits_i32(40 * ch + 20)
        &&& fits_i32((40 * ch + 20) * (frame_rate - 50))
        &&& fits_i32(e1)
    })
    &&& fits_i32(90 + complexity)
    &&& fits_i32(e2 * (90 + complexity))
    &&& (loss > 0 ==> {
        &&& fits_i32(12 * loss)
        &&& fits_i32(12 * loss + 20)
        &&& fits_i32(e3 * loss)
    })
}

/// The loss reduction never exceeds the rate it reduces.
proof fn lemma_loss_step_bounds(e: int, loss: int)
    requires
        loss > 0,
    ensures
        e >= 0 ==> 0 <= tdiv(e * loss, 12 * loss + 20) <= e,
        e < 0 ==> e <= tdiv(e * loss, 12 * loss + 20) <= 0,
{
    let d = 12 * loss + 20;
    if e >= 0 {
        assert(0 <= (e * loss) / d <= e) by (nonlinear_arith)
            requires
                e >= 0,
                loss > 0,
                d == 12 * loss + 20,
        ;
    } else {
        assert(e * loss < 0) by (nonlinear_arith)
            requires
                e < 0,
                loss > 0,
        ;
        assert(0 <= (-(e * loss)) / d <= -e) by (nonlinear_arith)
            requires
                e < 0,
                loss > 0,
                d == 12 * loss + 20,
        ;
    }
}

/// The equivalent bitrate of an encoder configuration: the bitrate less the per-frame overhead, less a
/// twelfth for CBR, scaled by the complexity and reduced for packet loss.
pub fn compute_equiv_rate(
    bitrate: i32,
    channels: usize,
    frame_rate: i32,
    vbr: bool,
    complexity: i32,
    loss: i32,
) -> (r: i32)
    requires
        equiv_rate_fits(bitrate, channels, frame_rate, vbr, complexity, loss),
    ensures
        r == spec_equiv_rate(bitrate, channels, frame_rate, vbr, complexity, loss),
{
    let mut equiv = bitrate;
    if frame_rate > 50 {
        let ch = channels as i32;
        equiv -= (40 * ch + 20) * (frame_rate - 50);
    }
    if !vbr {
        equiv -= equiv / 12;
    }
    equiv = equiv * (90 + complexity) / 100;
    if loss > 0 {
        proof {
            lemma_loss_step_bounds(equiv as int, loss as int);
        }
        equiv -= equiv * loss / (12 * loss + 20);
    }
    equiv
}

/// The voice-probability weight of the mode threshold:
/// `voice_est^2 * (mode_voice - mode_music) / 2^14`.
pub open spec fn mode_offset(channels: usize, voice_est: i32) -> int {
    voice_est * voice_est * (if channels == 1 {
        54000int
    } else {
        34000
    }) / 16384
}

/// The equivalent rate at and above which the encoder picks CELT over
/// SILK: interpolated between music (10 kb/s) and voice (64 kb/s mono,
/// 44 kb/s stereo), 8 kb/s higher for VoIP, with 4 kb/s of hysteresis
/// toward the previous mode; 0 for restricted low delay.
pub open spec fn spec_mode_threshold(
    application: Application,
    channels: usize,
    prev_was_celt: bool,
    has_prev_mode: bool,
    voice_est: i32,
) -> int {
    if application == Application::RestrictedLowDelay {
        0
    } else {
        10000 + mode_offset(channels, voice_est) + (if application == Application::Voip {
            8000int
        } else {
            0
        }) + (if !has_prev_mode {
            0int
        } else if prev_was_celt {
            -4000
        } else {
            4000
        })
    }
}

/// An arithmetic right shift of a non-negative value divides it.
proof fn lemma_shr_nonneg(x: i32)
    requires
        x >= 0,
    ensures
        x >> 14u32 == x / 16384,
        x >> 8u32 == x / 256,
{
    assert(x >> 14u32 == x / 16384) by (bit_vector)
        requires
            x >= 0,
    ;
    assert(x >> 8u32 == x / 256) by (bit_vector)
        requires
            x >= 0,
    ;
}

/// The SILK/CELT mode threshold, with the voice-estimate interpolation and
/// hysteresis.
pub fn compute_mode_threshold(
    application: Application,
    channels: usize,
    prev_was_celt: bool,
    has_prev_mode: bool,
    voice_est: i32,
) -> (r: i32)
    requires
        voice_est * voice_est * (if channels == 1 {
            54000int
        } else {
            34000
        }) <= i32::MAX,
    ensures
        r == spec_mode_threshold(application, channels, prev_was_celt, has_prev_mode, voice_est),
{
    let mode_voice: i32 = if channels == 1 {
        64000
    } else {
        44000
    };
    let mode_music: i32 = 10000;
    let diff = mode_voice - mode_music;
    assert(0 <= voice_est * voice_est <= voice_est * voice_est * diff) by (nonlinear_arith)
        requires
            diff >= 1,
    ;
    let sq = voice_est * voice_est;
    let prod = sq * diff;
    proof {
        lemma_shr_nonneg(prod);
    }
    let offset = prod >> 14u32;
    assert(offset <= 131072);
    let mut threshold = mode_music + offset;
    if application == Application::Voip {
        threshold += 8000;
    }
    if has_prev_mode {
        if prev_was_celt {
            threshold -= 4000;
        } else {
            threshold += 4000;
        }
    }
    if application == Application::RestrictedLowDelay {
        threshold = 0;
    }
    threshold
}

/// The total bitrates of the hybrid SILK-rate table (bits per second).
pub open spec fn hybrid_rate_point(i: int) -> int {
    if i <= 0 {
        0
    } else if i == 1 {
        12000
    } else if i == 2 {
        16000
    } else if i == 3 {
        20000
    } else if i == 4 {
        24000
    } else if i == 5 {
        32000
    } else {
        64000
    }
}

/// The SILK bitrate the table gives at each point (the same for 10 ms and
/// 20 ms frames).
pub open spec fn hybrid_silk_point(i: int) -> int {
    if i <= 0 {
        0
    } else if i == 1 {
        10000
    } else if i == 2 {
        13500
    } else if i == 3 {
        16000
    } else if i == 4 {
        18000
    } else if i == 5 {
        22000
    } else {
        38000
    }
}

/// The table segment a total bitrate below 64 kb/s falls in: the first point
/// above it.
pub open spec fn hybrid_segment(rate: int) -> int {
    if rate < 12000 {
        1
    } else if rate < 16000 {
        2
    } else if rate < 20000 {
        3
    } else if rate < 24000 {
        4
    } else if rate < 32000 {
        5
    } else {
        6
    }
}

/// The SILK share of a hybrid bitrate: linear interpolation in the table,
/// half of the excess above 64 kb/s, 100 b/s more for CBR and 300 b/s more
/// for superwideband.
pub open spec fn spec_silk_rate_for_hybrid(rate_bps: i32, bandwidth: Bandwidth, vbr: bool) -> int {
    let r = rate_bps as int;
    let base = if r >= 64000 {
        38000 + tdiv(r - 64000, 2)
    } else {
        let i = hybrid_segment(r);
        let x0 = hybrid_rate_point(i - 1);
        let x1 = hybrid_rate_point(i);
        tdiv(hybrid_silk_point(i - 1) * (x1 - r) + hybrid_silk_point(i) * (r - x0), x1 - x0)
    };
    base + (if !vbr {
        100int
    } else {
        0
    }) + (if bandwidth == Bandwidth::Superwideband {
        300int
    } else {
        0
    })
}

/// A bitrate between two consecutive table points lies in the segment
/// ending at the upper one.
proof fn lemma_hybrid_segment(rate: int, i: int)
    requires
        1 <= i <= 6,
        i == 1 || hybrid_rate_point(i - 1) <= rate,
        rate < hybrid_rate_point(i),
    ensures
        hybrid_segment(rate) == i,
{
}

/// Row `i` of the hybrid SILK-rate table: (total rate, SILK rate for 10 ms,
/// SILK rate for 20 ms).
fn hybrid_rate_row(i: usize) -> (row: (i32, i32, i32))
    requires
        i < 7,
    ensures
        row.0 == hybrid_rate_point(i as int),
        row.1 == hybrid_silk_point(i as int),
        row.2 == hybrid_silk_point(i as int),
{
    if i == 0 {
        (0, 0, 0)
    } else if i == 1 {
        (12000, 10000, 10000)
    } else if i == 2 {
        (16000, 13500, 13500)
    } else if i == 3 {
        (20000, 16000, 16000)
    } else if i == 4 {
        (24000, 18000, 18000)
    } else if i == 5 {
        (32000, 22000, 22000)
    } else {
        (64000, 38000, 38000)
    }
}

/// The SILK bitrate of a hybrid frame at total rate `rate_bps`
/// in a hybrid frame.
pub fn compute_silk_rate_for_hybrid(rate_bps: i32, bandwidth: Bandwidth, frame20ms: bool, vbr: bool) -> (r: i32)
    requires
        rate_bps >= -214748,
    ensures
        r == spec_silk_rate_for_hybrid(rate_bps, bandwidth, vbr),
{
    let n: usize = 7;
    let mut i: usize = 1;
    while i < n && hybrid_rate_row(i).0 <= rate_bps
        invariant
            1 <= i <= n,
            n == 7,
            hybrid_rate_point(i - 1) <= rate_bps || i == 1,
        decreases n - i,
    {
        i += 1;
    }
    let mut silk_rate = if i == n {
        let (x_last, r10_last, r20_last) = hybrid_rate_row(n - 1);
        let base = if frame20ms {
            r20_last
        } else {
            r10_last
        };
        base + (rate_bps - x_last) / 2
    } else {
        let (x0, lo10, lo20) = hybrid_rate_row(i - 1);
        let (x1, hi10, hi20) = hybrid_rate_row(i);
        proof {
            lemma_hybrid_segment(rate_bps as int, i as int);
        }
        let (lo, hi) = if frame20ms {
            (lo20, hi20)
        } else {
            (lo10, hi10)
        };
        assert(0 <= lo * (x1 - rate_bps) <= 38000 * 64000) by (nonlinear_arith)
            requires
                0 <= lo <= 38000,
                0 <= x1 - rate_bps <= 64000 + 214748,
                lo == 0 || x1 - rate_bps <= 64000,
        ;
        assert(-10000 * 214748 <= hi * (rate_bps - x0) <= 38000 * 64000) by (nonlinear_arith)
            requires
                10000 <= hi <= 38000,
                -214748 <= rate_bps - x0 <= 64000,
                hi == 10000 || rate_bps - x0 >= 0,
        ;
        (lo * (x1 - rate_bps) + hi * (rate_bps - x0)) / (x1 - x0)
    };
    if !vbr {
        silk_rate += 100;
    }
    if bandwidth == Bandwidth::Superwideband {
        silk_rate += 300;
    }
    silk_rate
}

/// At each point of its table the hybrid SILK rate is the table's SILK
/// rate, for VBR below superwideband; above the table it grows by half of
/// the excess.
pub proof fn lemma_silk_rate_table(i: int, bandwidth: Bandwidth, excess: i32)
    requires
        1 <= i <= 6,
        bandwidth != Bandwidth::Superwideband,
        0 <= excess <= i32::MAX - 64000,
    ensures
        spec_silk_rate_for_hybrid(hybrid_rate_point(i) as i32, bandwidth, true) == hybrid_silk_point(i),
        spec_silk_rate_for_hybrid((64000 + excess) as i32, bandwidth, true) == 38000 + excess / 2,
{
    let r = hybrid_rate_point(i) as i32;
    if i < 6 {
        assert(hybrid_segment(r as int) == i + 1);
        let x0 = hybrid_rate_point(i);
        let x1 = hybrid_rate_point(i + 1);
        let lo = hybrid_silk_point(i);
        assert(lo * (x1 - x0) + hybrid_silk_point(i + 1) * (r - x0) == lo * (x1 - x0));
        assert((lo * (x1 - x0)) / (x1 - x0) == lo) by (nonlinear_arith)
            requires
                x1 - x0 > 0,
        ;
    }
}

/// The voice estimate (0..=127) that weighs the mode and bandwidth
/// thresholds: from the analysed voice ratio when it is known (capped at
/// 115 for audio), else the application's default.
pub open spec fn spec_voice_est(voice_ratio: i32, application: Application) -> int {
    if voice_ratio >= 0 {
        let v = voice_ratio * 327 / 256;
        if application == Application::Audio && v > 115 {
            115
        } else {
            v
        }
    } else {
        match application {
            Application::Voip => 115,
            Application::Audio => 48,
            Application::RestrictedLowDelay => 0,
        }
    }
}

/// The voice estimate of an encoder with analysed voice ratio
/// `voice_ratio` (negative when unknown) and the given application
/// (weighing the mode and bandwidth thresholds).
pub fn compute_voice_est(voice_ratio: i32, application: Application) -> (r: i32)
    requires
        voice_ratio * 327 <= i32::MAX,
    ensures
        r == spec_voice_est(voice_ratio, application),
{
    if voice_ratio >= 0 {
        let prod = voice_ratio * 327;
        proof {
            lemma_shr_nonneg(prod);
        }
        let mut v = prod >> 8u32;
        if application == Application::Audio {
            v = if v < 115 {
                v
            } else {
                115
            };
        }
        v
    } else {
        match application {
            Application::Voip => 115,
            Application::Audio => 48,
            Application::RestrictedLowDelay => 0,
        }
    }
}

} // verus!

verus! {

/// The SILK share at VBR below superwideband: the table interpolation, or
/// half the excess above 64 kb/s.
proof fn lemma_silk_extras(r: i32, bandwidth: Bandwidth, vbr: bool)
    ensures
        spec_silk_rate_for_hybrid(r, bandwidth, vbr) == spec_silk_rate_for_hybrid(r, Bandwidth::Fullband, true)
            + (if !vbr {
            100int
        } else {
            0
        }) + (if bandwidth == Bandwidth::Superwideband {
            300int
        } else {
            0
        }),
{
}

/// Linear interpolation between (x0, lo) and (x1, hi), rounded down, lies
/// between `lo` and `hi`, grows with `r`, and stays at most `r` when the
/// segment starts at or below the diagonal and rises no faster than it.
proof fn lemma_interp(lo: int, hi: int, x0: int, x1: int, r: int, r2: int)
    requires
        0 <= lo <= hi,
        0 <= x0 <= r <= r2 <= x1,
        x0 < x1,
        lo <= x0,
        hi - lo <= x1 - x0,
    ensures
        lo <= (lo * (x1 - r) + hi * (r - x0)) / (x1 - x0) <= hi,
        (lo * (x1 - r) + hi * (r - x0)) / (x1 - x0) <= (lo * (x1 - r2) + hi * (r2 - x0)) / (x1 - x0),
        (lo * (x1 - r) + hi * (r - x0)) / (x1 - x0) <= r,
{
    let d = x1 - x0;
    let n = lo * (x1 - r) + hi * (r - x0);
    let n2 = lo * (x1 - r2) + hi * (r2 - x0);
    assert(n == lo * d + (hi - lo) * (r - x0)) by (nonlinear_arith)
        requires
            d == x1 - x0,
            n == lo * (x1 - r) + hi * (r - x0),
    ;
    assert(n2 == lo * d + (hi - lo) * (r2 - x0)) by (nonlinear_arith)
        requires
            d == x1 - x0,
            n2 == lo * (x1 - r2) + hi * (r2 - x0),
    ;
    assert(lo * d <= n <= n2 <= hi * d) by (nonlinear_arith)
        requires
            n == lo * d + (hi - lo) * (r - x0),
            n2 == lo * d + (hi - lo) * (r2 - x0),
            0 <= r - x0 <= r2 - x0 <= d,
            lo <= hi,
    ;
    assert(n <= r * d) by (nonlinear_arith)
        requires
            n == lo * d + (hi - lo) * (r - x0),
            lo <= x0,
            hi - lo <= d,
            0 <= r - x0,
            d > 0,
    ;
    assert(lo <= n / d <= hi) by (nonlinear_arith)
        requires
            lo * d <= n <= hi * d,
            d > 0,
    ;
    assert(n / d <= n2 / d) by (nonlinear_arith)
        requires
            n <= n2,
            d > 0,
    ;
    assert(n / d <= r) by (nonlinear_arith)
        requires
            n <= r * d,
            d > 0,
    ;
}

/// Where a rate below 64 kb/s falls in the table: between the SILK rates of
/// its segment's ends, at most the rate itself, and growing within the
/// segment.
proof fn lemma_silk_segment(r: i32, r2: i32)
    requires
        0 <= r <= r2 < 64000,
        hybrid_segment(r as int) == hybrid_segment(r2 as int),
    ensures
        hybrid_silk_point(hybrid_segment(r as int) - 1) <= spec_silk_rate_for_hybrid(
            r,
            Bandwidth::Fullband,
            true,
        ) <= hybrid_silk_point(hybrid_segment(r as int)),
        spec_silk_rate_for_hybrid(r, Bandwidth::Fullband, true) <= r,
        spec_silk_rate_for_hybrid(r, Bandwidth::Fullband, true) <= spec_silk_rate_for_hybrid(
            r2,
            Bandwidth::Fullband,
            true,
        ),
{
    let i = hybrid_segment(r as int);
    lemma_interp(
        hybrid_silk_point(i - 1),
        hybrid_silk_point(i),
        hybrid_rate_point(i - 1),
        hybrid_rate_point(i),
        r as int,
        r2 as int,
    );
}

/// The SILK share of a hybrid bitrate never falls as the bitrate grows, and
/// at VBR below superwideband it is never above the bitrate.
pub proof fn lemma_silk_rate_monotone(r1: i32, r2: i32, bandwidth: Bandwidth, vbr: bool)
    requires
        0 <= r1 <= r2,
    ensures
        spec_silk_rate_for_hybrid(r1, bandwidth, vbr) <= spec_silk_rate_for_hybrid(r2, bandwidth, vbr),
        vbr && bandwidth != Bandwidth::Superwideband ==> spec_silk_rate_for_hybrid(r2, bandwidth, vbr)
            <= r2,
{
    lemma_silk_extras(r1, bandwidth, vbr);
    lemma_silk_extras(r2, bandwidth, vbr);
    if r2 < 64000 {
        lemma_silk_segment(r2, r2);
        if hybrid_segment(r1 as int) == hybrid_segment(r2 as int) {
            lemma_silk_segment(r1, r2);
        } else {
            lemma_silk_segment(r1, r1);
        }
    } else if r1 < 64000 {
        lemma_silk_segment(r1, r1);
    }
}

} // verus!

verus! {

/// Rust's `/` by a positive divisor never falls as the dividend grows.
proof fn lemma_tdiv_monotone(x: int, y: int, d: int)
    requires
        x <= y,
        d > 0,
    ensures
        tdiv(x, d) <= tdiv(y, d),
{
    if x >= 0 {
        assert(x / d <= y / d) by (nonlinear_arith)
            requires
                0 <= x <= y,
                d > 0,
        ;
    } else if y >= 0 {
        assert(0 <= (-x) / d && 0 <= y / d) by (nonlinear_arith)
            requires
                x < 0 <= y,
                d > 0,
        ;
    } else {
        assert((-y) / d <= (-x) / d) by (nonlinear_arith)
            requires
                0 < -y <= -x,
                d > 0,
        ;
    }
}

/// Taking a fraction `l / d` (below one) off a rate, rounded toward zero,
/// never lowers a larger rate below a smaller one, and never raises a rate
/// above zero or above itself.
proof fn lemma_reduce_monotone(e1: int, e2: int, l: int, d: int)
    requires
        e1 <= e2,
        0 <= l < d,
    ensures
        e1 - tdiv(e1 * l, d) <= e2 - tdiv(e2 * l, d),
        e2 - tdiv(e2 * l, d) <= (if e2 > 0 {
            e2
        } else {
            0
        }),
{
    let a1 = e1 * l;
    let a2 = e2 * l;
    if e1 >= 0 {
        assert(0 <= a1 <= a2 && a2 - a1 <= (e2 - e1) * d) by (nonlinear_arith)
            requires
                0 <= e1 <= e2,
                0 <= l < d,
                a1 == e1 * l,
                a2 == e2 * l,
        ;
        assert(a2 / d - a1 / d <= e2 - e1) by (nonlinear_arith)
            requires
                0 <= a1 <= a2,
                a2 - a1 <= (e2 - e1) * d,
                d > 0,
        ;
        assert(a2 / d <= e2) by (nonlinear_arith)
            requires
                0 <= a2,
                a2 == e2 * l,
                0 <= l < d,
                e2 >= 0,
        ;
    } else if e2 < 0 {
        let b1 = -a1;
        let b2 = -a2;
        assert(0 <= b2 <= b1 && b1 - b2 <= (e2 - e1) * d) by (nonlinear_arith)
            requires
                e1 <= e2 < 0,
                0 <= l < d,
                b1 == -(e1 * l),
                b2 == -(e2 * l),
        ;
        assert(b1 / d - b2 / d <= e2 - e1) by (nonlinear_arith)
            requires
                0 <= b2 <= b1,
                b1 - b2 <= (e2 - e1) * d,
                d > 0,
        ;
        assert(b2 / d <= -e2) by (nonlinear_arith)
            requires
                0 <= b2,
                b2 == -(e2 * l),
                0 <= l < d,
                e2 < 0,
        ;
    } else {
        let b1 = -a1;
        assert(0 <= b1 && 0 <= a2 && b1 + a2 <= (e2 - e1) * d) by (nonlinear_arith)
            requires
                e1 < 0 <= e2,
                0 <= l < d,
                b1 == -(e1 * l),
                a2 == e2 * l,
        ;
        assert(b1 / d + a2 / d <= e2 - e1) by (nonlinear_arith)
            requires
                0 <= b1,
                0 <= a2,
                b1 + a2 <= (e2 - e1) * d,
                d > 0,
        ;
        assert(a2 / d <= e2) by (nonlinear_arith)
            requires
                0 <= a2,
                a2 == e2 * l,
                0 <= l < d,
                e2 >= 0,
        ;
    }
}

/// The equivalent bitrate never falls as the bitrate grows, and is never
/// above the bitrate: for a bitrate up to 2 Mb/s, one or two channels, up
/// to 400 frames per second, complexity 0 to 10 and loss 0 to 100 percent.
pub proof fn lemma_equiv_rate_monotone(
    b1: i32,
    b2: i32,
    channels: usize,
    frame_rate: i32,
    vbr: bool,
    complexity: i32,
    loss: i32,
)
    requires
        0 <= b1 <= b2 <= 2_000_000,
        channels == 1 || channels == 2,
        1 <= frame_rate <= 400,
        0 <= complexity <= 10,
        0 <= loss <= 100,
    ensures
        spec_equiv_rate(b1, channels, frame_rate, vbr, complexity, loss) <= spec_equiv_rate(
            b2,
            channels,
            frame_rate,
            vbr,
            complexity,
            loss,
        ),
        spec_equiv_rate(b2, channels, frame_rate, vbr, complexity, loss) <= b2,
{
    let ch = (channels as i32) as int;
    let f1 = equiv_frame_step(b1 as int, ch, frame_rate as int);
    let f2 = equiv_frame_step(b2 as int, ch, frame_rate as int);
    assert(f1 <= f2 <= b2);
    let v1 = equiv_vbr_step(f1, vbr);
    let v2 = equiv_vbr_step(f2, vbr);
    if !vbr {
        lemma_reduce_monotone(f1, f2, 1, 12);
        assert(f1 * 1 == f1 && f2 * 1 == f2);
    }
    assert(v1 <= v2);
    assert(v2 <= if f2 > 0 {
        f2
    } else {
        0
    });
    let k = 90 + complexity as int;
    let c1 = equiv_complexity_step(v1, complexity as int);
    let c2 = equiv_complexity_step(v2, complexity as int);
    assert(v1 * k <= v2 * k) by (nonlinear_arith)
        requires
            v1 <= v2,
            k > 0,
    ;
    lemma_tdiv_monotone(v1 * k, v2 * k, 100);
    if v2 > 0 {
        assert(v2 * k <= v2 * 100) by (nonlinear_arith)
            requires
                v2 > 0,
                k <= 100,
        ;
        lemma_tdiv_monotone(v2 * k, v2 * 100, 100);
        assert(tdiv(v2 * 100, 100) == v2) by (nonlinear_arith)
            requires
                v2 > 0,
        ;
    } else {
        assert(v2 * k <= 0) by (nonlinear_arith)
            requires
                v2 <= 0,
                k > 0,
        ;
        lemma_tdiv_monotone(v2 * k, 0, 100);
    }
    assert(c1 <= c2);
    assert(c2 <= b2);
    if loss > 0 {
        lemma_reduce_monotone(c1, c2, loss as int, 12 * loss + 20);
    }
}

} // verus!
