//! The decoder's per-frame decisions around its coded layers: which decoder
//! takes a packet, when a frame carries a redundant CELT frame and how many
//! bytes it takes, when the CELT state is reset or faded out across a mode
//! change, and how a lost frame is concealed or recovered.

use vstd::prelude::*;
use crate::decoder::{silk_frames_per_frame, silk_internal_rate, spec_silk_internal_rate};
use crate::toc::{bandwidth_from_toc, mode_from_toc, spec_bandwidth_from_toc, spec_mode_from_toc};
use crate::{Bandwidth, OpusMode};

verus! {

/// Whether a packet of `packet_channels` channels goes to the auxiliary
/// decoder of a stream of `channels` channels: when the counts differ, but
/// for a mono packet in a stereo stream, which stays on the primary decoder
/// so that its state runs on across the switch.
pub fn uses_aux_decoder(packet_channels: usize, channels: usize) -> (r: bool)
    ensures
        r == (packet_channels != channels && !(packet_channels == 1 && channels == 2)),
{
    let mono_in_stereo = packet_channels == 1 && channels == 2;
    packet_channels != channels && !mono_in_stereo
}

/// Whether `extra` more bits fit after the `tell` bits read of a frame of
/// `plen` bytes.
fn bits_remain(tell: i32, extra: i32, plen: usize) -> (r: bool)
    requires
        0 <= extra <= 64,
    ensures
        r == (tell + extra <= plen * 8),
{
    let want: i64 = tell as i64 + extra as i64;
    if want <= 0 {
        true
    } else {
        let need: u64 = (want as u64 + 7) / 8;
        assert(need * 8 >= want && (need - 1) * 8 < want) by (nonlinear_arith)
            requires
                need == (want + 7) / 8,
                want > 0,
        ;
        let fits = need <= plen as u64;
        assert(fits == (want <= plen * 8)) by (nonlinear_arith)
            requires
                fits == (need <= plen),
                need * 8 >= want,
                (need - 1) * 8 < want,
                plen >= 0,
        ;
        fits
    }
}

/// Whether a SILK-only frame may carry an implicit redundant CELT frame:
/// only at 48 kHz output, and only when at least 17 bits remain after the
/// `tell` bits the SILK layer read of the frame's `plen` bytes.
pub fn silk_redundancy_possible(sampling_rate: i32, tell: i32, plen: usize) -> (r: bool)
    ensures
        r == (sampling_rate == 48000 && tell + 17 <= plen * 8),
{
    sampling_rate == 48000 && bits_remain(tell, 17, plen)
}

/// The bytes of the implicit redundant frame at the end of a SILK-only
/// frame of `plen` bytes, once `tell` bits are read: the bytes after the
/// last one the range decoder touched, kept only when they are at least 2
/// and leave the SILK layer at least one byte.
pub open spec fn spec_silk_redundant_bytes(tell: int, plen: int) -> Option<int> {
    let r = plen - (tell + 7) / 8;
    if 2 <= r < plen {
        Some(r)
    } else {
        None
    }
}

/// The bytes of the implicit redundant frame of a SILK-only frame of
/// `plen` bytes after `tell` bits, or `None` when it carries none.
pub fn silk_redundant_bytes(tell: i32, plen: usize) -> (r: Option<usize>)
    requires
        0 <= tell,
    ensures
        r is Some <==> spec_silk_redundant_bytes(tell as int, plen as int) is Some,
        r is Some ==> r.unwrap() == spec_silk_redundant_bytes(tell as int, plen as int).unwrap(),
{
    let used: u64 = (tell as u64 + 7) / 8;
    if used == 0 || used >= plen as u64 {
        None
    } else {
        let r: usize = plen - used as usize;
        if r < 2 {
            None
        } else {
            Some(r)
        }
    }
}

/// Whether a hybrid frame may signal a redundant CELT frame: when at least
/// 37 bits remain after the `tell` bits the SILK layer read of the frame's
/// `plen` bytes.
pub fn hybrid_redundancy_possible(tell: i32, plen: usize) -> (r: bool)
    ensures
        r == (tell + 37 <= plen * 8),
{
    bits_remain(tell, 37, plen)
}

/// The split of a hybrid frame of `plen` bytes that signals a redundant
/// frame of `code + 2` bytes, with `tell` bits read: the redundant bytes at
/// the end and the CELT layer before them, kept only when the redundant
/// frame fits in the frame and the CELT layer still holds the bits read.
pub open spec fn spec_hybrid_redundancy(code: int, tell: int, plen: int) -> Option<(int, int)> {
    let red = code + 2;
    if red <= plen && (plen - red) * 8 >= tell {
        Some((red, plen - red))
    } else {
        None
    }
}

/// The (redundant bytes, CELT layer bytes) of a hybrid frame of `plen`
/// bytes whose redundancy code is `code`, or `None` when the signalled
/// redundant frame is dropped.
pub fn hybrid_redundancy(code: u32, tell: i32, plen: usize) -> (r: Option<(usize, usize)>)
    requires
        code < 256,
    ensures
        r is Some <==> spec_hybrid_redundancy(code as int, tell as int, plen as int) is Some,
        r is Some ==> ({
            let (red, rest) = spec_hybrid_redundancy(code as int, tell as int, plen as int).unwrap();
            r.unwrap().0 == red && r.unwrap().1 == rest
        }),
{
    let red: usize = code as usize + 2;
    if red > plen {
        return None;
    }
    let rest: usize = plen - red;
    if bits_remain(tell, 0, rest) {
        Some((red, rest))
    } else {
        None
    }
}

/// Whether the CELT decoder is reset on entering a frame of `mode`: after a
/// frame of another mode, unless that frame's SILK→CELT redundant frame
/// already primed it.
pub open spec fn spec_celt_reset(prev_mode: Option<OpusMode>, mode: OpusMode, primed: bool) -> bool {
    prev_mode is Some && prev_mode.unwrap() != mode && !primed
}

/// Whether the CELT decoder is reset on entering a frame of `mode`, after a
/// frame of `prev_mode` (none before the first frame) that left it `primed`.
pub fn celt_reset_on_entry(prev_mode: Option<OpusMode>, mode: OpusMode, primed: bool) -> (r: bool)
    ensures
        r == spec_celt_reset(prev_mode, mode, primed),
{
    match prev_mode {
        Some(pm) => pm != mode && !primed,
        None => false,
    }
}

/// Whether a frame leaves the CELT decoder primed for the next one: when it
/// carried a redundant frame for a SILK→CELT switch.
pub open spec fn spec_celt_primed(redundancy: bool, celt_to_silk: bool) -> bool {
    redundancy && !celt_to_silk
}

/// Whether a frame with (`redundancy`, `celt_to_silk`) leaves the CELT
/// decoder primed.
pub fn celt_primed(redundancy: bool, celt_to_silk: bool) -> (r: bool)
    ensures
        r == spec_celt_primed(redundancy, celt_to_silk),
{
    redundancy && !celt_to_silk
}

/// Whether a SILK-only frame adds the tail of a CELT silence frame, fading
/// out the high band of a preceding hybrid frame: at 48 kHz, after a hybrid
/// frame, unless a CELT→SILK redundant frame takes over from a CELT state
/// that was primed.
pub open spec fn spec_hybrid_fade_out(
    sampling_rate: i32,
    prev_mode: Option<OpusMode>,
    redundancy: bool,
    celt_to_silk: bool,
    primed: bool,
) -> bool {
    sampling_rate == 48000 && prev_mode == Some(OpusMode::Hybrid) && !(redundancy && celt_to_silk
        && primed)
}

/// Whether a SILK-only frame after a frame of `prev_mode` fades out the
/// hybrid high band.
pub fn hybrid_fade_out(
    sampling_rate: i32,
    prev_mode: Option<OpusMode>,
    redundancy: bool,
    celt_to_silk: bool,
    primed: bool,
) -> (r: bool)
    ensures
        r == spec_hybrid_fade_out(sampling_rate, prev_mode, redundancy, celt_to_silk, primed),
{
    let after_hybrid = match prev_mode {
        Some(OpusMode::Hybrid) => true,
        _ => false,
    };
    sampling_rate == 48000 && after_hybrid && !(redundancy && celt_to_silk && primed)
}

/// A SILK→CELT redundant frame primes the CELT decoder: the frame after one
/// that carried it enters CELT without a reset, whatever modes the two
/// frames have; after a frame without it, a change of mode resets CELT.
pub proof fn lemma_redundancy_primes_celt(
    prev: OpusMode,
    mode: OpusMode,
    redundancy: bool,
    celt_to_silk: bool,
)
    ensures
        redundancy && !celt_to_silk ==> !spec_celt_reset(
            Some(prev),
            mode,
            spec_celt_primed(redundancy, celt_to_silk),
        ),
        !redundancy ==> spec_celt_reset(
            Some(prev),
            mode,
            spec_celt_primed(redundancy, celt_to_silk),
        ) == (prev != mode),
        !spec_celt_reset(None, mode, spec_celt_primed(redundancy, celt_to_silk)),
{
}

/// The redundant frame never takes a whole frame: what is left for the
/// coded layer before it is never empty for a SILK-only frame, and for a
/// hybrid frame still holds the bits already read; the two parts make up
/// the frame.
pub proof fn lemma_redundancy_split(tell: int, code: int, plen: int)
    requires
        0 <= tell,
        0 <= code < 256,
        0 <= plen,
    ensures
        spec_silk_redundant_bytes(tell, plen) is Some ==> {
            let r = spec_silk_redundant_bytes(tell, plen).unwrap();
            &&& 2 <= r < plen
            &&& (plen - r) * 8 >= tell
        },
        spec_hybrid_redundancy(code, tell, plen) is Some ==> {
            let (red, rest) = spec_hybrid_redundancy(code, tell, plen).unwrap();
            &&& 2 <= red <= 257
            &&& red + rest == plen
            &&& rest * 8 >= tell
        },
{
    let u = (tell + 7) / 8;
    assert(u * 8 >= tell) by (nonlinear_arith)
        requires
            u == (tell + 7) / 8,
            tell >= 0,
    ;
}

/// The length in milliseconds of a lost frame of `frame_size` samples at
/// `sampling_rate` Hz, at least 1.
pub open spec fn spec_lost_frame_ms(frame_size: int, sampling_rate: int) -> int {
    let ms = frame_size * 1000 / sampling_rate;
    if ms < 1 {
        1
    } else {
        ms
    }
}

/// The SILK frame length, in samples, of a frame of `frame_ms` ms at
/// `rate` Hz.
pub open spec fn spec_silk_frame_len(frame_ms: int, rate: int) -> int {
    frame_ms * rate / 1000
}

/// How the decoder fills a lost frame.
#[derive(Debug, Clone, Copy, PartialEq, Eq, Structural)]
pub enum LostFramePlan {
    /// Silence: the last frame was CELT-only, which has no concealment.
    Silence,
    /// SILK concealment in `mode`, at `internal_rate` Hz, over a frame of
    /// `frame_ms` ms run as `n_silk` internal frames of `sub_len` samples.
    Silk { mode: OpusMode, internal_rate: i32, frame_ms: i32, n_silk: usize, sub_len: usize },
}

/// The concealment of a lost frame of `frame_size` samples at
/// `sampling_rate` Hz after a frame of `prev_mode` (SILK when there was
/// none) and `bandwidth`.
pub open spec fn spec_plc_plan(
    prev_mode: Option<OpusMode>,
    bandwidth: Bandwidth,
    frame_size: int,
    sampling_rate: int,
) -> LostFramePlan {
    let mode = spec_plc_mode(prev_mode);
    if mode == OpusMode::CeltOnly {
        LostFramePlan::Silence
    } else {
        let ms = spec_lost_frame_ms(frame_size, sampling_rate);
        let rate = spec_silk_internal_rate(mode, bandwidth);
        let n = if ms == 40 {
            2int
        } else if ms == 60 {
            3
        } else {
            1
        };
        LostFramePlan::Silk {
            mode,
            internal_rate: rate as i32,
            frame_ms: ms as i32,
            n_silk: n as usize,
            sub_len: (spec_silk_frame_len(ms, rate) / n) as usize,
        }
    }
}

/// The length of a lost frame in ms.
fn lost_frame_ms(frame_size: usize, sampling_rate: i32) -> (r: i32)
    requires
        sampling_rate > 0,
        frame_size * 1000 <= i32::MAX,
    ensures
        r == spec_lost_frame_ms(frame_size as int, sampling_rate as int),
        r >= 1,
{
    let ms: i32 = frame_size as i32 * 1000 / sampling_rate;
    if ms < 1 {
        1
    } else {
        ms
    }
}

/// The SILK frame length at `rate` Hz of a frame of `frame_ms` ms.
fn silk_frame_len(frame_ms: i32, rate: i32) -> (r: usize)
    requires
        frame_ms >= 1,
        rate > 0,
        frame_ms * rate <= i32::MAX,
    ensures
        r == spec_silk_frame_len(frame_ms as int, rate as int),
{
    let prod: i32 = frame_ms * rate;
    assert(prod / 1000 <= prod) by (nonlinear_arith)
        requires
            prod >= 0,
    ;
    (prod / 1000) as usize
}

/// The mode a lost frame is concealed in: that of the frame before it, SILK
/// when there was none.
pub open spec fn spec_plc_mode(prev_mode: Option<OpusMode>) -> OpusMode {
    if prev_mode is Some {
        prev_mode.unwrap()
    } else {
        OpusMode::SilkOnly
    }
}

/// How a lost frame of `frame_size` samples is concealed, after a frame of
/// `prev_mode` and `bandwidth`.
pub fn plc_plan(
    prev_mode: Option<OpusMode>,
    bandwidth: Bandwidth,
    frame_size: usize,
    sampling_rate: i32,
) -> (r: LostFramePlan)
    requires
        sampling_rate > 0,
        frame_size * 1000 <= i32::MAX,
        spec_plc_mode(prev_mode) != OpusMode::CeltOnly ==> spec_lost_frame_ms(
            frame_size as int,
            sampling_rate as int,
        ) * spec_silk_internal_rate(spec_plc_mode(prev_mode), bandwidth) <= i32::MAX,
    ensures
        r == spec_plc_plan(prev_mode, bandwidth, frame_size as int, sampling_rate as int),
{
    let mode = match prev_mode {
        Some(m) => m,
        None => OpusMode::SilkOnly,
    };
    if let OpusMode::CeltOnly = mode {
        return LostFramePlan::Silence;
    }
    let frame_ms = lost_frame_ms(frame_size, sampling_rate);
    let internal_rate = silk_internal_rate(mode, bandwidth);
    let n_silk = silk_frames_per_frame(frame_ms);
    let len = silk_frame_len(frame_ms, internal_rate);
    LostFramePlan::Silk { mode, internal_rate, frame_ms, n_silk, sub_len: len / n_silk }
}

/// How the decoder treats a lost frame given the packet after it.
#[derive(Debug, Clone, Copy, PartialEq, Eq, Structural)]
pub enum FecPlan {
    /// No low-bitrate redundancy to recover from: conceal the frame.
    Conceal,
    /// Decode the low-bitrate redundancy of the packet's SILK layer in
    /// `mode` and `bandwidth`, at `internal_rate` Hz, over a frame of
    /// `frame_ms` ms of `frame_len` samples.
    Lbrr { mode: OpusMode, bandwidth: Bandwidth, internal_rate: i32, frame_ms: i32, frame_len: usize },
}

/// The treatment of a lost frame of `frame_size` samples at `sampling_rate`
/// Hz given the next packet: its low-bitrate redundancy is decoded when it
/// is a single-frame SILK or hybrid packet; otherwise the frame is
/// concealed.
pub open spec fn spec_fec_plan(packet: Seq<u8>, frame_size: int, sampling_rate: int) -> FecPlan {
    if packet.len() == 0 {
        FecPlan::Conceal
    } else {
        let toc = packet[0];
        let mode = spec_mode_from_toc(toc);
        if mode == OpusMode::CeltOnly || toc % 4 != 0 {
            FecPlan::Conceal
        } else {
            let bandwidth = spec_bandwidth_from_toc(toc);
            let ms = spec_lost_frame_ms(frame_size, sampling_rate);
            let rate = spec_silk_internal_rate(mode, bandwidth);
            FecPlan::Lbrr {
                mode,
                bandwidth,
                internal_rate: rate as i32,
                frame_ms: ms as i32,
                frame_len: spec_silk_frame_len(ms, rate) as usize,
            }
        }
    }
}

/// How a lost frame of `frame_size` samples is recovered from `packet`,
/// the packet after it.
pub fn fec_plan(packet: &[u8], frame_size: usize, sampling_rate: i32) -> (r: FecPlan)
    requires
        sampling_rate > 0,
        frame_size * 1000 <= i32::MAX,
        packet.len() > 0 && spec_mode_from_toc(packet[0]) != OpusMode::CeltOnly ==> spec_lost_frame_ms(
            frame_size as int,
            sampling_rate as int,
        ) * spec_silk_internal_rate(
            spec_mode_from_toc(packet[0]),
            spec_bandwidth_from_toc(packet[0]),
        ) <= i32::MAX,
    ensures
        r == spec_fec_plan(packet@, frame_size as int, sampling_rate as int),
{
    if packet.len() == 0 {
        return FecPlan::Conceal;
    }
    let toc = packet[0];
    let mode = mode_from_toc(toc);
    let single = toc % 4 == 0;
    if let OpusMode::CeltOnly = mode {
        return FecPlan::Conceal;
    }
    if !single {
        return FecPlan::Conceal;
    }
    let bandwidth = bandwidth_from_toc(toc);
    let frame_ms = lost_frame_ms(frame_size, sampling_rate);
    let internal_rate = silk_internal_rate(mode, bandwidth);
    let frame_len = silk_frame_len(frame_ms, internal_rate);
    FecPlan::Lbrr { mode, bandwidth, internal_rate, frame_ms, frame_len }
}

} // verus!
