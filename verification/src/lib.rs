//! Opus packet framing, TOC coding, the decoder's frame split, the
//! encoder's per-frame decisions and multistream layouts, verified with
//! Verus.

pub mod control;
pub mod decoder;
pub mod encoder;
pub mod framing;
pub mod multistream;
pub mod parallel;
pub mod prof;
pub mod repacketizer;
pub mod silk;
pub mod toc;
pub mod transitions;

pub use control::{
    compute_equiv_rate, compute_mode_threshold, compute_silk_rate_for_hybrid, compute_voice_est,
};
pub use toc::{
    bandwidth_from_toc, celt_end_band_from_toc, celt_endband_for_bandwidth, channels_from_toc,
    frame_duration_ms_from_toc, frame_rate_from_params, gen_toc, mode_from_toc, read_opus_frame_len,
};

use vstd::prelude::*;

verus! {

/// Rust's `/` on signed integers: the quotient rounded toward zero.
pub open spec fn tdiv(a: int, b: int) -> int {
    if a >= 0 {
        a / b
    } else {
        -((-a) / b)
    }
}

/// Rust's `%` on signed integers: the remainder that takes the dividend's sign.
pub open spec fn trem(a: int, b: int) -> int {
    if a >= 0 {
        a % b
    } else {
        -((-a) % b)
    }
}

/// The coding application an encoder is tuned for.
#[derive(Debug, Clone, Copy, PartialEq, Eq, Structural)]
pub enum Application {
    Voip,
    Audio,
    RestrictedLowDelay,
}

impl Application {
    /// The numeric code of this application (2048 VoIP, 2049 audio, 2051
    /// restricted low delay).
    pub open spec fn spec_code(self) -> int {
        match self {
            Application::Voip => 2048,
            Application::Audio => 2049,
            Application::RestrictedLowDelay => 2051,
        }
    }

    /// The numeric code of this application (2048 VoIP, 2049 audio, 2051
    /// restricted low delay).
    pub fn code(self) -> (r: i32)
        ensures
            r == self.spec_code(),
    {
        match self {
            Application::Voip => 2048,
            Application::Audio => 2049,
            Application::RestrictedLowDelay => 2051,
        }
    }
}

/// Audio bandwidth.
#[derive(Debug, Clone, Copy, PartialEq, Eq, Structural)]
pub enum Bandwidth {
    Auto,
    Narrowband,
    Mediumband,
    Wideband,
    Superwideband,
    Fullband,
}

impl Bandwidth {
    /// The numeric code of this bandwidth (-1000 automatic, 1101 to 1105
    /// from narrowband to fullband).
    pub open spec fn spec_code(self) -> int {
        match self {
            Bandwidth::Auto => -1000,
            Bandwidth::Narrowband => 1101,
            Bandwidth::Mediumband => 1102,
            Bandwidth::Wideband => 1103,
            Bandwidth::Superwideband => 1104,
            Bandwidth::Fullband => 1105,
        }
    }

    /// The numeric code of this bandwidth (-1000 automatic, 1101 to 1105
    /// from narrowband to fullband).
    pub fn code(self) -> (r: i32)
        ensures
            r == self.spec_code(),
    {
        match self {
            Bandwidth::Auto => -1000,
            Bandwidth::Narrowband => 1101,
            Bandwidth::Mediumband => 1102,
            Bandwidth::Wideband => 1103,
            Bandwidth::Superwideband => 1104,
            Bandwidth::Fullband => 1105,
        }
    }
}

/// The coding mode a packet uses.
#[derive(Debug, Clone, Copy, PartialEq, Eq, Structural)]
pub enum OpusMode {
    SilkOnly,
    Hybrid,
    CeltOnly,
}

} // verus!
