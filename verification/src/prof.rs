//! The encode stage profiler's interface, with profiling switched off: every
//! scope is a zero-sized guard and every report is empty, so instrumented
//! code costs nothing.

use vstd::prelude::*;

verus! {

/// A timed pipeline stage. The stages before `SilkNsqLpc` are the
/// sub-components summed for the residue of `Total`; `SilkNsqLpc` and
/// `SilkNsqShape` are nested diagnostics.
#[derive(Clone, Copy, PartialEq, Eq, Structural)]
pub enum Stage {
    Resample,
    SilkVad,
    SilkPitch,
    SilkNoise,
    SilkPred,
    SilkNsq,
    SilkCode,
    CeltPreemph,
    CeltTransient,
    CeltPrefilter,
    CeltMdct,
    CeltBands,
    CeltCoarse,
    CeltTf,
    CeltAlloc,
    CeltFine,
    CeltPvq,
    CeltSynth,
    SilkNsqLpc,
    SilkNsqShape,
    Total,
}

/// Number of buckets.
pub const N: usize = 21;

/// Index of the first nested diagnostic stage (`SilkNsqLpc`).
pub const INFO_FIRST: usize = 18;

/// The bucket index of each stage, in declaration order.
pub open spec fn spec_stage_index(s: Stage) -> int {
    match s {
        Stage::Resample => 0,
        Stage::SilkVad => 1,
        Stage::SilkPitch => 2,
        Stage::SilkNoise => 3,
        Stage::SilkPred => 4,
        Stage::SilkNsq => 5,
        Stage::SilkCode => 6,
        Stage::CeltPreemph => 7,
        Stage::CeltTransient => 8,
        Stage::CeltPrefilter => 9,
        Stage::CeltMdct => 10,
        Stage::CeltBands => 11,
        Stage::CeltCoarse => 12,
        Stage::CeltTf => 13,
        Stage::CeltAlloc => 14,
        Stage::CeltFine => 15,
        Stage::CeltPvq => 16,
        Stage::CeltSynth => 17,
        Stage::SilkNsqLpc => 18,
        Stage::SilkNsqShape => 19,
        Stage::Total => 20,
    }
}

impl Stage {
    /// The bucket index of the stage.
    pub fn index(self) -> (r: usize)
        ensures
            r == spec_stage_index(self),
            r < N,
    {
        match self {
            Stage::Resample => 0,
            Stage::SilkVad => 1,
            Stage::SilkPitch => 2,
            Stage::SilkNoise => 3,
            Stage::SilkPred => 4,
            Stage::SilkNsq => 5,
            Stage::SilkCode => 6,
            Stage::CeltPreemph => 7,
            Stage::CeltTransient => 8,
            Stage::CeltPrefilter => 9,
            Stage::CeltMdct => 10,
            Stage::CeltBands => 11,
            Stage::CeltCoarse => 12,
            Stage::CeltTf => 13,
            Stage::CeltAlloc => 14,
            Stage::CeltFine => 15,
            Stage::CeltPvq => 16,
            Stage::CeltSynth => 17,
            Stage::SilkNsqLpc => 18,
            Stage::SilkNsqShape => 19,
            Stage::Total => 20,
        }
    }
}

/// The guard a scope returns; with profiling off it holds nothing.
pub struct Guard;

/// Opens the timing scope of a stage.
pub fn scope(_s: Stage) -> (g: Guard) {
    Guard
}

/// Zeroes all buckets (nothing to zero with profiling off).
pub fn reset() {
}

/// Prints the per-stage breakdown (nothing with profiling off).
pub fn dump() {
}

/// The name of stage index `i`: empty with profiling off.
pub fn name(_i: usize) -> (r: &'static str)
    ensures
        r@ == ""@,
{
    let r = "";
    proof {
        reveal_strlit("");
    }
    r
}

} // verus!
