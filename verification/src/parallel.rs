//! Chunk-parallel encoding plans. A long signal is cut into contiguous,
//! balanced frame ranges, one per worker; each worker primes a fresh encoder
//! on up to `warmup` frames before its range and keeps only the packets of
//! the range, so the packets of all ranges, in range order, are one packet
//! per frame, as a serial encode gives.

use vstd::prelude::*;
use crate::Application;

verus! {

/// Configuration for a parallel encode; mirrors the knobs of an encoder.
#[derive(Clone, Copy)]
pub struct ParallelConfig {
    pub sample_rate: i32,
    pub channels: usize,
    pub application: Application,
    pub bitrate_bps: i32,
    pub complexity: i32,
    pub use_cbr: bool,
    /// Frames of look-back each worker re-encodes to prime its state
    /// (discarded); 0 is no priming.
    pub warmup: usize,
    /// Worker count; 0 selects the machine's available parallelism.
    pub threads: usize,
}

impl ParallelConfig {
    /// The default configuration: 64 kb/s, complexity 9, VBR, 8 warm-up
    /// frames, as many workers as the machine offers.
    pub fn new(sample_rate: i32, channels: usize, application: Application) -> (r: Self)
        ensures
            r.sample_rate == sample_rate,
            r.channels == channels,
            r.application == application,
            r.bitrate_bps == 64000,
            r.complexity == 9,
            !r.use_cbr,
            r.warmup == 8,
            r.threads == 0,
    {
        ParallelConfig {
            sample_rate,
            channels,
            application,
            bitrate_bps: 64_000,
            complexity: 9,
            use_cbr: false,
            warmup: 8,
            threads: 0,
        }
    }
}

/// The number of workers a parallel encode of `total_frames` frames uses
/// with `threads` threads: each chunk must hold at least `4 * warmup`
/// frames (and one), and there is at least one worker.
pub open spec fn spec_worker_count(total_frames: int, threads: int, warmup: int) -> int {
    let min_chunk = if warmup * 4 > 1 {
        warmup * 4
    } else {
        1
    };
    let by_size = if total_frames / min_chunk > 1 {
        total_frames / min_chunk
    } else {
        1
    };
    let t = if threads > 1 {
        threads
    } else {
        1
    };
    if t < by_size {
        t
    } else {
        by_size
    }
}

/// Where chunk `w` of `n` balanced chunks of `total` frames starts: the
/// first `total % n` chunks hold one frame more than the rest.
pub open spec fn chunk_start(total: int, n: int, w: int) -> int {
    w * (total / n) + if w < total % n {
        w
    } else {
        total % n
    }
}

/// The worker count of a parallel encode.
pub fn worker_count(total_frames: usize, threads: usize, warmup: usize) -> (r: usize)
    requires
        warmup * 4 <= usize::MAX,
    ensures
        r == spec_worker_count(total_frames as int, threads as int, warmup as int),
        1 <= r,
        total_frames > 0 ==> r <= total_frames,
{
    let four_w = warmup * 4;
    let min_chunk = if four_w > 1 {
        four_w
    } else {
        1
    };
    let by_size = if total_frames / min_chunk > 1 {
        total_frames / min_chunk
    } else {
        1
    };
    let t = if threads > 1 {
        threads
    } else {
        1
    };
    if t < by_size {
        t
    } else {
        by_size
    }
}

proof fn lemma_chunk_step(total: int, n: int, w: int)
    requires
        0 < n,
        0 <= total,
        0 <= w < n,
    ensures
        chunk_start(total, n, w + 1) == chunk_start(total, n, w) + total / n + (if w < total % n {
            1int
        } else {
            0
        }),
        chunk_start(total, n, 0) == 0,
        chunk_start(total, n, n) == total,
{
    assert((w + 1) * (total / n) == w * (total / n) + total / n) by (nonlinear_arith);
    assert(n * (total / n) + total % n == total) by (nonlinear_arith)
        requires
            0 < n,
    ;
    assert(total % n < n) by (nonlinear_arith)
        requires
            0 < n,
    ;
}

proof fn lemma_chunk_bounds(total: int, n: int, w: int)
    requires
        0 < n,
        0 <= total,
        0 <= w <= n,
    ensures
        0 <= chunk_start(total, n, w) <= total,
{
    assert(0 <= w * (total / n) <= n * (total / n)) by (nonlinear_arith)
        requires
            0 <= w <= n,
            0 < n,
            0 <= total,
    ;
    assert(n * (total / n) + total % n == total) by (nonlinear_arith)
        requires
            0 < n,
    ;
    assert(0 <= total % n) by (nonlinear_arith)
        requires
            0 < n,
    ;
}

/// The frame ranges `[start, end)` the workers of a parallel encode take:
/// `n_workers` contiguous ranges that cover frames `0..total_frames` in
/// order, whose lengths differ by at most one.
pub fn chunk_ranges(total_frames: usize, n_workers: usize) -> (r: Vec<(usize, usize)>)
    requires
        0 < n_workers,
    ensures
        r@.len() == n_workers,
        forall|w: int|
            0 <= w < n_workers ==> #[trigger] r@[w] == (
                chunk_start(total_frames as int, n_workers as int, w) as usize,
                chunk_start(total_frames as int, n_workers as int, w + 1) as usize,
            ),
        forall|w: int|
            0 <= w < n_workers ==> #[trigger] r@[w].0 <= r@[w].1 && r@[w].1 - r@[w].0 == total_frames
                / n_workers + (if w < total_frames % n_workers {
                1int
            } else {
                0
            }),
        forall|w: int| 0 < w < n_workers ==> #[trigger] r@[w].0 == r@[w - 1].1,
        r@[0].0 == 0,
        r@[n_workers - 1].1 == total_frames,
{
    let base = total_frames / n_workers;
    let rem = total_frames % n_workers;
    let mut ranges: Vec<(usize, usize)> = Vec::new();
    let mut start: usize = 0;
    let mut w: usize = 0;
    proof {
        lemma_chunk_step(total_frames as int, n_workers as int, 0);
    }
    while w < n_workers
        invariant
            0 < n_workers,
            w <= n_workers,
            base == total_frames / n_workers,
            rem == total_frames % n_workers,
            ranges@.len() == w,
            start == chunk_start(total_frames as int, n_workers as int, w as int),
            forall|v: int|
                0 <= v < w ==> #[trigger] ranges@[v] == (
                    chunk_start(total_frames as int, n_workers as int, v) as usize,
                    chunk_start(total_frames as int, n_workers as int, v + 1) as usize,
                ),
        decreases n_workers - w,
    {
        proof {
            lemma_chunk_step(total_frames as int, n_workers as int, w as int);
            lemma_chunk_bounds(total_frames as int, n_workers as int, w as int + 1);
        }
        let len = base + if w < rem {
            1
        } else {
            0
        };
        ranges.push((start, start + len));
        start += len;
        w += 1;
    }
    assert forall|v: int| 0 <= v < n_workers implies #[trigger] ranges@[v].0 <= ranges@[v].1
        && ranges@[v].1 - ranges@[v].0 == total_frames / n_workers + (if v < total_frames % n_workers {
        1int
    } else {
        0
    }) by {
        lemma_chunk_step(total_frames as int, n_workers as int, v);
        lemma_chunk_bounds(total_frames as int, n_workers as int, v);
        lemma_chunk_bounds(total_frames as int, n_workers as int, v + 1);
    }
    proof {
        lemma_chunk_step(total_frames as int, n_workers as int, 0);
        lemma_chunk_bounds(total_frames as int, n_workers as int, n_workers as int);
    }
    ranges
}

} // verus!
