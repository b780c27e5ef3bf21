use rusty_opus::parallel::{chunk_ranges, worker_count, ParallelConfig};
use rusty_opus::Application;

#[test]
fn parallel_config_defaults() {
    let c = ParallelConfig::new(48000, 2, Application::Audio);
    assert_eq!(c.sample_rate, 48000);
    assert_eq!(c.channels, 2);
    assert_eq!(c.application, Application::Audio);
    assert_eq!(c.bitrate_bps, 64_000);
    assert_eq!(c.complexity, 9);
    assert!(!c.use_cbr);
    assert_eq!(c.warmup, 8);
    assert_eq!(c.threads, 0);
}

#[test]
fn worker_counts() {
    // 1500 frames, warm-up 8: chunks of at least 32 frames
    assert_eq!(worker_count(1500, 8, 8), 8);
    assert_eq!(worker_count(100, 8, 8), 3);
    assert_eq!(worker_count(31, 8, 8), 1);
    // threads 0 counts as one
    assert_eq!(worker_count(1000, 0, 8), 1);
    // no warm-up: chunks of at least one frame
    assert_eq!(worker_count(5, 16, 0), 5);
    assert_eq!(worker_count(0, 4, 0), 1);
}

#[test]
fn chunk_ranges_are_balanced_and_contiguous() {
    assert_eq!(chunk_ranges(10, 3), vec![(0, 4), (4, 7), (7, 10)]);
    assert_eq!(chunk_ranges(9, 3), vec![(0, 3), (3, 6), (6, 9)]);
    assert_eq!(chunk_ranges(5, 1), vec![(0, 5)]);
    assert_eq!(chunk_ranges(2, 4), vec![(0, 1), (1, 2), (2, 2), (2, 2)]);
    for total in 0..50usize {
        for n in 1..10usize {
            let r = chunk_ranges(total, n);
            assert_eq!(r.len(), n);
            assert_eq!(r[0].0, 0);
            assert_eq!(r[n - 1].1, total);
            let covered: usize = r.iter().map(|(s, e)| e - s).sum();
            assert_eq!(covered, total);
            for w in 1..n {
                assert_eq!(r[w].0, r[w - 1].1);
            }
        }
    }
}
