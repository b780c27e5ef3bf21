use rusty_opus::transitions::{
    celt_primed, celt_reset_on_entry, fec_plan, hybrid_fade_out, hybrid_redundancy,
    hybrid_redundancy_possible, plc_plan, silk_redundancy_possible, silk_redundant_bytes,
    uses_aux_decoder, FecPlan, LostFramePlan,
};
use rusty_opus::{Bandwidth, OpusMode};

#[test]
fn aux_decoder_only_for_stereo_packets_in_mono_streams() {
    assert!(uses_aux_decoder(2, 1));
    assert!(!uses_aux_decoder(1, 2));
    assert!(!uses_aux_decoder(1, 1));
    assert!(!uses_aux_decoder(2, 2));
}

#[test]
fn silk_redundancy_needs_48k_and_17_bits() {
    assert!(silk_redundancy_possible(48000, 103, 15));
    assert!(!silk_redundancy_possible(48000, 104, 15));
    assert!(!silk_redundancy_possible(16000, 0, 100));
    assert!(!silk_redundancy_possible(48000, 0, 2));
}

#[test]
fn silk_redundant_bytes_follow_the_last_byte_read() {
    // 100 bits touch 13 bytes; 7 of 20 are left.
    assert_eq!(silk_redundant_bytes(100, 20), Some(7));
    // One byte left is too few.
    assert_eq!(silk_redundant_bytes(145, 20), None);
    assert_eq!(silk_redundant_bytes(144, 20), Some(2));
    // Nothing read: the whole frame would be redundant.
    assert_eq!(silk_redundant_bytes(0, 20), None);
    // More bits than bytes.
    assert_eq!(silk_redundant_bytes(200, 20), None);
}

#[test]
fn hybrid_redundancy_needs_37_bits() {
    assert!(hybrid_redundancy_possible(99, 17));
    assert!(!hybrid_redundancy_possible(100, 17));
}

#[test]
fn hybrid_redundancy_split() {
    assert_eq!(hybrid_redundancy(10, 80, 40), Some((12, 28)));
    assert_eq!(hybrid_redundancy(10, 224, 40), Some((12, 28)));
    assert_eq!(hybrid_redundancy(10, 225, 40), None);
    assert_eq!(hybrid_redundancy(50, 0, 40), None);
    assert_eq!(hybrid_redundancy(38, 0, 40), Some((40, 0)));
    assert_eq!(hybrid_redundancy(255, 8, 300), Some((257, 43)));
}

#[test]
fn celt_reset_only_on_unprimed_mode_change() {
    assert!(celt_reset_on_entry(Some(OpusMode::SilkOnly), OpusMode::CeltOnly, false));
    assert!(!celt_reset_on_entry(Some(OpusMode::SilkOnly), OpusMode::CeltOnly, true));
    assert!(!celt_reset_on_entry(Some(OpusMode::CeltOnly), OpusMode::CeltOnly, false));
    assert!(!celt_reset_on_entry(None, OpusMode::CeltOnly, false));
    assert!(celt_reset_on_entry(Some(OpusMode::CeltOnly), OpusMode::Hybrid, false));
}

#[test]
fn silk_to_celt_redundancy_primes_the_next_frame() {
    let primed = celt_primed(true, false);
    assert!(primed);
    assert!(!celt_reset_on_entry(Some(OpusMode::SilkOnly), OpusMode::CeltOnly, primed));
    assert!(!celt_primed(true, true));
    assert!(!celt_primed(false, false));
    assert!(celt_reset_on_entry(Some(OpusMode::SilkOnly), OpusMode::CeltOnly, celt_primed(false, false)));
}

#[test]
fn hybrid_high_band_fades_out_after_hybrid() {
    assert!(hybrid_fade_out(48000, Some(OpusMode::Hybrid), false, false, false));
    assert!(hybrid_fade_out(48000, Some(OpusMode::Hybrid), true, true, false));
    assert!(!hybrid_fade_out(48000, Some(OpusMode::Hybrid), true, true, true));
    assert!(!hybrid_fade_out(16000, Some(OpusMode::Hybrid), false, false, false));
    assert!(!hybrid_fade_out(48000, Some(OpusMode::SilkOnly), false, false, false));
    assert!(!hybrid_fade_out(48000, None, false, false, false));
}

#[test]
fn plc_plans() {
    assert_eq!(
        plc_plan(None, Bandwidth::Wideband, 960, 48000),
        LostFramePlan::Silk {
            mode: OpusMode::SilkOnly,
            internal_rate: 16000,
            frame_ms: 20,
            n_silk: 1,
            sub_len: 320
        }
    );
    assert_eq!(plc_plan(Some(OpusMode::CeltOnly), Bandwidth::Fullband, 960, 48000), LostFramePlan::Silence);
    assert_eq!(
        plc_plan(Some(OpusMode::SilkOnly), Bandwidth::Narrowband, 1920, 48000),
        LostFramePlan::Silk {
            mode: OpusMode::SilkOnly,
            internal_rate: 8000,
            frame_ms: 40,
            n_silk: 2,
            sub_len: 160
        }
    );
    assert_eq!(
        plc_plan(Some(OpusMode::Hybrid), Bandwidth::Fullband, 2880, 48000),
        LostFramePlan::Silk {
            mode: OpusMode::Hybrid,
            internal_rate: 16000,
            frame_ms: 60,
            n_silk: 3,
            sub_len: 320
        }
    );
    // A frame shorter than a millisecond counts as one.
    assert_eq!(
        plc_plan(Some(OpusMode::SilkOnly), Bandwidth::Mediumband, 10, 48000),
        LostFramePlan::Silk {
            mode: OpusMode::SilkOnly,
            internal_rate: 12000,
            frame_ms: 1,
            n_silk: 1,
            sub_len: 12
        }
    );
}

#[test]
fn fec_plans() {
    assert_eq!(fec_plan(&[], 960, 48000), FecPlan::Conceal);
    // CELT-only packet.
    assert_eq!(fec_plan(&[0x80, 1, 2], 960, 48000), FecPlan::Conceal);
    // SILK wideband 20 ms, two frames (code 1).
    assert_eq!(fec_plan(&[0x49, 1, 2], 960, 48000), FecPlan::Conceal);
    assert_eq!(
        fec_plan(&[0x48, 1, 2], 960, 48000),
        FecPlan::Lbrr {
            mode: OpusMode::SilkOnly,
            bandwidth: Bandwidth::Wideband,
            internal_rate: 16000,
            frame_ms: 20,
            frame_len: 320
        }
    );
    // Hybrid fullband 20 ms.
    assert_eq!(
        fec_plan(&[0x78, 9], 960, 48000),
        FecPlan::Lbrr {
            mode: OpusMode::Hybrid,
            bandwidth: Bandwidth::Fullband,
            internal_rate: 16000,
            frame_ms: 20,
            frame_len: 320
        }
    );
}
