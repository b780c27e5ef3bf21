use rusty_opus::repacketizer::{nb_frames, pad_packet, parse_packet, samples_per_frame, unpad_packet};
use rusty_opus::{compute_equiv_rate, compute_silk_rate_for_hybrid, Bandwidth};

#[test]
fn silk_share_grows_with_the_rate_and_stays_below_it() {
    let mut prev = 0;
    let mut r = 0;
    while r <= 100000 {
        let s = compute_silk_rate_for_hybrid(r, Bandwidth::Fullband, true, true);
        assert!(s >= prev, "rate {}", r);
        assert!(s <= r, "rate {}", r);
        let cbr = compute_silk_rate_for_hybrid(r, Bandwidth::Superwideband, true, false);
        assert_eq!(cbr, s + 400);
        prev = s;
        r += 250;
    }
}

#[test]
fn equivalent_rate_grows_with_the_bitrate_and_stays_below_it() {
    for &(ch, fr, vbr, cx, loss) in &[(1usize, 50, true, 10, 0), (2, 400, false, 0, 100), (1, 100, false, 5, 7)] {
        let mut prev = i32::MIN;
        let mut b = 0;
        while b <= 200000 {
            let e = compute_equiv_rate(b, ch, fr, vbr, cx, loss);
            assert!(e >= prev, "bitrate {}", b);
            assert!(e <= b, "bitrate {}", b);
            prev = e;
            b += 500;
        }
    }
}

#[test]
fn unpadding_is_idempotent_and_never_lengthens() {
    // code 3 CBR packet of three 2-byte frames with 3 bytes of padding
    let padded = vec![0x0B, 0x43, 3, 1, 2, 3, 4, 5, 6, 0, 0, 0];
    let u = unpad_packet(&padded).unwrap();
    assert!(u.len() <= padded.len());
    assert_eq!(u, vec![0x0B, 0x03, 1, 2, 3, 4, 5, 6]);
    assert_eq!(unpad_packet(&u).unwrap(), u);
    // a code-3 packet holding one frame becomes code 0
    let one = vec![0x0B, 0x01, 7, 8];
    let u1 = unpad_packet(&one).unwrap();
    assert_eq!(u1, vec![0x08, 7, 8]);
    assert_eq!(unpad_packet(&u1).unwrap(), u1);
}

#[test]
fn unpadded_output_layout_ends_at_last_byte() {
    let mut p = vec![0x09, 1, 2, 3, 4];
    pad_packet(&mut p, 20).unwrap();
    let u = unpad_packet(&p).unwrap();
    let (_, frames, end) = parse_packet(&u, false).unwrap();
    let (o, l) = *frames.last().unwrap();
    assert_eq!(o + l, u.len());
    assert_eq!(end, u.len());
}

#[test]
fn parsed_packet_holds_at_most_120_ms() {
    // 48 frames of 2.5 ms (CELT, config 16): accepted
    let mut ok = vec![0x83, 48];
    ok.extend(std::iter::repeat(0u8).take(48));
    let (toc, frames, _) = parse_packet(&ok, false).unwrap();
    assert_eq!(nb_frames(&ok), Ok(48));
    assert!(frames.len() as i32 * samples_per_frame(toc, 48000) <= 5760);
    // 49 frames: refused
    let mut bad = vec![0x83, 49];
    bad.extend(std::iter::repeat(0u8).take(49));
    assert!(parse_packet(&bad, false).is_err());
}
