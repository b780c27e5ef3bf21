use rusty_opus::repacketizer::{
    encode_size, nb_frames, pad_packet, parse_packet, parse_size, samples_per_frame, unpad_packet,
    Repacketizer,
};

#[test]
fn split_merge_roundtrip() {
    // toc config 12 (hybrid SWB 10ms) stereo bit off, code 3.
    let toc = 12u8 << 3;
    let mut pkt = vec![toc | 0x3, 3 | 0x80]; // code 3, vbr, count 3
    let f0 = vec![0xAAu8; 3];
    let f1 = vec![0xBBu8; 5];
    let f2 = vec![0xCCu8; 4];
    encode_size(3, &mut pkt);
    encode_size(5, &mut pkt);
    pkt.extend_from_slice(&f0);
    pkt.extend_from_slice(&f1);
    pkt.extend_from_slice(&f2);

    let mut rp = Repacketizer::new();
    rp.cat(&pkt).unwrap();
    assert_eq!(rp.nb_frames(), 3);
    // out() must reproduce the exact same packet.
    assert_eq!(rp.out().unwrap(), pkt);
    // Splitting single frames yields code-0 packets with the frame bytes.
    let s0 = rp.out_range(0, 1).unwrap();
    assert_eq!(s0[0] & 0x3, 0);
    assert_eq!(&s0[1..], &f0[..]);
    let s1 = rp.out_range(1, 2).unwrap();
    assert_eq!(&s1[1..], &f1[..]);
}

#[test]
fn pad_unpad_identity() {
    let toc = 8u8 << 3; // silk WB code 0
    let mut pkt = vec![toc];
    pkt.extend_from_slice(&[1, 2, 3, 4, 5]);
    let orig = pkt.clone();
    pad_packet(&mut pkt, orig.len() + 10).unwrap();
    assert_eq!(pkt.len(), orig.len() + 10);
    let back = unpad_packet(&pkt).unwrap();
    // frame bytes recovered
    let (_t, f, _) = parse_packet(&back, false).unwrap();
    assert_eq!(&back[f[0].0..f[0].0 + f[0].1], &orig[1..]);
}

#[test]
fn cbr_merge_code1() {
    // Two equal-length frames merge to code 1.
    let toc = 8u8 << 3;
    let p = vec![toc, 9, 9, 9]; // code 0, 3-byte frame
    let mut rp = Repacketizer::new();
    rp.cat(&p).unwrap();
    rp.cat(&p).unwrap();
    let out = rp.out().unwrap();
    assert_eq!(out[0] & 0x3, 1); // code 1 (equal sizes)
    assert_eq!(rp.nb_frames(), 2);
}

#[test]
fn self_delimited_roundtrip() {
    // 3-frame vbr packet -> self-delimited -> parse(self_delimited) recovers frames.
    let toc = 12u8 << 3;
    let mut rp = Repacketizer::new();
    let mut p = vec![toc | 0x3, 3 | 0x80];
    encode_size(3, &mut p);
    encode_size(5, &mut p);
    p.extend_from_slice(&[1u8; 3]);
    p.extend_from_slice(&[2u8; 5]);
    p.extend_from_slice(&[3u8; 4]);
    rp.cat(&p).unwrap();
    let sd = rp.out_self_delimited().unwrap();
    // append trailing bytes to simulate concatenation; parse must stop at packet_offset
    let mut stream = sd.clone();
    stream.extend_from_slice(&[0xEE; 7]);
    let (t, frames, off) = parse_packet(&stream, true).unwrap();
    assert_eq!(t, toc | 0x3);
    assert_eq!(frames.len(), 3);
    assert_eq!(&stream[frames[0].0..frames[0].0 + frames[0].1], &[1, 1, 1]);
    assert_eq!(&stream[frames[2].0..frames[2].0 + frames[2].1], &[3, 3, 3, 3]);
    assert_eq!(off, sd.len()); // packet ends exactly at the SD boundary
}

#[test]
fn size_codes_roundtrip() {
    for size in [0i32, 1, 251, 252, 253, 300, 1000, 1275] {
        let mut v = Vec::new();
        encode_size(size, &mut v);
        assert_eq!(v.len(), if size < 252 { 1 } else { 2 });
        let (used, len) = parse_size(&v);
        assert_eq!(used as usize, v.len());
        assert_eq!(len, size);
    }
    let mut v = Vec::new();
    encode_size(1000, &mut v);
    assert_eq!(v, vec![252, 187]);
}

#[test]
fn parse_size_truncated() {
    assert_eq!(parse_size(&[]), (-1, -1));
    assert_eq!(parse_size(&[252]), (-1, -1));
}

#[test]
fn samples_per_frame_values() {
    // CELT 2.5 ms .. 20 ms at 48 kHz
    assert_eq!(samples_per_frame(0x80, 48000), 120);
    assert_eq!(samples_per_frame(0x98, 48000), 960);
    // hybrid 10 / 20 ms
    assert_eq!(samples_per_frame(12 << 3, 48000), 480);
    assert_eq!(samples_per_frame(13 << 3, 48000), 960);
    // SILK 10, 20, 40, 60 ms
    assert_eq!(samples_per_frame(0, 48000), 480);
    assert_eq!(samples_per_frame(1 << 3, 48000), 960);
    assert_eq!(samples_per_frame(2 << 3, 48000), 1920);
    assert_eq!(samples_per_frame(3 << 3, 48000), 2880);
    assert_eq!(samples_per_frame(3 << 3, 8000), 480);
}

#[test]
fn nb_frames_values() {
    assert_eq!(nb_frames(&[]), Err("bad arg"));
    assert_eq!(nb_frames(&[0x00]), Ok(1));
    assert_eq!(nb_frames(&[0x01]), Ok(2));
    assert_eq!(nb_frames(&[0x02]), Ok(2));
    assert_eq!(nb_frames(&[0x03]), Err("invalid packet"));
    assert_eq!(nb_frames(&[0x03, 0x85]), Ok(5));
}

#[test]
fn parse_packet_codes() {
    // code 0
    let (t, f, off) = parse_packet(&[0x08, 1, 2, 3], false).unwrap();
    assert_eq!(t, 0x08);
    assert_eq!(f, vec![(1, 3)]);
    assert_eq!(off, 4);
    // code 1: two frames of equal size
    let (_, f, _) = parse_packet(&[0x09, 1, 2, 3, 4], false).unwrap();
    assert_eq!(f, vec![(1, 2), (3, 2)]);
    // code 1 with an odd payload is invalid
    assert_eq!(parse_packet(&[0x09, 1, 2, 3], false), Err("invalid packet"));
    // code 2: first length coded
    let (_, f, _) = parse_packet(&[0x0A, 1, 9, 8, 7], false).unwrap();
    assert_eq!(f, vec![(2, 1), (3, 2)]);
    // code 3 CBR with padding: 2 frames of 2 bytes, 3 padding bytes
    let (_, f, off) = parse_packet(&[0x0B, 0x42, 3, 1, 1, 2, 2, 0, 0, 0], false).unwrap();
    assert_eq!(f, vec![(3, 2), (5, 2)]);
    assert_eq!(off, 7);
    // empty packet
    assert_eq!(parse_packet(&[], false), Err("invalid packet"));
}

#[test]
fn cat_errors() {
    let mut rp = Repacketizer::new();
    assert_eq!(rp.cat(&[]), Err("invalid packet"));
    rp.cat(&[0x08, 1]).unwrap();
    // a different configuration
    assert_eq!(rp.cat(&[0x10, 1]), Err("toc mismatch"));
    assert_eq!(rp.nb_frames(), 1);
    // 20 ms SILK frames: at most six
    let mut rp = Repacketizer::new();
    for _ in 0..6 {
        rp.cat(&[0x08, 1]).unwrap();
    }
    assert_eq!(rp.cat(&[0x08, 1]), Err("packet exceeds 120 ms"));
    assert_eq!(rp.nb_frames(), 6);
    // a code-1 packet with an odd payload
    let mut rp = Repacketizer::new();
    assert_eq!(rp.cat(&[0x09, 1, 2, 3]), Err("invalid packet"));
    assert_eq!(rp.nb_frames(), 0);
}

#[test]
fn out_range_errors() {
    let rp = Repacketizer::new();
    assert_eq!(rp.out(), Err("bad arg"));
    assert_eq!(rp.out_self_delimited(), Err("bad arg"));
    let mut rp = Repacketizer::new();
    rp.cat(&[0x08, 1, 2]).unwrap();
    assert_eq!(rp.out_range(1, 1), Err("bad arg"));
    assert_eq!(rp.out_range(0, 2), Err("bad arg"));
    assert_eq!(rp.out_range(0, 1), Ok(vec![0x08, 1, 2]));
}

#[test]
fn code2_merge_of_unequal_frames() {
    let mut rp = Repacketizer::new();
    rp.cat(&[0x08, 1, 2, 3]).unwrap();
    rp.cat(&[0x08, 4]).unwrap();
    let out = rp.out().unwrap();
    assert_eq!(out, vec![0x0A, 3, 1, 2, 3, 4]);
    let (_, f, _) = parse_packet(&out, false).unwrap();
    assert_eq!(f, vec![(2, 3), (5, 1)]);
}

#[test]
fn self_delimited_single_frame() {
    let mut rp = Repacketizer::new();
    rp.cat(&[0x08, 5, 6]).unwrap();
    let sd = rp.out_self_delimited().unwrap();
    assert_eq!(sd, vec![0x08, 2, 5, 6]);
}

#[test]
fn pad_errors_and_noop() {
    let mut empty: Vec<u8> = Vec::new();
    assert_eq!(pad_packet(&mut empty, 5), Err("bad arg"));
    let mut p = vec![0x08, 1, 2];
    assert_eq!(pad_packet(&mut p, 2), Err("bad arg"));
    assert_eq!(p, vec![0x08, 1, 2]);
    assert_eq!(pad_packet(&mut p, 3), Ok(()));
    assert_eq!(p, vec![0x08, 1, 2]);
    assert_eq!(unpad_packet(&[]), Err("bad arg"));
}

#[test]
fn pad_to_long_length_uses_255_runs() {
    let mut p = vec![0x08, 1, 2];
    pad_packet(&mut p, 300).unwrap();
    assert_eq!(p.len(), 300);
    let (_, f, off) = parse_packet(&p, false).unwrap();
    assert_eq!(f.len(), 1);
    assert_eq!(&p[f[0].0..f[0].0 + f[0].1], &[1, 2]);
    assert_eq!(off, 6);
    assert_eq!(unpad_packet(&p).unwrap(), vec![0x08, 1, 2]);
}

#[test]
fn default_repacketizer_is_empty() {
    let rp = Repacketizer::default();
    assert_eq!(rp.nb_frames(), 0);
    assert_eq!(rp.out(), Err("bad arg"));
}

#[test]
fn unpad_of_padded_equals_unpad_of_unpadded() {
    let packets: Vec<Vec<u8>> = vec![
        vec![0x08, 1, 2, 3],
        vec![0x09, 1, 2, 3, 4],
        vec![0x0A, 1, 9, 8, 7],
        vec![0x0B, 0x83, 1, 2, 7, 8, 8, 9, 9, 9],
        vec![0x0B, 0x42, 3, 1, 1, 2, 2, 0, 0, 0],
    ];
    for p in packets {
        let base = unpad_packet(&p).unwrap();
        for extra in [1usize, 5, 300] {
            let mut q = p.clone();
            pad_packet(&mut q, p.len() + extra).unwrap();
            assert_eq!(q.len(), p.len() + extra);
            assert_eq!(unpad_packet(&q).unwrap(), base);
        }
    }
}

#[test]
fn merged_pairs_hold_both_packets_frames() {
    let a = vec![0x08u8, 1, 2, 3];
    let b = vec![0x09u8, 4, 5, 6, 7];
    let mut rp = Repacketizer::new();
    rp.cat(&a).unwrap();
    rp.cat(&b).unwrap();
    assert_eq!(rp.nb_frames(), 3);
    let m = rp.out().unwrap();
    let (_, f, _) = parse_packet(&m, false).unwrap();
    let frames: Vec<&[u8]> = f.iter().map(|&(o, l)| &m[o..o + l]).collect();
    assert_eq!(frames, vec![&[1u8, 2, 3][..], &[4, 5][..], &[6, 7][..]]);
}
