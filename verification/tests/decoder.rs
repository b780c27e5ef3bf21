use rusty_opus::decoder::split_frames;
use rusty_opus::repacketizer::{pad_packet, Repacketizer};

#[test]
fn split_code0_and_code1() {
    assert_eq!(split_frames(&[0x08]), Ok(vec![(1, 0)]));
    assert_eq!(split_frames(&[0x08, 1, 2, 3]), Ok(vec![(1, 3)]));
    assert_eq!(split_frames(&[0x09, 1, 2, 3, 4]), Ok(vec![(1, 2), (3, 2)]));
    // an odd payload has no two equal halves
    assert_eq!(split_frames(&[0x09, 1, 2, 3]), Err("Code 1: odd payload length"));
    assert_eq!(split_frames(&[0xF1, 1, 2, 3]), Err("Code 1: odd payload length"));
    assert_eq!(split_frames(&[0x09]), Err("Code 1: empty frame"));
    assert_eq!(split_frames(&[0x09, 7]), Err("Code 1: empty frame"));
}

#[test]
fn split_code2() {
    assert_eq!(split_frames(&[0x0A, 1, 9, 8, 7]), Ok(vec![(2, 1), (3, 2)]));
    assert_eq!(split_frames(&[0x0A]), Err("Code 2 packet has no data"));
    assert_eq!(split_frames(&[0x0A, 252]), Err("Opus frame length: truncated 2-byte"));
    assert_eq!(split_frames(&[0x0A, 5, 1, 2]), Err("Code 2: first frame size exceeds packet"));
    // a two-byte length: 253 + 4 * 0 = 253 bytes, then the rest
    let mut p = vec![0x0A, 253, 0];
    p.extend(std::iter::repeat(7u8).take(253 + 4));
    assert_eq!(split_frames(&p), Ok(vec![(3, 253), (256, 4)]));
}

#[test]
fn split_code3_cbr_vbr_padding() {
    // CBR, two frames of two bytes, padding of three bytes
    assert_eq!(
        split_frames(&[0x0B, 0x42, 3, 1, 1, 2, 2, 0, 0, 0]),
        Ok(vec![(3, 2), (5, 2)])
    );
    // VBR, three frames: lengths 1 and 2 coded, the last takes the rest
    assert_eq!(
        split_frames(&[0x0B, 0x83, 1, 2, 7, 8, 8, 9, 9, 9]),
        Ok(vec![(4, 1), (5, 2), (7, 3)])
    );
    // CBR with no frame bytes (all empty)
    assert_eq!(split_frames(&[0x0B, 0x03]), Ok(vec![(2, 0), (2, 0), (2, 0)]));
}

#[test]
fn split_code3_errors() {
    assert_eq!(split_frames(&[0x0B]), Err("Code 3 packet too short"));
    assert_eq!(split_frames(&[0x0B, 0x00]), Err("Code 3: invalid frame count"));
    assert_eq!(split_frames(&[0x0B, 49]), Err("Code 3: invalid frame count"));
    assert_eq!(split_frames(&[0x0B, 0x41]), Err("Code 3: padding overflow"));
    assert_eq!(split_frames(&[0x0B, 0x41, 255]), Err("Code 3: padding overflow"));
    assert_eq!(split_frames(&[0x0B, 0x41, 9, 1]), Err("Code 3: padding exceeds packet"));
    assert_eq!(
        split_frames(&[0x0B, 0x02, 1, 2, 3]),
        Err("Code 3 CBR: frame data not divisible by frame count")
    );
    assert_eq!(split_frames(&[0x0B, 0x82, 9, 1]), Err("Code 3 VBR: frame length exceeds packet"));
    assert_eq!(split_frames(&[0x0B, 0x82]), Err("Opus frame length: truncated"));
    assert_eq!(split_frames(&[0x0B, 0x82, 254]), Err("Opus frame length: truncated 2-byte"));
}

#[test]
fn split_finds_repacketized_frames() {
    let a = vec![0x08u8, 1, 2, 3];
    let b = vec![0x08u8, 4];
    let c = vec![0x08u8, 5, 6];
    let mut rp = Repacketizer::new();
    rp.cat(&a).unwrap();
    rp.cat(&b).unwrap();
    rp.cat(&c).unwrap();
    let mut out = rp.out().unwrap();
    for packet in [out.clone(), {
        pad_packet(&mut out, 40).unwrap();
        out
    }] {
        let spans = split_frames(&packet).unwrap();
        let frames: Vec<&[u8]> = spans.iter().map(|&(o, l)| &packet[o..o + l]).collect();
        assert_eq!(frames, vec![&[1u8, 2, 3][..], &[4][..], &[5, 6][..]]);
    }
}
