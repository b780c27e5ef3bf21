use rusty_opus::multistream::{join_streams, split_streams, ChannelLayout};
use rusty_opus::repacketizer::parse_packet;

#[test]
fn family_zero_layouts() {
    let mono = ChannelLayout::surround(1, 0).unwrap();
    assert_eq!((mono.nb_channels, mono.nb_streams, mono.nb_coupled_streams), (1, 1, 0));
    assert_eq!(mono.mapping, vec![0]);
    let stereo = ChannelLayout::surround(2, 0).unwrap();
    assert_eq!((stereo.nb_channels, stereo.nb_streams, stereo.nb_coupled_streams), (2, 1, 1));
    assert_eq!(stereo.mapping, vec![0, 1]);
    assert!(matches!(ChannelLayout::surround(3, 0), Err("family 0 supports only 1-2 channels")));
    assert!(matches!(ChannelLayout::surround(0, 0), Err("family 0 supports only 1-2 channels")));
}

#[test]
fn family_one_layouts() {
    let l = ChannelLayout::surround(6, 1).unwrap();
    assert_eq!((l.nb_channels, l.nb_streams, l.nb_coupled_streams), (6, 4, 2));
    assert_eq!(l.mapping, vec![0, 4, 1, 2, 3, 5]);
    let l = ChannelLayout::surround(8, 1).unwrap();
    assert_eq!((l.nb_channels, l.nb_streams, l.nb_coupled_streams), (8, 5, 3));
    assert_eq!(l.mapping, vec![0, 6, 1, 2, 3, 4, 5, 7]);
    let l = ChannelLayout::surround(3, 1).unwrap();
    assert_eq!(l.mapping, vec![0, 2, 1]);
    assert!(matches!(ChannelLayout::surround(0, 1), Err("family 1 supports 1-8 channels")));
    assert!(matches!(ChannelLayout::surround(9, 1), Err("family 1 supports 1-8 channels")));
    assert!(matches!(ChannelLayout::surround(2, 2), Err("unsupported mapping family")));
    assert!(matches!(ChannelLayout::surround(2, -1), Err("unsupported mapping family")));
}

#[test]
fn every_surround_layout_is_a_permutation() {
    for (family, max) in [(0, 2usize), (1, 8)] {
        for ch in 1..=max {
            let l = ChannelLayout::surround(ch, family).unwrap();
            assert_eq!(l.mapping.len(), l.nb_channels);
            assert_eq!(l.nb_streams + l.nb_coupled_streams, l.nb_channels);
            let mut seen = vec![false; l.nb_channels];
            for &m in &l.mapping {
                assert!(!seen[m as usize]);
                seen[m as usize] = true;
            }
            for s in 0..l.nb_streams {
                if s < l.nb_coupled_streams {
                    assert!(l.left_channel(s, -1) >= 0);
                    assert!(l.right_channel(s, -1) >= 0);
                } else {
                    assert!(l.mono_channel(s, -1) >= 0);
                }
            }
        }
    }
}

#[test]
fn channel_lookups_5_1() {
    // 5.1: mapping [0, 4, 1, 2, 3, 5], two coupled streams
    let l = ChannelLayout::surround(6, 1).unwrap();
    assert_eq!(l.left_channel(0, -1), 0);
    assert_eq!(l.right_channel(0, -1), 2);
    assert_eq!(l.left_channel(1, -1), 3);
    assert_eq!(l.right_channel(1, -1), 4);
    // mono streams 2 and 3 carry stream channels 4 and 5
    assert_eq!(l.mono_channel(2, -1), 1);
    assert_eq!(l.mono_channel(3, -1), 5);
    // searching on after the found channel finds no other
    assert_eq!(l.left_channel(0, 0), -1);
    assert_eq!(l.mono_channel(3, 5), -1);
    assert_eq!(l.mono_channel(9, -1), -1);
}

#[test]
fn channel_lookup_repeated_mapping() {
    let l = ChannelLayout {
        nb_channels: 4,
        nb_streams: 1,
        nb_coupled_streams: 1,
        mapping: vec![0, 1, 0, 255],
    };
    assert_eq!(l.left_channel(0, -1), 0);
    assert_eq!(l.left_channel(0, 0), 2);
    assert_eq!(l.left_channel(0, 2), -1);
    assert_eq!(l.right_channel(0, -1), 1);
    assert_eq!(l.right_channel(0, 1), -1);
    assert_eq!(l.left_channel(0, 100), -1);
}

#[test]
fn stream_bitrates_split() {
    // 5.1: two coupled + two mono streams = 6 units
    let l = ChannelLayout::surround(6, 1).unwrap();
    assert_eq!(l.stream_bitrates(384000), vec![128000, 128000, 64000, 64000]);
    // truncating division of the unit share
    assert_eq!(l.stream_bitrates(100), vec![32, 32, 16, 16]);
    let mono = ChannelLayout::surround(1, 0).unwrap();
    assert_eq!(mono.stream_bitrates(64000), vec![64000]);
    let stereo = ChannelLayout::surround(2, 0).unwrap();
    assert_eq!(stereo.stream_bitrates(64001), vec![64000]);
    let none = ChannelLayout { nb_channels: 0, nb_streams: 0, nb_coupled_streams: 0, mapping: vec![] };
    assert_eq!(none.stream_bitrates(1000), Vec::<i32>::new());
}

#[test]
fn join_and_split_streams() {
    let s0 = vec![0x08u8, 1, 2, 3];
    let s1 = vec![0x09u8, 4, 5, 6, 7];
    let s2 = vec![0x88u8, 9, 9];
    let joined = join_streams(&vec![s0.clone(), s1.clone(), s2.clone()]).unwrap();
    // self-delimited: code 0 with its length, code 1 with the frame length, then the last as is
    assert_eq!(joined, vec![0x08, 3, 1, 2, 3, 0x09, 2, 4, 5, 6, 7, 0x88, 9, 9]);
    let spans = split_streams(&joined, 3).unwrap();
    assert_eq!(spans, vec![(0, 5), (5, 6), (11, 3)]);
    assert_eq!(&joined[11..14], &s2[..]);
    // each segment parses self-delimited to the stream's frames
    let (_, f, off) = parse_packet(&joined[0..5], true).unwrap();
    assert_eq!(off, 5);
    assert_eq!(&joined[f[0].0..f[0].0 + f[0].1], &[1, 2, 3]);
    let seg = &joined[5..11];
    let (_, f, _) = parse_packet(seg, true).unwrap();
    assert_eq!(f, vec![(2, 2), (4, 2)]);
}

#[test]
fn join_and_split_edge_cases() {
    assert_eq!(join_streams(&vec![]), Ok(vec![]));
    assert_eq!(join_streams(&vec![vec![0x08, 1]]), Ok(vec![0x08, 1]));
    // a stream that cannot be re-framed
    assert_eq!(join_streams(&vec![vec![], vec![0x08]]), Err("invalid packet"));
    assert_eq!(join_streams(&vec![vec![0x09, 1, 2, 3], vec![0x08]]), Err("invalid packet"));
    // splitting
    assert_eq!(split_streams(&[], 0), Ok(vec![]));
    assert_eq!(split_streams(&[1, 2, 3], 1), Ok(vec![(0, 3)]));
    assert_eq!(split_streams(&[0x08, 9, 1], 2), Err("invalid packet"));
    assert_eq!(split_streams(&[0x08, 1, 7, 0x08], 2), Ok(vec![(0, 3), (3, 1)]));
    // the last stream may be empty
    assert_eq!(split_streams(&[0x08, 1, 7], 2), Ok(vec![(0, 3), (3, 0)]));
}
