use mmo::audio::{
    audio_packet, audio_packets, parse_tunnel, pcm_from_le_bytes, pcm_to_le_bytes,
    sequence_start, split_frames, TunnelPacket, FRAME_SAMPLES,
};

#[test]
fn reads_little_endian_samples() {
    assert_eq!(pcm_from_le_bytes(&[0x01, 0x02, 0xFF, 0xFF, 0x00, 0x80, 0x07]), vec![0x0201, -1, -32768]);
    assert_eq!(pcm_from_le_bytes(&[0x05]), Vec::<i16>::new());
}

#[test]
fn writes_little_endian_samples() {
    assert_eq!(pcm_to_le_bytes(&[0x0201, -1, -32768, 32767]), vec![0x01, 0x02, 0xFF, 0xFF, 0x00, 0x80, 0xFF, 0x7F]);
}

#[test]
fn samples_survive_the_bytes() {
    let samples: Vec<i16> = vec![0, 1, -1, 1000, -1000, i16::MAX, i16::MIN];
    assert_eq!(pcm_from_le_bytes(&pcm_to_le_bytes(&samples)), samples);
}

#[test]
fn splits_into_padded_frames() {
    assert!(split_frames(&[]).is_empty());
    let pcm: Vec<i16> = (0..700).map(|i| i as i16).collect();
    let frames = split_frames(&pcm);
    assert_eq!(frames.len(), 3);
    assert!(frames.iter().all(|f| f.len() == FRAME_SAMPLES));
    assert_eq!(frames[1][0], 320);
    assert_eq!(frames[2][59], 699);
    assert_eq!(frames[2][60], 0);
    assert_eq!(frames[2][319], 0);
    let exact: Vec<i16> = vec![7; 640];
    assert_eq!(split_frames(&exact).len(), 2);
}

#[test]
fn parses_an_opus_tunnel_packet() {
    match parse_tunnel(&[0x83, 0x03, 1, 2, 3, 4]) {
        Some(TunnelPacket::Opus { target, data, last }) => {
            assert_eq!(target, 3);
            assert_eq!(data, vec![1, 2, 3]);
            assert!(!last);
        }
        other => panic!("unexpected {:?}", other),
    }
    match parse_tunnel(&[0x80, 0xA0, 0x02, 9, 9]) {
        Some(TunnelPacket::Opus { data, last, .. }) => {
            assert_eq!(data, vec![9, 9]);
            assert!(last);
        }
        other => panic!("unexpected {:?}", other),
    }
}

#[test]
fn parses_a_tunnelled_ping() {
    match parse_tunnel(&[0x21, 0x00]) {
        Some(TunnelPacket::Ping { target }) => assert_eq!(target, 1),
        other => panic!("unexpected {:?}", other),
    }
}

#[test]
fn rejects_unreadable_tunnel_packets() {
    assert!(parse_tunnel(&[]).is_none());
    assert!(parse_tunnel(&[0x40, 0x00]).is_none());
    assert!(parse_tunnel(&[0x80]).is_none());
    assert!(parse_tunnel(&[0x80, 0xF8]).is_none());
    assert!(parse_tunnel(&[0x80, 0x04, 1, 2, 3]).is_none());
}

#[test]
fn builds_an_audio_packet() {
    assert_eq!(audio_packet(5, &[1, 2, 3], false), vec![0x80, 0x05, 0x03, 1, 2, 3]);
    assert_eq!(audio_packet(0x100, &[7], true), vec![0x80, 0x81, 0x00, 0xA0, 0x01, 7]);
}

#[test]
fn numbers_the_packets_of_a_transmission() {
    let frames = vec![vec![1u8], vec![2u8, 2], vec![3u8]];
    let packets = audio_packets(10, &frames);
    assert_eq!(packets.len(), 3);
    assert_eq!(packets[0], vec![0x80, 11, 1, 1]);
    assert_eq!(packets[1], vec![0x80, 12, 2, 2, 2]);
    assert_eq!(packets[2], vec![0x80, 13, 0xA0, 0x01, 3]);
    assert!(audio_packets(0, &Vec::new()).is_empty());
}

#[test]
fn sequence_starts_from_low_timestamp_bits() {
    assert_eq!(sequence_start(0x1234_5678), 0x5678);
    assert_eq!(sequence_start(0), 0);
    assert_eq!(sequence_start(-1), 0xFFFF);
}
