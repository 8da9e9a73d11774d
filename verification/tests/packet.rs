use mmo::packet::{decode_header, encode_packet, message_type, type_code, MessageType, HEADER_LEN};

#[test]
fn frames_a_packet() {
    let framed = encode_packet(3, &[]);
    assert_eq!(framed, vec![0, 3, 0, 0, 0, 0]);
    let framed = encode_packet(0x0102, &[9, 8, 7]);
    assert_eq!(framed, vec![0x01, 0x02, 0, 0, 0, 3, 9, 8, 7]);
}

#[test]
fn reads_back_a_header() {
    let payload: Vec<u8> = (0..300u32).map(|i| i as u8).collect();
    let framed = encode_packet(24, &payload);
    let header = decode_header(&framed);
    assert_eq!(header.kind, 24);
    assert_eq!(header.length, 300);
    assert_eq!(&framed[HEADER_LEN..], &payload[..]);
}

#[test]
fn reads_big_endian_fields() {
    let header = decode_header(&[0xAB, 0xCD, 0x01, 0x02, 0x03, 0x04, 0xFF]);
    assert_eq!(header.kind, 0xABCD);
    assert_eq!(header.length, 0x0102_0304);
}

#[test]
fn classifies_message_types() {
    assert_eq!(message_type(0), MessageType::Version);
    assert_eq!(message_type(1), MessageType::UdpTunnel);
    assert_eq!(message_type(5), MessageType::ServerSync);
    assert_eq!(message_type(24), MessageType::ServerConfig);
    assert_eq!(message_type(4), MessageType::Other(4));
    for k in 0..40u16 {
        assert_eq!(type_code(message_type(k)), k);
    }
    assert_eq!(type_code(MessageType::Authenticate), 2);
    assert_eq!(type_code(MessageType::Ping), 3);
}
