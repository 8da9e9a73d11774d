use mmo::varint::{decode_varint, write_varint, ByteCursor};
use mmo::VarintReader;

fn encode(v: u64) -> Vec<u8> {
    let mut out = Vec::new();
    write_varint(&mut out, v);
    out
}

#[test]
fn decodes_each_form() {
    assert_eq!(decode_varint(&[0x05]), Some((5, 1)));
    assert_eq!(decode_varint(&[0x7F, 0xAA]), Some((0x7F, 1)));
    assert_eq!(decode_varint(&[0x81, 0x02]), Some((0x102, 2)));
    assert_eq!(decode_varint(&[0xC1, 0x02, 0x03]), Some((0x1_0203, 3)));
    assert_eq!(decode_varint(&[0xE1, 0x02, 0x03, 0x04]), Some((0x102_0304, 4)));
    assert_eq!(decode_varint(&[0xF0, 0x01, 0x02, 0x03, 0x04]), Some((0x0102_0304, 5)));
    assert_eq!(decode_varint(&[0xF3, 0x01, 0x02, 0x03, 0x04]), Some((0x0102_0304, 5)));
    assert_eq!(
        decode_varint(&[0xF4, 1, 2, 3, 4, 5, 6, 7, 8, 9]),
        Some((0x0102_0304_0506_0708, 9))
    );
    assert_eq!(decode_varint(&[0xFC]), Some((u64::MAX, 1)));
    assert_eq!(decode_varint(&[0xFD]), Some((u64::MAX - 1, 1)));
    assert_eq!(decode_varint(&[0xFF]), Some((u64::MAX - 3, 1)));
}

#[test]
fn rejects_what_it_cannot_read() {
    assert_eq!(decode_varint(&[]), None);
    assert_eq!(decode_varint(&[0x81]), None);
    assert_eq!(decode_varint(&[0xC0, 0x00]), None);
    assert_eq!(decode_varint(&[0xE0, 0x00, 0x00]), None);
    assert_eq!(decode_varint(&[0xF0, 0, 0, 0]), None);
    assert_eq!(decode_varint(&[0xF4, 0, 0, 0, 0, 0, 0, 0]), None);
    assert_eq!(decode_varint(&[0xF8, 0x01]), None);
    assert_eq!(decode_varint(&[0xFB]), None);
}

#[test]
fn writes_the_shortest_form() {
    assert_eq!(encode(0), vec![0x00]);
    assert_eq!(encode(0x7F), vec![0x7F]);
    assert_eq!(encode(0x80), vec![0x80, 0x80]);
    assert_eq!(encode(0x3FFF), vec![0xBF, 0xFF]);
    assert_eq!(encode(0x4000), vec![0xC0, 0x40, 0x00]);
    assert_eq!(encode(0x1F_FFFF), vec![0xDF, 0xFF, 0xFF]);
    assert_eq!(encode(0x20_0000), vec![0xE0, 0x20, 0x00, 0x00]);
    assert_eq!(encode(0x0FFF_FFFF), vec![0xEF, 0xFF, 0xFF, 0xFF]);
    assert_eq!(encode(0x1000_0000), vec![0xF0, 0x10, 0x00, 0x00, 0x00]);
    assert_eq!(encode(0xFFFF_FFFF), vec![0xF0, 0xFF, 0xFF, 0xFF, 0xFF]);
    assert_eq!(encode(0x1_0000_0000), vec![0xF4, 0, 0, 0, 1, 0, 0, 0, 0]);
    assert_eq!(encode(u64::MAX), vec![0xFC]);
    assert_eq!(encode(u64::MAX - 3), vec![0xFF]);
    assert_eq!(
        encode(u64::MAX - 4),
        vec![0xF4, 0xFF, 0xFF, 0xFF, 0xFF, 0xFF, 0xFF, 0xFF, 0xFB]
    );
}

#[test]
fn write_appends() {
    let mut out = vec![0xAA];
    write_varint(&mut out, 300);
    assert_eq!(out, vec![0xAA, 0x81, 0x2C]);
}

#[test]
fn reads_back_what_was_written() {
    let values = [
        0u64, 1, 0x7F, 0x80, 0x3FFF, 0x4000, 0x1F_FFFF, 0x20_0000, 0x0FFF_FFFF,
        0x1000_0000, 0xFFFF_FFFF, 0x1_0000_0000, 0x1234_5678_9ABC_DEF0,
        u64::MAX - 4, u64::MAX - 3, u64::MAX - 1, u64::MAX,
    ];
    for &v in values.iter() {
        let mut bytes = encode(v);
        let n = bytes.len();
        bytes.extend_from_slice(&[0x81, 0x99]);
        assert_eq!(decode_varint(&bytes), Some((v, n)), "value {:#x}", v);
    }
}

#[test]
fn cursor_reads_in_sequence() {
    let mut bytes = encode(5);
    write_varint(&mut bytes, 0x4000);
    write_varint(&mut bytes, u64::MAX);
    bytes.push(0x42);
    let mut cursor = ByteCursor::new(bytes);
    assert_eq!(cursor.read_varint().unwrap(), 5);
    assert_eq!(cursor.position(), 1);
    assert_eq!(cursor.read_varint().unwrap(), 0x4000);
    assert_eq!(cursor.read_varint().unwrap(), u64::MAX);
    assert_eq!(cursor.position(), 5);
    assert_eq!(cursor.remaining(), &[0x42]);
    assert_eq!(cursor.read_varint().unwrap(), 0x42);
    assert_eq!(cursor.remaining(), &[] as &[u8]);
}

#[test]
fn cursor_position_after_each_form() {
    let cases: Vec<(Vec<u8>, u64, usize)> = vec![
        (vec![0xFD, 0x00], 0xFFFF_FFFF_FFFF_FFFE, 1),
        (vec![0x7F, 0x80], 0x7F, 1),
        (vec![0x81, 0x02, 0xAA], 0x0102, 2),
        (vec![0xC1, 0x02, 0x03, 0xAA], 0x01_0203, 3),
        (vec![0xE1, 0x02, 0x03, 0x04, 0xAA], 0x0102_0304, 4),
        (vec![0xF3, 0x12, 0x34, 0x56, 0x78, 0x9A], 0x1234_5678, 5),
        (vec![0xF4, 1, 2, 3, 4, 5, 6, 7, 8, 0xAA], 0x0102_0304_0506_0708, 9),
    ];
    for (bytes, value, size) in cases {
        let mut cursor = ByteCursor::new(bytes.clone());
        assert_eq!(cursor.read_varint().unwrap(), value);
        assert_eq!(cursor.position(), size);
        assert_eq!(cursor.remaining(), &bytes[size..]);
    }
}

#[test]
fn cursor_position_after_round_trip() {
    for &v in [0u64, 0x80, 0x4000, 0x20_0000, 0x1000_0000, 0x1_0000_0000, u64::MAX].iter() {
        let mut bytes = encode(v);
        let n = bytes.len();
        bytes.extend_from_slice(&[0x01, 0x02]);
        let mut cursor = ByteCursor::new(bytes);
        assert_eq!(cursor.read_varint().unwrap(), v);
        assert_eq!(cursor.position(), n);
    }
}
