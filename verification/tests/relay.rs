use mmo::relay::{ClientTable, PeerAddr};
use mmo::{err_str, Client, ErrorKind, LineCodec};

fn v4(last: u8, port: u16) -> PeerAddr {
    PeerAddr::V4 { ip: 0x7F00_0000 | last as u32, port }
}

const SEC: u128 = 1_000_000_000;

#[test]
fn codec_passes_datagrams_through() {
    let mut codec = LineCodec;
    let a = v4(1, 9000);
    let (addr, bytes) = codec.decode(&a, &[1, 2, 3]).unwrap();
    assert_eq!(addr, a);
    assert_eq!(bytes, vec![1, 2, 3]);
    let mut into = vec![9];
    let dest = codec.encode((a, vec![4, 5]), &mut into);
    assert_eq!(dest, a);
    assert_eq!(into, vec![9, 4, 5]);
}

#[test]
fn relays_to_every_other_client() {
    let mut table = ClientTable::new();
    let (a, b, c) = (v4(1, 1), v4(2, 2), v4(3, 3));
    let out = table.on_datagram(a, 0, 5 * SEC);
    assert!(out.connected);
    assert!(out.recipients.is_empty());
    assert!(out.expired.is_empty());
    let out = table.on_datagram(b, SEC, 5 * SEC);
    assert!(out.connected);
    assert_eq!(out.recipients, vec![a]);
    let out = table.on_datagram(c, 2 * SEC, 5 * SEC);
    assert_eq!(out.recipients, vec![a, b]);
    let out = table.on_datagram(a, 3 * SEC, 5 * SEC);
    assert!(!out.connected);
    assert_eq!(out.recipients, vec![b, c]);
    assert_eq!(table.len(), 3);
}

#[test]
fn drops_silent_clients() {
    let mut table = ClientTable::new();
    let (a, b) = (v4(1, 1), v4(2, 2));
    table.on_datagram(a, 0, 5 * SEC);
    table.on_datagram(b, SEC, 5 * SEC);
    // exactly at the limit a client is kept
    let out = table.on_datagram(b, 5 * SEC, 5 * SEC);
    assert!(out.expired.is_empty());
    assert_eq!(out.recipients, vec![a]);
    let out = table.on_datagram(b, 5 * SEC + 1, 5 * SEC);
    assert_eq!(out.expired, vec![a]);
    assert!(out.recipients.is_empty());
    assert_eq!(table.len(), 1);
    // a dropped client that speaks again connects anew
    let out = table.on_datagram(a, 6 * SEC, 5 * SEC);
    assert!(out.connected);
    assert_eq!(out.recipients, vec![b]);
}

#[test]
fn tells_v4_from_v6() {
    let mut table = ClientTable::new();
    let a = PeerAddr::V4 { ip: 1, port: 80 };
    let b = PeerAddr::V6 { ip: 1, port: 80, flowinfo: 0, scope_id: 0 };
    table.on_datagram(a, 0, SEC);
    let out = table.on_datagram(b, 0, SEC);
    assert!(out.connected);
    assert_eq!(out.recipients, vec![a]);
}

#[test]
fn client_records_its_instant() {
    let c = Client { instant: 42 };
    assert_eq!(c.instant, 42);
}

#[test]
fn err_str_keeps_the_message() {
    let e = err_str("lex request".to_string());
    assert_eq!(e.kind, ErrorKind::Other);
    assert_eq!(e.message, "lex request");
}
