use mmo::client::{on_packet, ReaderAction, VoxBuffer};
use mmo::packet::MessageType;

#[test]
fn decides_on_each_packet() {
    match on_packet(7, 5, &[1, 2]) {
        Some(ReaderAction::Decode(t)) => assert_eq!(t, MessageType::ServerSync),
        other => panic!("unexpected {:?}", other),
    }
    match on_packet(7, 24, &[]) {
        Some(ReaderAction::Decode(t)) => assert_eq!(t, MessageType::ServerConfig),
        other => panic!("unexpected {:?}", other),
    }
    assert!(matches!(on_packet(7, 3, &[]), Some(ReaderAction::Skip)));
    assert!(matches!(on_packet(7, 99, &[]), Some(ReaderAction::Skip)));
    assert!(matches!(on_packet(7, 1, &[0x20]), Some(ReaderAction::Skip)));
    match on_packet(7, 1, &[0x80, 0xA0, 0x02, 5, 6]) {
        Some(ReaderAction::Voice { data, last, session }) => {
            assert_eq!(data, vec![5, 6]);
            assert!(last);
            assert_eq!(session, 7);
        }
        other => panic!("unexpected {:?}", other),
    }
    assert!(on_packet(7, 1, &[0x60]).is_none());
    assert!(on_packet(7, 1, &[]).is_none());
}

#[test]
fn gathers_an_utterance() {
    let mut vox = VoxBuffer::new();
    assert!(vox.push(vec![1, 2], 4, false).is_none());
    assert!(vox.push(vec![3], 4, false).is_none());
    let u = vox.push(vec![4, 5], 9, true).unwrap();
    assert_eq!(u.audio, vec![1, 2, 3, 4, 5]);
    assert_eq!(u.session, 9);
    let u = vox.push(vec![6], 9, true).unwrap();
    assert_eq!(u.audio, vec![6]);
}
