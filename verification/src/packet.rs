//! Framing of Mumble control-channel packets: a big-endian 16-bit message
//! type, a big-endian 32-bit payload length, then the payload.
use vstd::prelude::*;
use vstd::slice::slice_subrange;

use crate::endian::{be_read_u16, be_read_u32, be_write_u16, be_write_u32};
use crate::varint::{be_bytes, be_num, lemma_be_fits, lemma_pow256_values};

verus! {

/// The size of a packet header: two bytes of type, four of length.
pub const HEADER_LEN: usize = 6;

/// The header of a control-channel packet.
#[derive(Clone, Copy, Debug, PartialEq, Eq, Structural)]
pub struct PacketHeader {
    /// The message type.
    pub kind: u16,
    /// The number of payload bytes that follow the header.
    pub length: u32,
}

/// The bytes of a packet of type `kind` that carries `payload`.
pub open spec fn spec_frame(kind: u16, payload: Seq<u8>) -> Seq<u8> {
    be_bytes(kind as nat, 2) + be_bytes(payload.len(), 4) + payload
}

/// Frames `payload` as a packet of type `kind`.
pub fn encode_packet(kind: u16, payload: &[u8]) -> (r: Vec<u8>)
    requires
        payload@.len() <= u32::MAX,
    ensures
        r@ == spec_frame(kind, payload@),
{
    let mut buf: Vec<u8> = Vec::new();
    let mut i: usize = 0;
    while i < HEADER_LEN
        invariant
            i <= HEADER_LEN,
            buf@.len() == i,
        decreases HEADER_LEN - i,
    {
        buf.push(0);
        i = i + 1;
    }
    proof {
        lemma_pow256_values();
        lemma_be_fits(kind as nat, 2);
        lemma_be_fits(payload@.len(), 4);
    }
    be_write_u16(&mut buf, 0, kind);
    be_write_u32(&mut buf, 2, payload.len() as u32);
    let ghost header = buf@;
    proof {
        assert(header =~= be_bytes(kind as nat, 2) + be_bytes(payload@.len(), 4));
    }
    let mut j: usize = 0;
    while j < payload.len()
        invariant
            j <= payload@.len(),
            buf@ == header + payload@.take(j as int),
        decreases payload@.len() - j,
    {
        buf.push(payload[j]);
        j = j + 1;
        assert(buf@ =~= header + payload@.take(j as int));
    }
    assert(payload@.take(payload@.len() as int) =~= payload@);
    buf
}

/// Reads the header at the front of `bytes`.
pub fn decode_header(bytes: &[u8]) -> (h: PacketHeader)
    requires
        bytes@.len() >= HEADER_LEN,
    ensures
        h.kind == be_num(bytes@.take(2)),
        h.length == be_num(bytes@.subrange(2, 6)),
{
    let kind = be_read_u16(bytes);
    let rest = slice_subrange(bytes, 2, 6);
    let length = be_read_u32(rest);
    assert(rest@.take(4) =~= bytes@.subrange(2, 6));
    PacketHeader { kind, length }
}

/// A framed packet carries its type and payload length in its header, and
/// its payload after the header.
pub proof fn lemma_frame_roundtrip(kind: u16, payload: Seq<u8>)
    requires
        payload.len() <= u32::MAX,
    ensures
        spec_frame(kind, payload).len() == HEADER_LEN + payload.len(),
        be_num(spec_frame(kind, payload).take(2)) == kind,
        be_num(spec_frame(kind, payload).subrange(2, 6)) == payload.len(),
        spec_frame(kind, payload).skip(6) == payload,
{
    lemma_pow256_values();
    lemma_be_fits(kind as nat, 2);
    lemma_be_fits(payload.len(), 4);
    let f = spec_frame(kind, payload);
    assert(f.take(2) =~= be_bytes(kind as nat, 2));
    assert(f.subrange(2, 6) =~= be_bytes(payload.len(), 4));
    assert(f.skip(6) =~= payload);
}

/// The control-channel message types that this client sends or handles.
#[derive(Clone, Copy, Debug, PartialEq, Eq, Structural)]
pub enum MessageType {
    Version,
    UdpTunnel,
    Authenticate,
    Ping,
    ServerSync,
    ChannelState,
    UserState,
    TextMessage,
    CryptSetup,
    PermissionQuery,
    CodecVersion,
    ServerConfig,
    /// Any other type code.
    Other(u16),
}

/// The message type that the code `kind` stands for.
pub open spec fn spec_message_type(kind: u16) -> MessageType {
    if kind == 0 {
        MessageType::Version
    } else if kind == 1 {
        MessageType::UdpTunnel
    } else if kind == 2 {
        MessageType::Authenticate
    } else if kind == 3 {
        MessageType::Ping
    } else if kind == 5 {
        MessageType::ServerSync
    } else if kind == 7 {
        MessageType::ChannelState
    } else if kind == 9 {
        MessageType::UserState
    } else if kind == 11 {
        MessageType::TextMessage
    } else if kind == 15 {
        MessageType::CryptSetup
    } else if kind == 20 {
        MessageType::PermissionQuery
    } else if kind == 21 {
        MessageType::CodecVersion
    } else if kind == 24 {
        MessageType::ServerConfig
    } else {
        MessageType::Other(kind)
    }
}

/// The code of the message type `t`.
pub open spec fn spec_type_code(t: MessageType) -> u16 {
    match t {
        MessageType::Version => 0,
        MessageType::UdpTunnel => 1,
        MessageType::Authenticate => 2,
        MessageType::Ping => 3,
        MessageType::ServerSync => 5,
        MessageType::ChannelState => 7,
        MessageType::UserState => 9,
        MessageType::TextMessage => 11,
        MessageType::CryptSetup => 15,
        MessageType::PermissionQuery => 20,
        MessageType::CodecVersion => 21,
        MessageType::ServerConfig => 24,
        MessageType::Other(k) => k,
    }
}

/// Classifies the type code of a received packet.
pub fn message_type(kind: u16) -> (t: MessageType)
    ensures
        t == spec_message_type(kind),
{
    match kind {
        0 => MessageType::Version,
        1 => MessageType::UdpTunnel,
        2 => MessageType::Authenticate,
        3 => MessageType::Ping,
        5 => MessageType::ServerSync,
        7 => MessageType::ChannelState,
        9 => MessageType::UserState,
        11 => MessageType::TextMessage,
        15 => MessageType::CryptSetup,
        20 => MessageType::PermissionQuery,
        21 => MessageType::CodecVersion,
        24 => MessageType::ServerConfig,
        _ => MessageType::Other(kind),
    }
}

/// The type code to put in the header of a message of type `t`.
pub fn type_code(t: MessageType) -> (k: u16)
    ensures
        k == spec_type_code(t),
{
    match t {
        MessageType::Version => 0,
        MessageType::UdpTunnel => 1,
        MessageType::Authenticate => 2,
        MessageType::Ping => 3,
        MessageType::ServerSync => 5,
        MessageType::ChannelState => 7,
        MessageType::UserState => 9,
        MessageType::TextMessage => 11,
        MessageType::CryptSetup => 15,
        MessageType::PermissionQuery => 20,
        MessageType::CodecVersion => 21,
        MessageType::ServerConfig => 24,
        MessageType::Other(k) => k,
    }
}

/// Classifying a code and taking the code of the class gives the code back;
/// a type that is not `Other` of a known code survives the way back.
pub proof fn lemma_type_code_roundtrip(kind: u16, t: MessageType)
    ensures
        spec_type_code(spec_message_type(kind)) == kind,
        (t matches MessageType::Other(k) ==> spec_message_type(k) is Other) ==> spec_message_type(
            spec_type_code(t),
        ) == t,
{
}

/// Each message type has its fixed code of the Mumble protocol, and a code
/// that no named type has is classified as `Other` of itself.
pub proof fn lemma_message_codes(kind: u16)
    ensures
        (spec_message_type(kind) == MessageType::Version) == (kind == 0),
        (spec_message_type(kind) == MessageType::UdpTunnel) == (kind == 1),
        (spec_message_type(kind) == MessageType::Authenticate) == (kind == 2),
        (spec_message_type(kind) == MessageType::Ping) == (kind == 3),
        (spec_message_type(kind) == MessageType::ServerSync) == (kind == 5),
        (spec_message_type(kind) == MessageType::ChannelState) == (kind == 7),
        (spec_message_type(kind) == MessageType::UserState) == (kind == 9),
        (spec_message_type(kind) == MessageType::TextMessage) == (kind == 11),
        (spec_message_type(kind) == MessageType::CryptSetup) == (kind == 15),
        (spec_message_type(kind) == MessageType::PermissionQuery) == (kind == 20),
        (spec_message_type(kind) == MessageType::CodecVersion) == (kind == 21),
        (spec_message_type(kind) == MessageType::ServerConfig) == (kind == 24),
        (spec_message_type(kind) == MessageType::Other(kind)) == !(kind == 0 || kind == 1 || kind
            == 2 || kind == 3 || kind == 5 || kind == 7 || kind == 9 || kind == 11 || kind == 15
            || kind == 20 || kind == 21 || kind == 24),
        spec_type_code(MessageType::Version) == 0,
        spec_type_code(MessageType::UdpTunnel) == 1,
        spec_type_code(MessageType::Authenticate) == 2,
        spec_type_code(MessageType::Ping) == 3,
        spec_type_code(MessageType::ServerSync) == 5,
        spec_type_code(MessageType::ChannelState) == 7,
        spec_type_code(MessageType::UserState) == 9,
        spec_type_code(MessageType::TextMessage) == 11,
        spec_type_code(MessageType::CryptSetup) == 15,
        spec_type_code(MessageType::PermissionQuery) == 20,
        spec_type_code(MessageType::CodecVersion) == 21,
        spec_type_code(MessageType::ServerConfig) == 24,
        spec_type_code(MessageType::Other(kind)) == kind,
{
}

} // verus!
