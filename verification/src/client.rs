//! The decisions of the voice client: what to do with each packet that the
//! server sends, and how incoming voice is gathered into utterances.
use vstd::prelude::*;

use crate::audio::{parse_tunnel, tunnel_ok, TunnelPacket};
use crate::packet::{message_type, spec_message_type, MessageType};

verus! {

/// What the client does with a received packet.
#[derive(Debug)]
pub enum ReaderAction {
    /// Decode the payload as a message of this type and log it; a
    /// `ServerSync` message also gives the client its session number.
    Decode(MessageType),
    /// Decode this Opus frame and add the audio to the utterance of
    /// `session`; `last` ends the utterance.
    Voice { data: Vec<u8>, last: bool, session: u32 },
    /// Nothing to do: a tunnelled ping, or a type the client ignores.
    Skip,
}

/// Whether the client decodes and logs messages of type `t`.
pub open spec fn logged_type(t: MessageType) -> bool {
    match t {
        MessageType::Version | MessageType::ServerSync | MessageType::ChannelState
        | MessageType::UserState | MessageType::TextMessage | MessageType::CryptSetup
        | MessageType::PermissionQuery | MessageType::CodecVersion
        | MessageType::ServerConfig => true,
        _ => false,
    }
}

/// Decides what to do with a packet of type code `kind` and `payload`,
/// received while the client's session number is `session`. `None` where
/// the packet is an audio packet that the client cannot read (see
/// [`tunnel_ok`]).
pub fn on_packet(session: u32, kind: u16, payload: &[u8]) -> (r: Option<ReaderAction>)
    ensures
        r is None <==> (spec_message_type(kind) == MessageType::UdpTunnel && !tunnel_ok(
            payload@,
        )),
        r matches Some(ReaderAction::Decode(t)) ==> t == spec_message_type(kind) && logged_type(
            t,
        ),
        r matches Some(ReaderAction::Skip) ==> !logged_type(spec_message_type(kind)),
        (r matches Some(ReaderAction::Decode(_))) == (kind == 0 || kind == 5 || kind == 7 || kind
            == 9 || kind == 11 || kind == 15 || kind == 20 || kind == 21 || kind == 24),
        r matches Some(ReaderAction::Voice { data, last, session: s }) ==> {
            &&& spec_message_type(kind) == MessageType::UdpTunnel
            &&& s == session
            &&& parse_tunnel_voice(payload@, data@, last)
        },
        spec_message_type(kind) == MessageType::UdpTunnel && tunnel_ok(payload@) ==> (r matches Some(
            ReaderAction::Skip,
        ) <==> payload@[0] & crate::audio::AUDIO_TYPE_MASK == crate::audio::AUDIO_PING),
{
    let t = message_type(kind);
    match t {
        MessageType::UdpTunnel => match parse_tunnel(payload) {
            None => None,
            Some(TunnelPacket::Ping { .. }) => Some(ReaderAction::Skip),
            Some(TunnelPacket::Opus { data, last, .. }) => Some(
                ReaderAction::Voice { data, last, session },
            ),
        },
        MessageType::Version | MessageType::ServerSync | MessageType::ChannelState
        | MessageType::UserState | MessageType::TextMessage | MessageType::CryptSetup
        | MessageType::PermissionQuery | MessageType::CodecVersion
        | MessageType::ServerConfig => Some(ReaderAction::Decode(t)),
        _ => Some(ReaderAction::Skip),
    }
}

/// The client decodes and logs exactly the messages of the codes of
/// Version, ServerSync, ChannelState, UserState, TextMessage, CryptSetup,
/// PermissionQuery, CodecVersion and ServerConfig.
pub proof fn lemma_logged_codes(kind: u16)
    ensures
        logged_type(spec_message_type(kind)) == (kind == 0 || kind == 5 || kind == 7 || kind == 9
            || kind == 11 || kind == 15 || kind == 20 || kind == 21 || kind == 24),
{
}

/// The Opus frame and end mark that [`parse_tunnel`] reads from `s`.
pub open spec fn parse_tunnel_voice(s: Seq<u8>, data: Seq<u8>, last: bool) -> bool {
    let (field, n) = crate::varint::spec_varint(s.skip(1)).unwrap();
    &&& s[0] & crate::audio::AUDIO_TYPE_MASK == crate::audio::AUDIO_OPUS
    &&& last == (field & crate::audio::LAST_FRAME == crate::audio::LAST_FRAME)
    &&& data == s.subrange(1 + n as int, 1 + n + (field & crate::audio::FRAME_LENGTH_MASK))
}

/// The decoded audio of a finished incoming transmission.
#[derive(Debug)]
pub struct Utterance {
    pub audio: Vec<u8>,
    pub session: u32,
}

/// Gathers the decoded audio of an incoming transmission until its last
/// frame arrives.
pub struct VoxBuffer {
    pending: Option<Vec<u8>>,
}

impl VoxBuffer {
    /// The audio gathered so far of the transmission in progress.
    pub closed spec fn pending(&self) -> Seq<u8> {
        match self.pending {
            Some(v) => v@,
            None => Seq::empty(),
        }
    }

    /// A buffer with no transmission in progress.
    pub fn new() -> (b: Self)
        ensures
            b.pending() == Seq::<u8>::empty(),
    {
        VoxBuffer { pending: None }
    }

    /// Adds `chunk` of the transmission of `session`. On its last chunk the
    /// whole transmission comes out and the buffer starts afresh.
    pub fn push(&mut self, chunk: Vec<u8>, session: u32, last: bool) -> (r: Option<Utterance>)
        ensures
            last ==> (r matches Some(u) && u.audio@ == old(self).pending() + chunk@ && u.session
                == session),
            last ==> final(self).pending() == Seq::<u8>::empty(),
            !last ==> r is None,
            !last ==> final(self).pending() == old(self).pending() + chunk@,
    {
        let mut chunk = chunk;
        let mut buf = match self.pending.take() {
            Some(buf) => buf,
            None => Vec::new(),
        };
        assert(buf@ == old(self).pending());
        buf.append(&mut chunk);
        if last {
            self.pending = None;
            Some(Utterance { audio: buf, session })
        } else {
            self.pending = Some(buf);
            None
        }
    }
}

} // verus!
