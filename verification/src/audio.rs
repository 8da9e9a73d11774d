//! Voice data: 16-bit PCM in little-endian bytes, 20 ms frames, and the
//! audio packets tunnelled through the control channel.
use vstd::prelude::*;
use vstd::slice::{slice_subrange, slice_to_vec};

use crate::endian::{le_i16_bytes, le_i16_value, le_read_i16, le_write_i16};
use crate::varint::{
    decode_varint, lemma_varint_prefix, lemma_varint_roundtrip, spec_encode, spec_varint,
    write_varint,
};

verus! {

/// The samples in one frame: 20 ms of 16 kHz mono audio.
pub const FRAME_SAMPLES: usize = 320;

/// The samples held in `bytes`, two little-endian bytes each; an odd last
/// byte is left over.
pub open spec fn spec_pcm_samples(bytes: Seq<u8>) -> Seq<i16> {
    Seq::new(bytes.len() / 2, |i: int| le_i16_value(bytes[2 * i], bytes[2 * i + 1]) as i16)
}

/// The little-endian bytes of `samples`, two per sample.
pub open spec fn spec_pcm_bytes(samples: Seq<i16>) -> Seq<u8> {
    Seq::new(2 * samples.len(), |j: int| le_i16_bytes(samples[j / 2])[j % 2])
}

/// Reads little-endian 16-bit samples from `bytes` while two bytes remain.
pub fn pcm_from_le_bytes(bytes: &[u8]) -> (r: Vec<i16>)
    ensures
        r@ == spec_pcm_samples(bytes@),
{
    let mut r: Vec<i16> = Vec::new();
    let mut pos: usize = 0;
    let len = bytes.len();
    while len - pos >= 2
        invariant
            len == bytes@.len(),
            pos <= len,
            pos == 2 * r@.len(),
            r@ =~= spec_pcm_samples(bytes@).take(r@.len() as int),
            r@.len() <= bytes@.len() / 2,
        decreases len - pos,
    {
        let pair = slice_subrange(bytes, pos, pos + 2);
        let x = le_read_i16(pair);
        r.push(x);
        pos = pos + 2;
    }
    assert(r@ =~= spec_pcm_samples(bytes@));
    r
}

/// Writes `samples` as little-endian 16-bit values, two bytes each.
pub fn pcm_to_le_bytes(samples: &[i16]) -> (r: Vec<u8>)
    requires
        2 * samples@.len() <= usize::MAX,
    ensures
        r@ == spec_pcm_bytes(samples@),
{
    let n = samples.len();
    let mut r: Vec<u8> = Vec::new();
    let mut i: usize = 0;
    while i < 2 * n
        invariant
            i <= 2 * n,
            n == samples@.len(),
            2 * n <= usize::MAX,
            r@.len() == i,
        decreases 2 * n - i,
    {
        r.push(0);
        i = i + 1;
    }
    let mut k: usize = 0;
    while k < n
        invariant
            k <= n,
            n == samples@.len(),
            2 * n <= usize::MAX,
            r@.len() == 2 * n,
            forall|j: int| 0 <= j < 2 * k ==> r@[j] == spec_pcm_bytes(samples@)[j],
        decreases n - k,
    {
        let ghost before = r@;
        le_write_i16(&mut r, 2 * k, samples[k]);
        proof {
            assert forall|j: int| 0 <= j < 2 * (k + 1) implies r@[j] == spec_pcm_bytes(
                samples@,
            )[j] by {
                if j < 2 * k {
                    assert(r@[j] == before[j]);
                } else {
                    assert(j / 2 == k);
                }
            }
        }
        k = k + 1;
    }
    assert(r@ =~= spec_pcm_bytes(samples@));
    r
}

proof fn lemma_i16_bytes_roundtrip(x: i16)
    ensures
        le_i16_value(le_i16_bytes(x)[0], le_i16_bytes(x)[1]) == x,
{
}

proof fn lemma_i16_value_roundtrip(lo: u8, hi: u8)
    ensures
        le_i16_bytes(le_i16_value(lo, hi) as i16) == seq![lo, hi],
{
    let v = le_i16_value(lo, hi);
    assert(-0x8000 <= v < 0x8000);
    assert(le_i16_bytes(v as i16) =~= seq![lo, hi]);
}

/// Reading back the bytes of some samples gives the samples.
pub proof fn lemma_pcm_roundtrip(samples: Seq<i16>)
    ensures
        spec_pcm_samples(spec_pcm_bytes(samples)) == samples,
{
    let b = spec_pcm_bytes(samples);
    assert forall|i: int| 0 <= i < samples.len() implies spec_pcm_samples(b)[i] == samples[i] by {
        lemma_i16_bytes_roundtrip(samples[i]);
        assert((2 * i) / 2 == i);
        assert((2 * i + 1) / 2 == i);
        assert((2 * i) % 2 == 0);
        assert((2 * i + 1) % 2 == 1);
    }
    assert(spec_pcm_samples(b) =~= samples);
}

/// Writing out the samples read from some bytes gives back those bytes,
/// but for an odd last byte.
pub proof fn lemma_pcm_bytes_roundtrip(bytes: Seq<u8>)
    ensures
        spec_pcm_bytes(spec_pcm_samples(bytes)) == bytes.take((2 * (bytes.len() / 2)) as int),
{
    let s = spec_pcm_samples(bytes);
    let b = spec_pcm_bytes(s);
    assert forall|j: int| 0 <= j < 2 * (bytes.len() / 2) implies b[j] == bytes[j] by {
        let i = j / 2;
        lemma_i16_value_roundtrip(bytes[2 * i], bytes[2 * i + 1]);
    }
    assert(b =~= bytes.take((2 * (bytes.len() / 2)) as int));
}

/// `chunk` followed by zeros up to a full frame.
pub open spec fn pad_frame(chunk: Seq<i16>) -> Seq<i16> {
    chunk + Seq::new((FRAME_SAMPLES - chunk.len()) as nat, |i: int| 0i16)
}

/// `pcm` cut into consecutive chunks of [`FRAME_SAMPLES`] samples, the last
/// chunk padded with zeros to a full frame.
pub open spec fn spec_frames(pcm: Seq<i16>) -> Seq<Seq<i16>>
    decreases pcm.len(),
{
    if pcm.len() == 0 {
        Seq::empty()
    } else {
        let n = if pcm.len() < FRAME_SAMPLES {
            pcm.len()
        } else {
            FRAME_SAMPLES as nat
        };
        seq![pad_frame(pcm.take(n as int))] + spec_frames(pcm.skip(n as int))
    }
}

/// The contents of each of `frames`.
pub open spec fn frames_view<T>(frames: Seq<Vec<T>>) -> Seq<Seq<T>> {
    frames.map_values(|f: Vec<T>| f@)
}

/// Cuts `pcm` into full frames for the encoder, padding the last with
/// silence.
pub fn split_frames(pcm: &[i16]) -> (r: Vec<Vec<i16>>)
    ensures
        frames_view(r@) == spec_frames(pcm@),
{
    let len = pcm.len();
    let mut r: Vec<Vec<i16>> = Vec::new();
    let mut base: usize = 0;
    assert(pcm@.skip(0) =~= pcm@);
    while base < len
        invariant
            len == pcm@.len(),
            base <= len,
            frames_view(r@) + spec_frames(pcm@.skip(base as int)) == spec_frames(pcm@),
        decreases len - base,
    {
        let n = if len - base < FRAME_SAMPLES {
            len - base
        } else {
            FRAME_SAMPLES
        };
        let ghost rest = pcm@.skip(base as int);
        let mut frame: Vec<i16> = Vec::new();
        let mut i: usize = 0;
        while i < FRAME_SAMPLES
            invariant
                len == pcm@.len(),
                base + n <= len,
                n <= FRAME_SAMPLES,
                i <= FRAME_SAMPLES,
                rest == pcm@.skip(base as int),
                frame@ =~= pad_frame(rest.take(n as int)).take(i as int),
            decreases FRAME_SAMPLES - i,
        {
            if i < n {
                frame.push(pcm[base + i]);
            } else {
                frame.push(0);
            }
            i = i + 1;
        }
        assert(frame@ =~= pad_frame(rest.take(n as int)));
        let ghost before = r@;
        r.push(frame);
        proof {
            assert(rest.skip(n as int) =~= pcm@.skip(base + n));
            assert(frames_view(r@) =~= frames_view(before).push(pad_frame(rest.take(n as int))));
            assert(spec_frames(rest) == seq![pad_frame(rest.take(n as int))] + spec_frames(
                rest.skip(n as int),
            ));
            assert(frames_view(r@) + spec_frames(pcm@.skip(base + n)) =~= frames_view(before)
                + spec_frames(rest));
        }
        base = base + n;
    }
    assert(pcm@.skip(len as int) =~= Seq::<i16>::empty());
    assert(frames_view(r@) + spec_frames(pcm@.skip(len as int)) =~= frames_view(r@));
    r
}

/// Every frame holds [`FRAME_SAMPLES`] samples: frame `k` holds samples
/// `320 k ..` of `pcm`, then silence past its end; there are just enough
/// frames to hold every sample.
pub proof fn lemma_frames_shape(pcm: Seq<i16>)
    ensures
        spec_frames(pcm).len() == (pcm.len() + 319) / 320,
        forall|k: int|
            0 <= k < spec_frames(pcm).len() ==> #[trigger] spec_frames(pcm)[k].len()
                == FRAME_SAMPLES,
        forall|k: int, i: int|
            0 <= k < spec_frames(pcm).len() && 0 <= i < FRAME_SAMPLES ==> #[trigger] spec_frames(
                pcm,
            )[k][i] == if 320 * k + i < pcm.len() {
                pcm[320 * k + i]
            } else {
                0i16
            },
    decreases pcm.len(),
{
    if pcm.len() > 0 {
        let n: int = if pcm.len() < FRAME_SAMPLES {
            pcm.len() as int
        } else {
            FRAME_SAMPLES as int
        };
        let rest = pcm.skip(n);
        lemma_frames_shape(rest);
        let head = pad_frame(pcm.take(n));
        let f = spec_frames(pcm);
        assert(f == seq![head] + spec_frames(rest));
        if pcm.len() < FRAME_SAMPLES {
            assert(rest.len() == 0);
        }
        assert forall|k: int| 0 <= k < f.len() implies #[trigger] f[k].len() == FRAME_SAMPLES by {
            if k > 0 {
                assert(f[k] == spec_frames(rest)[k - 1]);
            }
        }
        assert forall|k: int, i: int|
            0 <= k < f.len() && 0 <= i < FRAME_SAMPLES implies #[trigger] f[k][i] == if 320 * k
            + i < pcm.len() {
            pcm[320 * k + i]
        } else {
            0i16
        } by {
            if k > 0 {
                assert(f[k] == spec_frames(rest)[k - 1]);
                assert(320 * (k - 1) + i + 320 == 320 * k + i);
            }
        }
    }
}

/// The bits of an audio packet's first byte that give its type.
pub const AUDIO_TYPE_MASK: u8 = 0xE0;

/// The bits of an audio packet's first byte that give its target.
pub const AUDIO_TARGET_MASK: u8 = 0x1F;

/// The type bits of an Opus voice packet: `0b100 << 5`.
pub const AUDIO_OPUS: u8 = 0x80;

/// The type bits of a tunnelled UDP ping.
pub const AUDIO_PING: u8 = 0x20;

/// The bit of an Opus length field that marks the last frame of a
/// transmission.
pub const LAST_FRAME: u64 = 0x2000;

/// The bits of an Opus length field that hold the frame's length.
pub const FRAME_LENGTH_MASK: u64 = 0x1FFF;

/// An audio packet received through the control channel.
#[derive(Debug)]
pub enum TunnelPacket {
    /// An Opus frame for `target`; `last` marks the end of a transmission.
    Opus { target: u8, data: Vec<u8>, last: bool },
    /// A tunnelled ping.
    Ping { target: u8 },
}

/// Whether the receiver handles the audio packet `s`: it holds a type byte
/// of a ping, or of an Opus frame followed by a length field and at least
/// as many bytes as that field announces.
pub open spec fn tunnel_ok(s: Seq<u8>) -> bool {
    &&& s.len() >= 1
    &&& {
        ||| s[0] & AUDIO_TYPE_MASK == AUDIO_PING
        ||| s[0] & AUDIO_TYPE_MASK == AUDIO_OPUS && match spec_varint(s.skip(1)) {
            Some((field, n)) => 1 + n + (field & FRAME_LENGTH_MASK) <= s.len(),
            None => false,
        }
    }
}

/// Reads an audio packet received through the control channel: a type and
/// target byte, then for an Opus frame a length field whose low 13 bits
/// give the frame's length and whose bit 13 marks the last frame, then the
/// frame. `None` where the packet is empty, of another type, or shorter
/// than it announces.
pub fn parse_tunnel(buf: &[u8]) -> (r: Option<TunnelPacket>)
    ensures
        r is Some <==> tunnel_ok(buf@),
        r matches Some(TunnelPacket::Ping { target }) ==> buf@[0] & AUDIO_TYPE_MASK == AUDIO_PING
            && target == buf@[0] & AUDIO_TARGET_MASK,
        r matches Some(TunnelPacket::Opus { target, data, last }) ==> {
            let (field, n) = spec_varint(buf@.skip(1)).unwrap();
            &&& buf@[0] & AUDIO_TYPE_MASK == AUDIO_OPUS
            &&& target == buf@[0] & AUDIO_TARGET_MASK
            &&& last == (field & LAST_FRAME == LAST_FRAME)
            &&& data@ == buf@.subrange(1 + n as int, 1 + n + (field & FRAME_LENGTH_MASK))
        },
{
    let len = buf.len();
    if len == 0 {
        return None;
    }
    let header = buf[0];
    let kind = header & AUDIO_TYPE_MASK;
    let target = header & AUDIO_TARGET_MASK;
    if kind == AUDIO_PING {
        return Some(TunnelPacket::Ping { target });
    }
    if kind != AUDIO_OPUS {
        return None;
    }
    let rest = slice_subrange(buf, 1, len);
    assert(rest@ =~= buf@.skip(1));
    let (field, n) = match decode_varint(rest) {
        Some(found) => found,
        None => {
            return None;
        },
    };
    proof {
        lemma_varint_prefix(rest@, Seq::empty());
    }
    let last = field & LAST_FRAME == LAST_FRAME;
    let frame_len = field & FRAME_LENGTH_MASK;
    assert(frame_len <= 0x1FFF) by (bit_vector)
        requires
            frame_len == field & 0x1FFF,
    ;
    let start = 1 + n;
    if ((len - start) as u64) < frame_len {
        return None;
    }
    let end = start + frame_len as usize;
    let data = slice_to_vec(slice_subrange(buf, start, end));
    Some(TunnelPacket::Opus { target, data, last })
}

/// The length field of an outgoing frame of `len` bytes: the length, with
/// bit 13 set on the last frame of a transmission.
pub open spec fn length_field(len: u64, last: bool) -> u64 {
    if last {
        len | LAST_FRAME
    } else {
        len
    }
}

/// The bytes of an outgoing Opus packet: the Opus type byte with target 0,
/// the sequence number, the length field, then the frame.
pub open spec fn spec_audio_packet(seq: u64, frame: Seq<u8>, last: bool) -> Seq<u8> {
    seq![AUDIO_OPUS] + spec_encode(seq) + spec_encode(length_field(frame.len() as u64, last))
        + frame
}

/// Builds the packet that sends the Opus `frame` as number `seq` of a
/// transmission; `last` marks the transmission's final frame.
pub fn audio_packet(seq: u64, frame: &[u8], last: bool) -> (r: Vec<u8>)
    ensures
        r@ == spec_audio_packet(seq, frame@, last),
        r@[0] == 0x80,
{
    let mut out: Vec<u8> = Vec::new();
    out.push(AUDIO_OPUS);
    write_varint(&mut out, seq);
    let len = frame.len() as u64;
    let field = if last {
        len | LAST_FRAME
    } else {
        len
    };
    write_varint(&mut out, field);
    let ghost head = out@;
    let mut i: usize = 0;
    while i < frame.len()
        invariant
            i <= frame@.len(),
            out@ == head + frame@.take(i as int),
        decreases frame@.len() - i,
    {
        out.push(frame[i]);
        i = i + 1;
        assert(out@ =~= head + frame@.take(i as int));
    }
    assert(frame@.take(frame@.len() as int) =~= frame@);
    assert(out@ =~= spec_audio_packet(seq, frame@, last));
    out
}

/// An outgoing packet is read back field by field: the sequence number,
/// then a length field that gives the frame's length and whether it is the
/// last, then the frame.
pub proof fn lemma_audio_packet_fields(seq: u64, frame: Seq<u8>, last: bool)
    requires
        frame.len() <= FRAME_LENGTH_MASK,
    ensures
        ({
            let p = spec_audio_packet(seq, frame, last);
            let n1 = spec_encode(seq).len();
            let field = length_field(frame.len() as u64, last);
            let n2 = spec_encode(field).len();
            &&& p[0] == 0x80
            &&& p[0] & AUDIO_TYPE_MASK == AUDIO_OPUS
            &&& spec_varint(p.skip(1)) == Some((seq, n1))
            &&& spec_varint(p.skip(1 + n1 as int)) == Some((field, n2))
            &&& field & FRAME_LENGTH_MASK == frame.len()
            &&& (field & LAST_FRAME == LAST_FRAME) == last
            &&& p.skip(1 + n1 + n2 as int) == frame
        }),
{
    let p = spec_audio_packet(seq, frame, last);
    let e1 = spec_encode(seq);
    let len = frame.len() as u64;
    let field = length_field(len, last);
    let e2 = spec_encode(field);
    assert(p.skip(1) =~= e1 + (e2 + frame));
    lemma_varint_roundtrip(seq, e2 + frame);
    assert(p.skip(1 + e1.len() as int) =~= e2 + frame);
    lemma_varint_roundtrip(field, frame);
    assert(p.skip(1 + e1.len() + e2.len() as int) =~= frame);
    assert(AUDIO_OPUS & 0xE0 == 0x80) by (bit_vector);
    assert(len <= 0x1FFF ==> (len | 0x2000) & 0x1FFF == len && (len | 0x2000) & 0x2000 == 0x2000
        && len & 0x1FFF == len && len & 0x2000 != 0x2000) by (bit_vector);
}

/// Every outgoing packet, whatever its frame, starts with the byte `0x80`:
/// the Opus type with target 0 (normal talking); the sequence number, the
/// length field and the frame follow it and make up the rest.
pub proof fn lemma_audio_packet_header(seq: u64, frame: Seq<u8>, last: bool)
    ensures
        spec_audio_packet(seq, frame, last)[0] == 0x80,
        spec_audio_packet(seq, frame, last)[0] & AUDIO_TARGET_MASK == 0,
        spec_audio_packet(seq, frame, last).len() == 1 + spec_encode(seq).len() + spec_encode(
            length_field(frame.len() as u64, last),
        ).len() + frame.len(),
        spec_audio_packet(seq, frame, last).skip(
            (1 + spec_encode(seq).len() + spec_encode(length_field(frame.len() as u64, last)).len()) as int,
        ) == frame,
{
    let p = spec_audio_packet(seq, frame, last);
    assert(0x80u8 & 0x1F == 0) by (bit_vector);
    assert(p.skip(
        (1 + spec_encode(seq).len() + spec_encode(length_field(frame.len() as u64, last)).len()) as int,
    ) =~= frame);
}

/// The sequence number that an outgoing transmission starts after: the low
/// 16 bits of the timestamp.
pub fn sequence_start(timestamp: i64) -> (r: u64)
    ensures
        r == (timestamp as u64) % 0x1_0000,
        timestamp >= 0 ==> r == timestamp % 0x1_0000,
{
    let t = timestamp as u64;
    let r = t & 0xFFFF;
    assert(t & 0xFFFF == t % 0x1_0000) by (bit_vector);
    r
}

/// Builds the packets of a transmission of `frames`, numbered one after
/// another from `start + 1`, the last one marked as such.
pub fn audio_packets(start: u64, frames: &Vec<Vec<u8>>) -> (r: Vec<Vec<u8>>)
    requires
        start + frames@.len() <= u64::MAX,
    ensures
        r@.len() == frames@.len(),
        forall|k: int|
            0 <= k < frames@.len() ==> #[trigger] r@[k]@ == spec_audio_packet(
                (start + k + 1) as u64,
                frames@[k]@,
                k == frames@.len() - 1,
            ),
{
    let n = frames.len();
    let mut r: Vec<Vec<u8>> = Vec::new();
    let mut seq = start;
    let mut k: usize = 0;
    while k < n
        invariant
            n == frames@.len(),
            start + n <= u64::MAX,
            k <= n,
            seq == start + k,
            r@.len() == k,
            forall|j: int|
                0 <= j < k ==> #[trigger] r@[j]@ == spec_audio_packet(
                    (start + j + 1) as u64,
                    frames@[j]@,
                    j == n - 1,
                ),
        decreases n - k,
    {
        seq = seq + 1;
        let packet = audio_packet(seq, frames[k].as_slice(), k + 1 == n);
        r.push(packet);
        k = k + 1;
    }
    r
}

} // verus!
