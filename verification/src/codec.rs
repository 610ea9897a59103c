//! Packet framing: a length, a packet number and the packet's data.
use bytes::{Buf, Bytes, BytesMut};
use vstd::prelude::*;
use vstd::slice::{slice_subrange, slice_to_vec};

use crate::num;
use crate::serialize;
use crate::varint;
use crate::varint::{DecodeResult, VarInt};

verus! {

/// A growable byte buffer of the `bytes` crate.
#[verifier::external_type_specification]
#[verifier::external_body]
pub struct ExBytesMut(BytesMut);

/// A shared byte string of the `bytes` crate.
#[verifier::external_type_specification]
#[verifier::external_body]
pub struct ExBytes(Bytes);

/// The bytes that a buffer holds.
pub uninterp spec fn buffered(buffer: BytesMut) -> Seq<u8>;

/// The bytes of a shared byte string.
pub uninterp spec fn contents(bytes: Bytes) -> Seq<u8>;

/// `BytesMut::deref`: the bytes that the buffer holds, as a slice.
#[verifier::external_body]
fn buffer_slice(buffer: &BytesMut) -> (r: &[u8])
    ensures
        r@ == buffered(*buffer),
{
    std::ops::Deref::deref(buffer)
}

/// `Buf::advance` for `BytesMut`: drops the first `n` bytes of the buffer. It panics if there are
/// fewer.
#[verifier::external_body]
fn buffer_advance(buffer: &mut BytesMut, n: usize)
    requires
        n <= buffered(*old(buffer)).len(),
    ensures
        buffered(*final(buffer)) == buffered(*old(buffer)).skip(n as int),
{
    buffer.advance(n)
}

/// `BytesMut::split_to`: takes the first `n` bytes out of the buffer. It panics if there are
/// fewer.
#[verifier::external_body]
fn buffer_split_to(buffer: &mut BytesMut, n: usize) -> (r: BytesMut)
    requires
        n <= buffered(*old(buffer)).len(),
    ensures
        buffered(r) == buffered(*old(buffer)).take(n as int),
        buffered(*final(buffer)) == buffered(*old(buffer)).skip(n as int),
{
    buffer.split_to(n)
}

/// `Extend<u8>::extend` for `BytesMut`: appends the bytes. It panics if the buffer would outgrow
/// what can be allocated.
#[verifier::external_body]
fn buffer_extend(buffer: &mut BytesMut, bytes: Vec<u8>)
    requires
        buffered(*old(buffer)).len() + bytes@.len() <= isize::MAX,
    ensures
        buffered(*final(buffer)) == buffered(*old(buffer)) + bytes@,
{
    buffer.extend(bytes)
}

/// `Bytes::deref`: the bytes of the byte string, as a slice.
#[verifier::external_body]
fn bytes_slice(bytes: &Bytes) -> (r: &[u8])
    ensures
        r@ == contents(*bytes),
{
    std::ops::Deref::deref(bytes)
}

/// A packet as it came off the wire.
pub struct RawPacket {
    /// The length field: what follows it in the frame.
    pub length: VarInt,
    /// The packet number.
    pub id: VarInt,
    /// What follows the packet number.
    pub data: Vec<u8>,
}

/// The parts of a packet.
#[verifier::ext_equal]
pub struct PacketView {
    pub length: i32,
    pub id: i32,
    pub data: Seq<u8>,
}

impl View for RawPacket {
    type V = PacketView;

    open spec fn view(&self) -> PacketView {
        PacketView { length: self.length.0, id: self.id.0, data: self.data@ }
    }
}

/// Why a frame could not be taken apart.
#[derive(Debug, Clone, Copy, PartialEq, Eq, Structural)]
pub enum CodecError {
    /// The frame has no complete packet number.
    MissingPacketId,
}

/// What a buffer holds at its head.
#[verifier::ext_equal]
pub enum Frame {
    /// A part of a frame.
    Partial,
    /// A whole frame, with what follows it.
    Whole { packet: PacketView, rest: Seq<u8> },
    /// A frame without a complete packet number, with what follows that number's bytes.
    NoId { rest: Seq<u8> },
    /// A frame that cannot be: its packet number reaches past its end, or its length is negative
    /// and wraps around.
    Broken,
}

/// The frame of a packet: the length of number and data, the number, the data.
pub open spec fn frame(id: i32, data: Seq<u8>) -> Seq<u8> {
    serialize::count(varint::wire_i32(id).len() + data.len()) + varint::wire_i32(id) + data
}

/// The end of the frame at the head of `src`, counted from its start, if its length is complete.
pub open spec fn frame_end(src: Seq<u8>) -> int {
    varint::size(src) + num::index_of(varint::low_bits(src))
}

/// What `src` holds at its head.
pub open spec fn head(src: Seq<u8>) -> Frame {
    let length = varint::low_bits(src);
    let span = num::index_of(length);
    let body = src.skip(varint::size(src) as int);
    let id_size = varint::size(body) as int;
    let after = body.skip(id_size);
    if !varint::complete(src) {
        Frame::Partial
    } else if frame_end(src) > usize::MAX {
        Frame::Broken
    } else if src.len() < frame_end(src) {
        Frame::Partial
    } else if varint::result(body) is Incomplete {
        Frame::NoId { rest: after }
    } else if id_size > span {
        Frame::Broken
    } else {
        Frame::Whole {
            packet: PacketView {
                length,
                id: varint::low_bits(body),
                data: after.take(span - id_size),
            },
            rest: after.skip(span - id_size),
        }
    }
}

/// The first packet of `data` and the length of its frame, if the frame is there and holds a
/// complete packet number.
pub open spec fn first_packet(data: Seq<u8>) -> Option<(PacketView, int)> {
    let end = frame_end(data);
    let body = data.subrange(varint::size(data) as int, end);
    if varint::complete(data) && end <= data.len() && varint::complete(body) {
        Some(
            (
                PacketView {
                    length: varint::low_bits(data),
                    id: varint::low_bits(body),
                    data: body.skip(varint::size(body) as int),
                },
                end,
            ),
        )
    } else {
        None
    }
}

proof fn lemma_frame_head(id: i32, data: Seq<u8>, rest: Seq<u8>)
    requires
        varint::wire_i32(id).len() + data.len() <= i32::MAX,
    ensures
        ({
            let length = (varint::wire_i32(id).len() + data.len()) as i32;
            let src = frame(id, data) + rest;
            let body = varint::wire_i32(id) + data + rest;
            &&& varint::complete(src)
            &&& varint::low_bits(src) == length
            &&& varint::size(src) == serialize::count(length as nat).len()
            &&& src.skip(varint::size(src) as int) == body
            &&& varint::complete(body)
            &&& varint::low_bits(body) == id
            &&& varint::size(body) == varint::wire_i32(id).len()
            &&& varint::size(src) <= varint::MAX_LEN
        }),
{
    let length = (varint::wire_i32(id).len() + data.len()) as i32;
    let body = varint::wire_i32(id) + data + rest;
    let src = frame(id, data) + rest;
    assert(num::signed32(length as int) == length);
    varint::decode_inverts_encode(length, body);
    varint::decode_inverts_encode(id, data + rest);
    varint::wire_i32_len(length);
    assert(src == varint::wire_i32(length) + body);
    assert(body == varint::wire_i32(id) + (data + rest));
    assert(src.skip(varint::size(src) as int) == body);
}

/// Taking apart the frame of a packet, whatever follows it, gives back the packet and leaves
/// what followed.
pub proof fn decode_inverts_encode(id: i32, data: Seq<u8>, rest: Seq<u8>)
    requires
        varint::wire_i32(id).len() + data.len() <= i32::MAX,
        frame(id, data).len() <= usize::MAX,
    ensures
        head(frame(id, data) + rest) == (Frame::Whole {
            packet: PacketView {
                length: (varint::wire_i32(id).len() + data.len()) as i32,
                id,
                data,
            },
            rest,
        }),
{
    lemma_frame_head(id, data, rest);
    let length = varint::wire_i32(id).len() + data.len();
    let body = varint::wire_i32(id) + data + rest;
    let after = body.skip(varint::wire_i32(id).len() as int);
    assert(after == data + rest);
    assert(after.take(data.len() as int) == data);
    assert(after.skip(data.len() as int) == rest);
}

/// The first packet of a byte string that starts with the frame of a packet is that packet.
pub proof fn first_packet_inverts_frame(id: i32, data: Seq<u8>, rest: Seq<u8>)
    requires
        varint::wire_i32(id).len() + data.len() <= i32::MAX,
    ensures
        first_packet(frame(id, data) + rest) == Some(
            (
                PacketView {
                    length: (varint::wire_i32(id).len() + data.len()) as i32,
                    id,
                    data,
                },
                frame(id, data).len() as int,
            ),
        ),
{
    lemma_frame_head(id, data, rest);
    varint::decode_inverts_encode(id, data);
    let src = frame(id, data) + rest;
    let body = src.subrange(varint::size(src) as int, frame_end(src));
    assert(body == varint::wire_i32(id) + data);
    assert(body.skip(varint::size(body) as int) == data);
}

/// As long as a byte of a frame is missing, the buffer holds a part of a frame.
pub proof fn cut_frame_is_partial(id: i32, data: Seq<u8>, k: int)
    requires
        varint::wire_i32(id).len() + data.len() <= i32::MAX,
        frame(id, data).len() <= usize::MAX,
        0 <= k < frame(id, data).len(),
    ensures
        head(frame(id, data).take(k)) == Frame::Partial,
{
    let src = frame(id, data).take(k);
    let whole = frame(id, data);
    lemma_frame_head(id, data, Seq::empty());
    assert(whole + Seq::<u8>::empty() == whole);
    if varint::complete(src) {
        let tail = whole.skip(k);
        assert(src + tail == whole);
        varint::decode_ignores_what_follows(src, tail);
    }
}

impl RawPacket {
    /// The first packet of `data` and the length of its frame; `None` and 0 if the frame is not
    /// all there or holds no complete packet number.
    pub fn next_packet(data: Vec<u8>) -> (r: (Option<Self>, usize))
        requires
            varint::complete(data@) ==> frame_end(data@) <= usize::MAX,
        ensures
            match first_packet(data@) {
                Some((packet, end)) => r.0 is Some && r.0->0@ == packet && r.1 == end,
                None => r.0 is None && r.1 == 0,
            },
    {
        let (len_read, len_res) = VarInt::decode(data.as_slice());
        proof {
            varint::lemma_extent_bounds(data@, varint::MAX_LEN as nat);
        }
        let length: VarInt = match len_res {
            DecodeResult::Complete(v) => v,
            _ => return (None, 0),
        };
        let end: usize = len_read + num::index_i32(length.value());
        if data.len() < end {
            return (None, 0);
        }
        let body = slice_subrange(data.as_slice(), len_read, end);
        let (id_read, id_res) = VarInt::decode(body);
        proof {
            varint::lemma_extent_bounds(body@, varint::MAX_LEN as nat);
        }
        let id: VarInt = match id_res {
            DecodeResult::Complete(v) => v,
            _ => return (None, 0),
        };
        let packet = RawPacket {
            length,
            id,
            data: slice_to_vec(slice_subrange(body, id_read, body.len())),
        };
        (Some(packet), end)
    }
}

/// The framing of packets on a byte stream.
pub struct MCCodec;

impl MCCodec {
    /// Whether the head of the buffer is anything but a broken frame.
    pub fn can_decode(&self, src: &BytesMut) -> (r: bool)
        ensures
            r == (head(buffered(*src)) != Frame::Broken),
    {
        let bytes = buffer_slice(src);
        let (read, result) = VarInt::decode(bytes);
        proof {
            varint::lemma_extent_bounds(bytes@, varint::MAX_LEN as nat);
        }
        let length: VarInt = match result {
            DecodeResult::Complete(v) => v,
            _ => return true,
        };
        let span: usize = num::index_i32(length.value());
        if read > usize::MAX - span {
            return false;
        }
        if bytes.len() < read + span {
            return true;
        }
        let body = slice_subrange(bytes, read, bytes.len());
        assert(body@ == bytes@.skip(read as int));
        let (id_read, id) = VarInt::decode(body);
        match id {
            DecodeResult::Incomplete(_) => true,
            _ => id_read <= span,
        }
    }

    /// Takes the packet at the head of the buffer out of it; `None`, and the buffer as it was, if
    /// the frame is not all there yet.
    pub fn decode(&mut self, src: &mut BytesMut) -> (r: Result<Option<RawPacket>, CodecError>)
        requires
            head(buffered(*old(src))) != Frame::Broken,
        ensures
            match head(buffered(*old(src))) {
                Frame::Whole { packet, rest } => {
                    &&& r matches Ok(Some(p))
                    &&& p@ == packet
                    &&& buffered(*final(src)) == rest
                },
                Frame::NoId { rest } => {
                    &&& r == Err::<Option<RawPacket>, CodecError>(CodecError::MissingPacketId)
                    &&& buffered(*final(src)) == rest
                },
                _ => {
                    &&& r == Ok::<Option<RawPacket>, CodecError>(None)
                    &&& buffered(*final(src)) == buffered(*old(src))
                },
            },
    {
        let bytes = buffer_slice(src);
        let (read, result) = VarInt::decode(bytes);
        proof {
            varint::lemma_extent_bounds(bytes@, varint::MAX_LEN as nat);
        }
        let length: VarInt = match result {
            DecodeResult::Complete(v) => v,
            _ => return Ok(None),
        };
        let span: usize = num::index_i32(length.value());
        if bytes.len() < read + span {
            return Ok(None);
        }
        buffer_advance(src, read);
        let body = buffer_slice(src);
        let (read, id) = VarInt::decode(body);
        proof {
            varint::lemma_extent_bounds(body@, varint::MAX_LEN as nat);
        }
        buffer_advance(src, read);
        let id: VarInt = match id {
            DecodeResult::Empty => VarInt::new(0),
            DecodeResult::Complete(v) => v,
            DecodeResult::Incomplete(_) => return Err(CodecError::MissingPacketId),
        };
        let data = buffer_split_to(src, span - read);
        Ok(Some(RawPacket { length, id, data: slice_to_vec(buffer_slice(&data)) }))
    }

    /// Whether the buffer can take the frame of a packet, whatever its number.
    pub fn can_encode(&self, item: &(i32, Bytes), dst: &BytesMut) -> (r: bool)
        ensures
            r == (buffered(*dst).len() + contents(item.1).len() + 2 * varint::MAX_LEN
                <= isize::MAX),
    {
        let limit: usize = isize::MAX as usize - 2 * varint::MAX_LEN;
        let held: usize = buffer_slice(dst).len();
        let added: usize = bytes_slice(&item.1).len();
        held <= limit && added <= limit - held
    }

    /// Appends the frame of a packet to the buffer.
    pub fn encode(&mut self, item: (i32, Bytes), dst: &mut BytesMut) -> (r: Result<(), CodecError>)
        requires
            buffered(*old(dst)).len() + contents(item.1).len() + 2 * varint::MAX_LEN <= isize::MAX,
        ensures
            r is Ok,
            buffered(*final(dst)) == buffered(*old(dst)) + frame(item.0, contents(item.1)),
    {
        let (id, data) = item;
        let data = bytes_slice(&data);
        let id_varint = VarInt::new(id).encode();
        proof {
            varint::wire_i32_len(id);
            varint::wire_i32_len(num::signed32((id_varint@.len() + data@.len()) as int));
        }
        let length = VarInt::new(num::len_i32(data.len() + id_varint.len())).encode();
        buffer_extend(dst, length);
        buffer_extend(dst, id_varint);
        buffer_extend(dst, slice_to_vec(data));
        assert(buffered(*dst) =~= buffered(*old(dst)) + frame(item.0, contents(item.1)));
        Ok(())
    }
}

/// The frame of a packet.
pub fn assemble(id: i32, data: &[u8]) -> (out: Vec<u8>)
    requires
        varint::wire_i32(id).len() + data@.len() <= i32::MAX,
    ensures
        out@ == frame(id, data@),
{
    let id_bytes = VarInt::new(id).encode();
    let mut out: Vec<u8> = Vec::new();
    serialize::push_count(&mut out, id_bytes.len() + data.len());
    serialize::push_bytes(&mut out, id_bytes.as_slice());
    serialize::push_bytes(&mut out, data);
    assert(out@ =~= frame(id, data@));
    out
}

} // verus!
