use bytes::{Bytes, BytesMut};
use server::codec::{CodecError, MCCodec, RawPacket};
use server::num;
use server::text::{assemble_string, next_string, next_string_len};
use server::{assemble, consume_bytes, DecodeResult, Serialize, VarInt};

#[test]
fn placeholder() {}

#[test]
fn numbers_encode_by_groups_of_seven_bits() {
    assert_eq!(VarInt::new(0).encode(), vec![0]);
    assert_eq!(VarInt::new(1).encode(), vec![1]);
    assert_eq!(VarInt::new(127).encode(), vec![0x7F]);
    assert_eq!(VarInt::new(128).encode(), vec![0x80, 0x01]);
    assert_eq!(VarInt::new(255).encode(), vec![0xFF, 0x01]);
    assert_eq!(VarInt::new(25565).encode(), vec![0xDD, 0xC7, 0x01]);
    assert_eq!(VarInt::new(2097151).encode(), vec![0xFF, 0xFF, 0x7F]);
    assert_eq!(VarInt::new(i32::MAX).encode(), vec![0xFF, 0xFF, 0xFF, 0xFF, 0x07]);
    assert_eq!(VarInt::new(-1).encode(), vec![0xFF, 0xFF, 0xFF, 0xFF, 0x0F]);
    assert_eq!(VarInt::new(i32::MIN).encode(), vec![0x80, 0x80, 0x80, 0x80, 0x08]);
}

#[test]
fn decoding_inverts_encoding() {
    for v in [0, 1, 127, 128, 300, 25565, i32::MAX, -1, -128, i32::MIN] {
        let mut bytes = VarInt::new(v).encode();
        let n = bytes.len();
        bytes.push(0xAB);
        let (read, result) = VarInt::decode(&bytes);
        assert_eq!(read, n);
        match result {
            DecodeResult::Complete(d) => assert_eq!(d.value(), v),
            _ => panic!("expected a complete number"),
        }
    }
}

#[test]
fn a_lone_continuation_byte_is_incomplete() {
    let decoded = match VarInt::decode(&[0x80]) {
        (_, DecodeResult::Complete(val)) | (_, DecodeResult::Incomplete(val)) => val,
        (_, DecodeResult::Empty) => VarInt::new(0),
    };
    assert_eq!(decoded.value(), 0);
    assert!(matches!(VarInt::decode(&[0x80]), (1, DecodeResult::Incomplete(_))));
}

#[test]
fn empty_input_is_no_number() {
    assert!(matches!(VarInt::decode(&[]), (0, DecodeResult::Empty)));
    assert_eq!(VarInt::decode_loose(&[]), (0, VarInt::new(0)));
    assert_eq!(VarInt::decode_strict(&[]), (0, None));
}

#[test]
fn the_fifth_byte_is_the_last() {
    let (read, result) = VarInt::decode(&[0xFF, 0xFF, 0xFF, 0xFF, 0x1F, 0x01]);
    assert_eq!(read, 5);
    match result {
        DecodeResult::Incomplete(v) => assert_eq!(v.value(), -1),
        _ => panic!("expected an incomplete number"),
    }
    let (read, value) = VarInt::decode_strict(&[0xFF, 0xFF, 0xFF, 0xFF, 0x8F]);
    assert_eq!((read, value), (5, None));
    let (read, value) = VarInt::decode_loose(&[0x81, 0x80, 0x80, 0x80, 0x70]);
    assert_eq!((read, value.value()), (5, 1));
}

#[test]
fn longer_numbers_keep_their_low_bits() {
    let long = [0x85, 0x80, 0x80, 0x80, 0xF0, 0x80, 0x7F];
    let mut value: u128 = 0;
    for (i, byte) in long.iter().enumerate() {
        value |= ((*byte & 0x7F) as u128) << (7 * i);
    }
    let (read, low) = VarInt::decode_loose(&long);
    assert_eq!((read, low.value()), (5, value as i32));
    assert_eq!(VarInt::decode_strict(&long).1, None);
}

#[test]
fn big_endian_numbers_round_trip() {
    let mut buf = vec![];
    num::push_be(&mut buf, 0x0102_0304, 4);
    assert_eq!(buf, vec![1, 2, 3, 4]);
    assert_eq!(num::read_be(&buf), 0x0102_0304);
    num::push_be(&mut buf, 0x1_FF, 1);
    assert_eq!(buf, vec![1, 2, 3, 4, 0xFF]);
}

#[test]
fn signed_numbers_keep_their_bits() {
    for v in [i32::MIN, -1, 0, 1, i32::MAX] {
        assert_eq!(num::i32_bits(v), v as u32);
        assert_eq!(num::bits_i32(v as u32), v);
    }
    for v in [i64::MIN, -1, 0, 1, i64::MAX] {
        assert_eq!(num::i64_bits(v), v as u64);
        assert_eq!(num::bits_i64(v as u64), v);
    }
    for v in [i16::MIN, -1, 0, 1, i16::MAX] {
        assert_eq!(num::i16_bits(v), v as u16);
        assert_eq!(num::bits_i16(v as u16), v);
    }
    for v in [i8::MIN, -1, 0, 1, i8::MAX] {
        assert_eq!(num::i8_bits(v), v as u8);
    }
    assert_eq!(num::index_i32(-1), usize::MAX);
    assert_eq!(num::index_i32(7), 7);
    assert_eq!(num::len_i32(5), 5);
}

#[test]
fn values_serialize() {
    assert_eq!(5u8.serialize(), vec![5]);
    assert_eq!(true.serialize(), vec![1]);
    assert_eq!(false.serialize(), vec![0]);
    assert_eq!(300i32.serialize(), vec![0xAC, 0x02]);
    assert_eq!(VarInt::new(300).serialize(), vec![0xAC, 0x02]);
    assert_eq!("h\u{e9}".serialize(), vec![3, b'h', 0xC3, 0xA9]);
    assert_eq!(String::from("hi").serialize(), vec![2, b'h', b'i']);
    assert_eq!(Some(7u8).serialize(), vec![1, 7]);
    assert_eq!(None::<u8>.serialize(), vec![0]);
    assert_eq!(vec![1i32, 300].serialize(), vec![2, 1, 0xAC, 0x02]);
    assert_eq!([1u8, 2, 3].serialize(), vec![3, 1, 2, 3]);
    let empty: [i32; 0] = [];
    assert_eq!(empty.as_slice().serialize(), vec![0]);
}

#[test]
fn positions_pack_x_then_z_then_y() {
    let expected: i64 = ((8i64 & 0x3FFFFFF) << 38) | ((-30i64 & 0x3FFFFFF) << 12) | (8i64 & 0xFFF);
    assert_eq!((8i32, -30i32, 8i16).serialize(), expected.to_be_bytes().to_vec());
    let expected: i64 = ((-1i64 & 0x3FFFFFF) << 38) | ((1i64 & 0x3FFFFFF) << 12) | (-64i64 & 0xFFF);
    assert_eq!((-1i32, 1i32, -64i16).serialize(), expected.to_be_bytes().to_vec());
}

#[test]
fn texts_round_trip() {
    let mut bytes = assemble_string("gr\u{fc}n").unwrap();
    assert_eq!(bytes, vec![5, b'g', b'r', 0xC3, 0xBC, b'n']);
    bytes.push(9);
    assert_eq!(next_string(&bytes), Some(String::from("gr\u{fc}n")));
    assert_eq!(next_string_len(&bytes), Some((String::from("gr\u{fc}n"), 6)));
}

#[test]
fn broken_texts_are_refused() {
    assert_eq!(next_string(&[2, b'a']), None);
    assert_eq!(next_string(&[2, 0xC3, 0x28]), None);
    assert_eq!(next_string(&[0xFF, 0xFF, 0xFF, 0xFF, 0x0F, b'a']), None);
    assert_eq!(next_string(&[]), Some(String::new()));
}

#[test]
fn frames_hold_length_number_and_data() {
    assert_eq!(assemble(0x2C, &[1, 2, 3]), vec![4, 0x2C, 1, 2, 3]);
    assert_eq!(assemble(0x83, &[]), vec![2, 0x83, 0x01]);
}

fn buffer(bytes: &[u8]) -> BytesMut {
    let mut b = BytesMut::new();
    b.extend_from_slice(bytes);
    b
}

#[test]
fn the_codec_takes_out_what_it_put_in() {
    let mut codec = MCCodec;
    let mut buf = BytesMut::new();
    assert!(codec.can_encode(&(0x2C, Bytes::from(vec![1, 2, 3])), &buf));
    assert!(codec.encode((0x2C, Bytes::from(vec![1, 2, 3])), &mut buf).is_ok());
    assert_eq!(&buf[..], &[4, 0x2C, 1, 2, 3][..]);
    assert!(codec.encode((1, Bytes::from(vec![9])), &mut buf).is_ok());
    assert!(codec.can_decode(&buf));
    let packet = codec.decode(&mut buf).unwrap().unwrap();
    assert_eq!(packet.length.value(), 4);
    assert_eq!(packet.id.value(), 0x2C);
    assert_eq!(packet.data, vec![1, 2, 3]);
    let packet = codec.decode(&mut buf).unwrap().unwrap();
    assert_eq!((packet.id.value(), packet.data), (1, vec![9]));
    assert!(buf.is_empty());
    assert!(matches!(codec.decode(&mut buf), Ok(None)));
}

#[test]
fn a_cut_frame_waits_for_the_rest() {
    let mut codec = MCCodec;
    let whole = assemble(5, &[1, 2, 3]);
    for k in 0..whole.len() {
        let mut buf = buffer(&whole[..k]);
        assert!(codec.can_decode(&buf));
        assert!(matches!(codec.decode(&mut buf), Ok(None)));
        assert_eq!(&buf[..], &whole[..k]);
    }
}

#[test]
fn a_frame_without_a_complete_number_is_an_error() {
    let mut codec = MCCodec;
    let mut buf = buffer(&[1, 0x80]);
    assert!(codec.can_decode(&buf));
    assert_eq!(codec.decode(&mut buf).err(), Some(CodecError::MissingPacketId));
    assert!(buf.is_empty());
}

#[test]
fn an_empty_frame_at_the_end_has_number_zero() {
    let mut codec = MCCodec;
    let mut buf = buffer(&[0]);
    let packet = codec.decode(&mut buf).unwrap().unwrap();
    assert_eq!((packet.length.value(), packet.id.value(), packet.data.len()), (0, 0, 0));
}

#[test]
fn broken_frames_are_told_apart() {
    let codec = MCCodec;
    assert!(!codec.can_decode(&buffer(&[1, 0x81, 0x01, 0x00])));
    assert!(!codec.can_decode(&buffer(&[0xFF, 0xFF, 0xFF, 0xFF, 0x0F])));
    assert!(codec.can_decode(&buffer(&[2, 0x81, 0x01, 0x00])));
}

#[test]
fn the_first_packet_of_a_byte_string() {
    let mut bytes = assemble(7, &[4, 5]);
    bytes.push(1);
    let (packet, end) = RawPacket::next_packet(bytes.clone());
    let packet = packet.unwrap();
    assert_eq!((packet.length.value(), packet.id.value(), packet.data), (3, 7, vec![4, 5]));
    assert_eq!(end, 4);
    let (packet, end) = RawPacket::next_packet(bytes[..3].to_vec());
    assert!(packet.is_none());
    assert_eq!(end, 0);
    let (packet, end) = RawPacket::next_packet(vec![1, 0x80]);
    assert!(packet.is_none());
    assert_eq!(end, 0);
    let (packet, _) = RawPacket::next_packet(vec![0]);
    assert!(packet.is_none());
}

#[test]
fn bytes_are_consumed_from_the_front() {
    let bytes = [1u8, 2, 3];
    let mut rest: &[u8] = &bytes;
    assert_eq!(consume_bytes(&mut rest, 2), Some(&bytes[..2]));
    assert_eq!(rest, &bytes[2..]);
    assert_eq!(consume_bytes(&mut rest, 2), None);
    assert_eq!(rest, &bytes[2..]);
}
