use mqtt_async::buffer::Buffer;
use mqtt_async::codec::{decode_frame, encode_connack, frame_length, ConnAck, Frame, Packet, NOT_AUTHORIZED};

#[test]
fn frame_length_of_connack() {
    assert_eq!(frame_length(&[0x20, 0x02, 0x00, 0x05]), Frame::Complete(4));
    assert_eq!(frame_length(&[0x20, 0x02, 0x00, 0x05, 0xC0]), Frame::Complete(4));
    assert_eq!(frame_length(&[0x20, 0x02, 0x00]), Frame::Incomplete);
    assert_eq!(frame_length(&[0x20]), Frame::Incomplete);
    assert_eq!(frame_length(&[]), Frame::Incomplete);
}

#[test]
fn frame_length_multi_byte_remaining_length() {
    let mut bytes = vec![0x30, 0x80, 0x01];
    bytes.extend(std::iter::repeat(0u8).take(127));
    assert_eq!(frame_length(&bytes), Frame::Incomplete);
    bytes.push(0);
    assert_eq!(frame_length(&bytes), Frame::Complete(131));
}

#[test]
fn frame_length_rejects_five_length_bytes() {
    assert_eq!(frame_length(&[0x30, 0xFF, 0xFF, 0xFF, 0xFF, 0x01]), Frame::Malformed);
    assert_eq!(frame_length(&[0x30, 0xFF, 0xFF, 0xFF]), Frame::Incomplete);
}

#[test]
fn connack_round_trip() {
    for code in 0..=5u8 {
        for present in [false, true] {
            let ack = ConnAck { session_present: present, return_code: code };
            let mut buf = Buffer::new();
            encode_connack(ack, &mut buf);
            assert_eq!(buf.to_vec(), vec![0x20, 0x02, present as u8, code]);
            assert_eq!(frame_length(buf.as_slice()), Frame::Complete(4));
            assert_eq!(decode_frame(buf.as_slice()), Some(Packet::ConnAck(ack)));
        }
    }
}

#[test]
fn encode_appends_after_existing_bytes() {
    let mut buf = Buffer::from_bytes(&[7]);
    encode_connack(ConnAck { session_present: false, return_code: NOT_AUTHORIZED }, &mut buf);
    assert_eq!(buf.to_vec(), vec![7, 0x20, 0x02, 0x00, 0x05]);
}

#[test]
fn decode_connect_and_pingreq() {
    let connect = [0x10, 15, 0, 4, b'M', b'Q', b'T', b'T', 4, 0x02, 0, 60, 0, 3, b'a', b'b', b'c'];
    assert_eq!(frame_length(&connect), Frame::Complete(17));
    assert_eq!(decode_frame(&connect), Some(Packet::Connect));
    assert_eq!(decode_frame(&[0xC0, 0x00]), Some(Packet::PingReq));
}

#[test]
fn decode_rejects_bad_frames() {
    assert_eq!(decode_frame(&[0x00, 0x00]), None);
    assert_eq!(decode_frame(&[0x36, 0x02, 0x00, 0x00]), None);
    assert_eq!(decode_frame(&[0x20, 0x02, 0x00, 0x09]), None);
}
