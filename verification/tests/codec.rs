use sfu_core::frame::{
    decode_header, encode_frame, encode_header, notice_frame, read_frame_from, read_frame_to,
    read_group_frame_from, read_u32_le, FrameType, HEADER_LEN,
};

#[test]
fn header_round_trip_data() {
    let header = encode_header(FrameType::Data, 7, 9);
    assert_eq!(header.len(), HEADER_LEN);
    assert_eq!(decode_header(&header), Some((FrameType::Data, 7, 9)));
}

#[test]
fn frame_round_trip_with_payload() {
    let payload = vec![0xde, 0xad, 0xbe, 0xef];
    let frame = encode_frame(FrameType::Data, 0x01020304, 0xfffefdfc, &payload);
    assert_eq!(frame.len(), HEADER_LEN + 4);
    assert_eq!(
        decode_header(&frame),
        Some((FrameType::Data, 0x01020304, 0xfffefdfc))
    );
    assert_eq!(&frame[9..], &payload[..]);
}

#[test]
fn header_wire_layout_is_little_endian() {
    let header = encode_header(FrameType::Open, 1, 0x01000000);
    assert_eq!(header, vec![1u8, 1, 0, 0, 0, 0, 0, 0, 1]);
}

#[test]
fn decode_rejects_short_and_unknown() {
    assert_eq!(decode_header(&vec![0u8; 8]), None);
    let mut bad = encode_header(FrameType::Close, 5, 5);
    bad[0] = 9;
    assert_eq!(decode_header(&bad), None);
}

#[test]
fn notice_frame_names_self_twice() {
    let open = notice_frame(77, true);
    assert_eq!(decode_header(&open), Some((FrameType::Open, 77, 77)));
    let close = notice_frame(77, false);
    assert_eq!(decode_header(&close), Some((FrameType::Close, 77, 77)));
    assert_eq!(read_frame_from(&close), 77);
    assert_eq!(read_frame_to(&close), 77);
}

#[test]
fn u32_field_readers() {
    let frame = encode_frame(FrameType::Data, 258, 772, &vec![5u8]);
    assert_eq!(read_frame_from(&frame), 258);
    assert_eq!(read_frame_to(&frame), 772);
    assert_eq!(read_u32_le(&vec![2u8, 1, 0, 0], 0), 258);
}

#[test]
fn group_frame_sender_is_first_four_bytes() {
    let frame = vec![1u8, 0, 0, 0, 42, 42];
    assert_eq!(read_group_frame_from(&frame), 1);
    let frame2 = vec![0u8, 0, 0, 2, 42];
    assert_eq!(read_group_frame_from(&frame2), 0x02000000);
}

#[test]
fn session_id_is_lowercase_hex_digest() {
    let id = sfu_core::session::session_id_from_stats_id("abc");
    assert_eq!(id, "900150983cd24fb0d6963f7d28e17f72");
    let empty = sfu_core::session::session_id_from_stats_id("");
    assert_eq!(empty, "d41d8cd98f00b204e9800998ecf8427e");
}

#[test]
fn key_hash_is_stable_fnv() {
    assert_eq!(sfu_core::unique::hash_from_string("abc"), 1396001564);
    assert_eq!(sfu_core::unique::hash_from_string("secret"), 1138409898);
}
