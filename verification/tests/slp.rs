use mc_scanner::slp::{
    handshake_packet, parse_status_response, ping_packet, status_request_packet, CursorError,
    Packet, PacketIdError, PacketLengthError, PacketParseError, StringError, VarIntError,
};

fn body_of(packet: Packet) -> Vec<u8> {
    // the frame is the VarInt length followed by the body; bodies in these tests are short
    packet.get_bytes()[1..].to_vec()
}

#[test]
fn var_int_encodings() {
    assert_eq!(Packet::as_var_int(0), vec![0x00]);
    assert_eq!(Packet::as_var_int(1), vec![0x01]);
    assert_eq!(Packet::as_var_int(127), vec![0x7f]);
    assert_eq!(Packet::as_var_int(128), vec![0x80, 0x01]);
    assert_eq!(Packet::as_var_int(255), vec![0xff, 0x01]);
    assert_eq!(Packet::as_var_int(760), vec![0xf8, 0x05]);
    assert_eq!(Packet::as_var_int(25565), vec![0xdd, 0xc7, 0x01]);
    assert_eq!(Packet::as_var_int(2097151), vec![0xff, 0xff, 0x7f]);
    assert_eq!(Packet::as_var_int(2147483647), vec![0xff, 0xff, 0xff, 0xff, 0x07]);
}

#[test]
fn var_int_reads_back_what_was_written() {
    for v in [0, 1, 127, 128, 300, 25565, 2097152, 268435455, 268435456, i32::MAX] {
        let mut packet = Packet::from(Packet::as_var_int(v));
        assert_eq!(packet.read_var_int(), Ok(v));
    }
}

#[test]
fn var_int_five_bytes_wrap_to_negative() {
    let mut packet = Packet::from(vec![0xff, 0xff, 0xff, 0xff, 0x0f]);
    assert_eq!(packet.read_var_int(), Ok(-1));
    let mut packet = Packet::from(vec![0x80, 0x80, 0x80, 0x80, 0x08]);
    assert_eq!(packet.read_var_int(), Ok(i32::MIN));
}

#[test]
fn var_int_errors() {
    let mut packet = Packet::from(vec![0x80, 0x80, 0x80, 0x80, 0x80, 0x01]);
    assert_eq!(packet.read_var_int(), Err(VarIntError::Oversized));
    let mut packet = Packet::from(vec![0x80]);
    assert_eq!(
        packet.read_var_int(),
        Err(VarIntError::Cursor(CursorError::OutOfBounds { cursor: 2 }))
    );
    let mut packet = Packet::from(vec![]);
    assert_eq!(
        packet.read_var_int(),
        Err(VarIntError::Cursor(CursorError::OutOfBounds { cursor: 1 }))
    );
}

#[test]
fn read_byte_moves_the_cursor_even_past_the_end() {
    let mut packet = Packet::from(vec![7]);
    assert_eq!(packet.read_byte().map(|b| *b), Ok(7));
    assert_eq!(packet.read_byte().map(|b| *b), Err(CursorError::OutOfBounds { cursor: 2 }));
    assert_eq!(packet.read_byte().map(|b| *b), Err(CursorError::OutOfBounds { cursor: 3 }));
}

#[test]
fn read_bytes_reads_and_fails_past_the_end() {
    let mut packet = Packet::from(vec![1, 2, 3]);
    assert_eq!(packet.read_bytes(0), Ok(vec![]));
    assert_eq!(packet.read_bytes(2), Ok(vec![1, 2]));
    assert_eq!(packet.read_bytes(2), Err(CursorError::OutOfBounds { cursor: 4 }));
}

#[test]
fn writes_append_at_the_end() {
    let mut packet = Packet::new();
    packet.write_byte(0x42);
    packet.write_var_int(300);
    packet.write_short(0x1234);
    packet.write_long(0x0102030405060708);
    packet.write_string("hé");
    assert_eq!(
        body_of(packet),
        vec![0x42, 0xac, 0x02, 0x12, 0x34, 1, 2, 3, 4, 5, 6, 7, 8, 3, b'h', 0xc3, 0xa9]
    );
}

#[test]
fn write_long_uses_twos_complement() {
    let mut packet = Packet::new();
    packet.write_long(-2);
    assert_eq!(body_of(packet), vec![0xff, 0xff, 0xff, 0xff, 0xff, 0xff, 0xff, 0xfe]);
}

#[test]
fn write_byte_cuts_the_buffer_at_the_cursor() {
    let mut packet = Packet::from(vec![1, 2, 3]);
    packet.write_byte(9);
    assert_eq!(packet.get_bytes(), vec![1, 1]);
}

#[test]
fn write_byte_pads_with_the_byte_past_the_end() {
    let mut packet = Packet::from(vec![]);
    assert!(packet.read_byte().is_err());
    assert!(packet.read_byte().is_err());
    packet.write_byte(5);
    assert_eq!(packet.get_bytes(), vec![3, 5, 5, 5]);
}

#[test]
fn get_bytes_prefixes_the_length() {
    let mut packet = Packet::new();
    for _ in 0..200 {
        packet.write_byte(1);
    }
    let framed = packet.get_bytes();
    assert_eq!(framed.len(), 202);
    assert_eq!(&framed[..2], &[0xc8, 0x01]);
}

#[test]
fn read_string_cases() {
    let mut packet = Packet::from(vec![6, b'h', 0xc3, 0xa9, b'l', b'l', b'o']);
    assert_eq!(packet.read_string().unwrap(), "héllo");
    let mut packet = Packet::from(vec![1, 0xff]);
    assert!(matches!(packet.read_string(), Err(StringError::StringData(_))));
    let mut packet = Packet::from(vec![0xff, 0xff, 0xff, 0xff, 0x0f]);
    assert!(matches!(packet.read_string(), Err(StringError::UnreasonableLength)));
    let mut packet = Packet::from(vec![5, b'a']);
    assert!(matches!(
        packet.read_string(),
        Err(StringError::Cursor(CursorError::OutOfBounds { cursor: 3 }))
    ));
    let mut packet = Packet::from(vec![0x80]);
    assert!(matches!(
        packet.read_string(),
        Err(StringError::VarInt(VarIntError::Cursor(CursorError::OutOfBounds { cursor: 2 })))
    ));
    let mut packet = Packet::from(vec![0]);
    assert_eq!(packet.read_string().unwrap(), "");
}

#[test]
fn string_round_trip() {
    let mut writer = Packet::new();
    writer.write_string("mc.example.org ✓");
    let mut reader = Packet::from(body_of(writer));
    assert_eq!(reader.read_string().unwrap(), "mc.example.org ✓");
}

#[test]
fn handshake_bytes() {
    let bytes = handshake_packet("localhost", 25565);
    let mut expected = vec![16, 0x00, 0xf8, 0x05, 9];
    expected.extend_from_slice(b"localhost");
    expected.extend_from_slice(&[0x63, 0xdd, 0x01]);
    assert_eq!(bytes, expected);
}

#[test]
fn status_and_ping_bytes() {
    assert_eq!(status_request_packet(), vec![1, 0]);
    assert_eq!(ping_packet(0x0102030405060708), vec![9, 1, 1, 2, 3, 4, 5, 6, 7, 8]);
    assert_eq!(ping_packet(-1), vec![9, 1, 0xff, 0xff, 0xff, 0xff, 0xff, 0xff, 0xff, 0xff]);
}

#[test]
fn status_reply_is_unframed() {
    let json = br#"{"a":1}"#;
    let mut frame = vec![9, 0, 7];
    frame.extend_from_slice(json);
    assert_eq!(parse_status_response(frame).unwrap(), r#"{"a":1}"#);
}

#[test]
fn status_reply_errors() {
    assert!(matches!(
        parse_status_response(vec![]),
        Err(PacketParseError::PacketLength(PacketLengthError::VarInt(VarIntError::Cursor(
            CursorError::OutOfBounds { cursor: 1 }
        ))))
    ));
    assert!(matches!(
        parse_status_response(vec![0xff, 0xff, 0xff, 0xff, 0x0f]),
        Err(PacketParseError::PacketLength(PacketLengthError::UnreasonableLength))
    ));
    assert!(matches!(
        parse_status_response(vec![5, 0]),
        Err(PacketParseError::PacketLength(PacketLengthError::Length(CursorError::OutOfBounds { cursor: 3 })))
    ));
    assert!(matches!(
        parse_status_response(vec![0]),
        Err(PacketParseError::PacketId(PacketIdError::Cursor(CursorError::OutOfBounds { cursor: 1 })))
    ));
    assert!(matches!(
        parse_status_response(vec![1, 5]),
        Err(PacketParseError::PacketId(PacketIdError::Invalid))
    ));
    assert!(matches!(
        parse_status_response(vec![2, 0, 3]),
        Err(PacketParseError::String(StringError::Cursor(CursorError::OutOfBounds { cursor: 3 })))
    ));
    assert!(matches!(
        parse_status_response(vec![3, 0, 1, 0xc3]),
        Err(PacketParseError::String(StringError::StringData(_)))
    ));
}
