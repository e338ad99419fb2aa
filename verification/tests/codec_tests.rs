use telnet_codec::codec::TelnetCodec;
use telnet_codec::frame::{
    Action, DecodeError, TelnetFrame, TelnetOption, TelnetSubnegotiation, TerminalTypeOption,
};

#[test]
fn test_decode_data_frame() {
    let mut codec = TelnetCodec::new();
    let mut buf: Vec<u8> = b"hello".to_vec();

    let frame = codec.decode(&mut buf).unwrap().unwrap();
    match frame {
        TelnetFrame::Data(data) => assert_eq!(data, b"hello"),
        _ => panic!("Expected TelnetFrame::Data"),
    }
}

#[test]
fn test_decode_short_data_run() {
    let mut codec = TelnetCodec::new();
    let mut buf: Vec<u8> = b"hi".to_vec();

    let frame = codec.decode(&mut buf).unwrap().unwrap();
    match frame {
        TelnetFrame::Data(data) => assert_eq!(data, vec![104, 105]),
        _ => panic!("Expected TelnetFrame::Data"),
    }
    assert!(buf.is_empty());
}

#[test]
fn test_decode_command_frame() {
    let mut codec = TelnetCodec::new();
    let mut buf: Vec<u8> = vec![255, 251, 1];

    let frame = codec.decode(&mut buf).unwrap().unwrap();
    match frame {
        TelnetFrame::Command { action, option } => {
            assert_eq!(action, Action::Will);
            assert_eq!(option, TelnetOption::Echo);
        }
        _ => panic!("Expected TelnetFrame::Command"),
    }
}

#[test]
fn test_decode_escaped_255() {
    let mut codec = TelnetCodec::new();
    let mut buf: Vec<u8> = vec![255, 255];

    let frame = codec.decode(&mut buf).unwrap().unwrap();
    match frame {
        TelnetFrame::Data(data) => assert_eq!(data, vec![255]),
        _ => panic!("Expected TelnetFrame::Data"),
    }
    assert!(buf.is_empty());
}

#[test]
fn test_decode_partial_command() {
    let mut codec = TelnetCodec::new();
    let mut buf: Vec<u8> = vec![255, 251];

    let frame = codec.decode(&mut buf).unwrap();
    assert!(frame.is_none());
    assert_eq!(buf, vec![255, 251]);
}

#[test]
fn test_decode_data_followed_by_command() {
    let mut codec = TelnetCodec::new();
    let mut buf: Vec<u8> = vec![104, 101, 108, 108, 111, 255, 251, 1];

    let frame = codec.decode(&mut buf).unwrap().unwrap();
    match frame {
        TelnetFrame::Data(data) => assert_eq!(data, b"hello"),
        _ => panic!("Expected TelnetFrame::Data"),
    }

    let frame = codec.decode(&mut buf).unwrap().unwrap();
    match frame {
        TelnetFrame::Command { action, option } => {
            assert_eq!(action, Action::Will);
            assert_eq!(option, TelnetOption::Echo);
        }
        _ => panic!("Expected TelnetFrame::Command"),
    }
    assert!(buf.is_empty());
}

#[test]
fn test_decode_window_size_subnegotiation() {
    let mut codec = TelnetCodec::new();
    let mut buf: Vec<u8> = vec![255, 250, 31, 0, 80, 0, 24, 255, 240];

    let frame = codec.decode(&mut buf).unwrap().unwrap();
    match frame {
        TelnetFrame::Subnegotiation(s) => {
            assert_eq!(s, TelnetSubnegotiation::WindowSize(80, 24));
        }
        _ => panic!("Expected TelnetFrame::Subnegotiation"),
    }
    assert!(buf.is_empty());
}

#[test]
fn test_decode_terminal_type_send_subnegotiation() {
    let mut codec = TelnetCodec::new();
    let mut buf: Vec<u8> = vec![255, 250, 24, 1, 255, 240];

    let frame = codec.decode(&mut buf).unwrap().unwrap();
    match frame {
        TelnetFrame::Subnegotiation(s) => {
            assert_eq!(s, TelnetSubnegotiation::TerminalType(TerminalTypeOption::Send));
        }
        _ => panic!("Expected TelnetFrame::Subnegotiation"),
    }
    assert!(buf.is_empty());
}

#[test]
fn test_decode_terminal_type_is_subnegotiation() {
    let mut codec = TelnetCodec::new();
    let mut buf: Vec<u8> = vec![255, 250, 24, 0, 118, 116, 49, 48, 48, 255, 240];

    let frame = codec.decode(&mut buf).unwrap().unwrap();
    match frame {
        TelnetFrame::Subnegotiation(s) => {
            assert_eq!(
                s,
                TelnetSubnegotiation::TerminalType(TerminalTypeOption::Is(String::from("vt100")))
            );
        }
        _ => panic!("Expected TelnetFrame::Subnegotiation"),
    }
    assert!(buf.is_empty());
}

#[test]
fn test_decode_unknown_subnegotiation() {
    let mut codec = TelnetCodec::new();
    let mut buf: Vec<u8> = vec![255, 250, 42, 7, 9, 255, 240];

    let frame = codec.decode(&mut buf).unwrap().unwrap();
    match frame {
        TelnetFrame::Subnegotiation(s) => {
            assert_eq!(s, TelnetSubnegotiation::Unknown(42, vec![7, 9]));
        }
        _ => panic!("Expected TelnetFrame::Subnegotiation"),
    }
}

#[test]
fn test_decode_escaped_sentinel_inside_data() {
    let mut codec = TelnetCodec::new();
    let mut buf: Vec<u8> = vec![104, 101, 255, 255, 108, 108, 111];

    let frame = codec.decode(&mut buf).unwrap().unwrap();
    match frame {
        TelnetFrame::Data(data) => assert_eq!(data, vec![104, 101]),
        _ => panic!("Expected TelnetFrame::Data"),
    }

    let frame = codec.decode(&mut buf).unwrap().unwrap();
    match frame {
        TelnetFrame::Data(data) => assert_eq!(data, vec![255]),
        _ => panic!("Expected TelnetFrame::Data"),
    }

    let frame = codec.decode(&mut buf).unwrap().unwrap();
    match frame {
        TelnetFrame::Data(data) => assert_eq!(data, vec![108, 108, 111]),
        _ => panic!("Expected TelnetFrame::Data"),
    }
    assert!(buf.is_empty());
}

#[test]
fn test_decode_passthrough_two_byte_command() {
    let mut codec = TelnetCodec::new();
    let mut buf: Vec<u8> = vec![255, 241, 104];

    let frame = codec.decode(&mut buf).unwrap().unwrap();
    match frame {
        TelnetFrame::Data(data) => assert_eq!(data, vec![255, 241]),
        _ => panic!("Expected TelnetFrame::Data"),
    }
    assert_eq!(buf, vec![104]);
}

#[test]
fn test_decode_boundary_incomplete() {
    let mut codec = TelnetCodec::new();

    let mut buf: Vec<u8> = vec![];
    assert!(codec.decode(&mut buf).unwrap().is_none());
    assert!(buf.is_empty());

    let mut buf: Vec<u8> = vec![255];
    assert!(codec.decode(&mut buf).unwrap().is_none());
    assert_eq!(buf, vec![255]);

    let mut buf: Vec<u8> = vec![255, 251];
    assert!(codec.decode(&mut buf).unwrap().is_none());
    assert_eq!(buf, vec![255, 251]);
}

#[test]
fn test_decode_unterminated_subnegotiation_waits() {
    let mut codec = TelnetCodec::new();
    let mut buf: Vec<u8> = vec![255, 250, 31, 0, 80, 0, 24, 255];

    assert!(codec.decode(&mut buf).unwrap().is_none());
    assert_eq!(buf, vec![255, 250, 31, 0, 80, 0, 24, 255]);

    buf.push(240);
    let frame = codec.decode(&mut buf).unwrap().unwrap();
    match frame {
        TelnetFrame::Subnegotiation(s) => {
            assert_eq!(s, TelnetSubnegotiation::WindowSize(80, 24));
        }
        _ => panic!("Expected TelnetFrame::Subnegotiation"),
    }
    assert!(buf.is_empty());
}

#[test]
fn test_decode_empty_subnegotiation_payload_is_error() {
    let mut codec = TelnetCodec::new();
    let mut buf: Vec<u8> = vec![255, 250, 255, 240];

    let err = codec.decode(&mut buf).unwrap_err();
    assert_eq!(err, DecodeError::EmptyPayload);
    assert!(buf.is_empty());
}

#[test]
fn test_decode_truncated_window_size_is_error() {
    let mut codec = TelnetCodec::new();
    let mut buf: Vec<u8> = vec![255, 250, 31, 0, 80, 255, 240];

    let err = codec.decode(&mut buf).unwrap_err();
    assert_eq!(err, DecodeError::TruncatedPayload);
    assert!(buf.is_empty());
}

#[test]
fn test_decode_truncated_terminal_type_is_error() {
    let mut codec = TelnetCodec::new();
    let mut buf: Vec<u8> = vec![255, 250, 24, 255, 240];

    let err = codec.decode(&mut buf).unwrap_err();
    assert_eq!(err, DecodeError::TruncatedPayload);
}

#[test]
fn test_decode_invalid_terminal_type_text_is_error() {
    let mut codec = TelnetCodec::new();
    let mut buf: Vec<u8> = vec![255, 250, 24, 0, 195, 40, 255, 240];

    let err = codec.decode(&mut buf).unwrap_err();
    assert_eq!(err, DecodeError::InvalidText);
}

#[test]
fn test_encode_data_plain() {
    let mut codec = TelnetCodec::new();
    let mut out: Vec<u8> = Vec::new();
    codec.encode(TelnetFrame::Data(b"hi".to_vec()), &mut out);
    assert_eq!(out, vec![104, 105]);
}

#[test]
fn test_encode_data_escapes_sentinel() {
    let mut codec = TelnetCodec::new();
    let mut out: Vec<u8> = Vec::new();
    codec.encode(TelnetFrame::Data(vec![255]), &mut out);
    assert_eq!(out, vec![255, 255]);

    let mut out: Vec<u8> = Vec::new();
    codec.encode(TelnetFrame::Data(vec![104, 255, 105]), &mut out);
    assert_eq!(out, vec![104, 255, 255, 105]);
}

#[test]
fn test_encode_command() {
    let mut codec = TelnetCodec::new();
    let mut out: Vec<u8> = Vec::new();
    codec.encode(
        TelnetFrame::Command { action: Action::Will, option: TelnetOption::Echo },
        &mut out,
    );
    assert_eq!(out, vec![255, 251, 1]);
}

#[test]
fn test_encode_terminal_type_subnegotiations() {
    let mut codec = TelnetCodec::new();
    let mut out: Vec<u8> = Vec::new();
    codec.encode(
        TelnetFrame::Subnegotiation(TelnetSubnegotiation::TerminalType(TerminalTypeOption::Send)),
        &mut out,
    );
    assert_eq!(out, vec![255, 250, 24, 1, 255, 240]);

    let mut out: Vec<u8> = Vec::new();
    codec.encode(
        TelnetFrame::Subnegotiation(TelnetSubnegotiation::TerminalType(TerminalTypeOption::Is(
            String::from("vt100"),
        ))),
        &mut out,
    );
    assert_eq!(out, vec![255, 250, 24, 0, 118, 116, 49, 48, 48, 255, 240]);
}

// The window-size and unknown variants are serialized by symmetric
// re-emission: the option identifier, then the raw body, so that every
// decodable subnegotiation re-encodes to the bytes it came from.
#[test]
fn test_encode_window_size_and_unknown_subnegotiations() {
    let mut codec = TelnetCodec::new();
    let mut out: Vec<u8> = Vec::new();
    codec.encode(
        TelnetFrame::Subnegotiation(TelnetSubnegotiation::WindowSize(80, 24)),
        &mut out,
    );
    assert_eq!(out, vec![255, 250, 31, 0, 80, 0, 24, 255, 240]);

    let mut out: Vec<u8> = Vec::new();
    codec.encode(
        TelnetFrame::Subnegotiation(TelnetSubnegotiation::Unknown(42, vec![7, 9])),
        &mut out,
    );
    assert_eq!(out, vec![255, 250, 42, 7, 9, 255, 240]);
}

#[test]
fn test_round_trip_whole() {
    let mut codec = TelnetCodec::new();
    let frames = vec![
        TelnetFrame::Data(b"hello".to_vec()),
        TelnetFrame::Data(vec![255]),
        TelnetFrame::Command { action: Action::Dont, option: TelnetOption::Unknown(200) },
        TelnetFrame::Subnegotiation(TelnetSubnegotiation::WindowSize(1024, 768)),
        TelnetFrame::Subnegotiation(TelnetSubnegotiation::TerminalType(TerminalTypeOption::Is(
            String::from("xterm"),
        ))),
        TelnetFrame::Subnegotiation(TelnetSubnegotiation::Unknown(99, vec![1, 2, 3])),
    ];
    for frame in frames {
        let mut wire: Vec<u8> = Vec::new();
        codec.encode(frame.clone(), &mut wire);
        let wire_len = wire.len();
        let decoded = codec.decode(&mut wire).unwrap().unwrap();
        assert!(wire.is_empty(), "all {} bytes must be consumed", wire_len);
        match (frame, decoded) {
            (TelnetFrame::Data(a), TelnetFrame::Data(b)) => assert_eq!(a, b),
            (
                TelnetFrame::Command { action: a1, option: o1 },
                TelnetFrame::Command { action: a2, option: o2 },
            ) => {
                assert_eq!(a1, a2);
                assert_eq!(o1, o2);
            }
            (TelnetFrame::Subnegotiation(a), TelnetFrame::Subnegotiation(b)) => assert_eq!(a, b),
            _ => panic!("decoded frame kind differs from the encoded one"),
        }
    }
}

#[test]
fn test_round_trip_byte_by_byte() {
    let mut codec = TelnetCodec::new();
    let mut wire: Vec<u8> = Vec::new();
    codec.encode(
        TelnetFrame::Subnegotiation(TelnetSubnegotiation::WindowSize(80, 24)),
        &mut wire,
    );

    let mut buf: Vec<u8> = Vec::new();
    let mut decoded: Option<TelnetFrame> = None;
    for (fed, byte) in wire.iter().enumerate() {
        buf.push(*byte);
        match codec.decode(&mut buf).unwrap() {
            Some(frame) => {
                assert_eq!(fed + 1, wire.len(), "no frame before the last byte");
                decoded = Some(frame);
            }
            None => assert_eq!(buf.len(), fed + 1, "Incomplete must consume nothing"),
        }
    }
    match decoded.expect("the full wire sequence must decode") {
        TelnetFrame::Subnegotiation(s) => {
            assert_eq!(s, TelnetSubnegotiation::WindowSize(80, 24));
        }
        _ => panic!("Expected TelnetFrame::Subnegotiation"),
    }
}

#[test]
fn test_action_byte_conversions() {
    assert_eq!(Action::try_from(250), Ok(Action::SubnegotiationBegin));
    assert_eq!(Action::try_from(251), Ok(Action::Will));
    assert_eq!(Action::try_from(252), Ok(Action::Wont));
    assert_eq!(Action::try_from(253), Ok(Action::Do));
    assert_eq!(Action::try_from(254), Ok(Action::Dont));
    assert!(Action::try_from(249).is_err());
    assert!(Action::try_from(0).is_err());
    assert_eq!(Action::Will.into(), 251u8);
    assert_eq!(Action::Dont.into(), 254u8);
}

#[test]
fn test_option_byte_conversions() {
    assert_eq!(TelnetOption::from(1), TelnetOption::Echo);
    assert_eq!(TelnetOption::from(3), TelnetOption::SuppressGoAhead);
    assert_eq!(TelnetOption::from(24), TelnetOption::TerminalType);
    assert_eq!(TelnetOption::from(31), TelnetOption::NegotiateAboutWindowSize);
    assert_eq!(TelnetOption::from(200), TelnetOption::Unknown(200));
    assert_eq!(TelnetOption::Echo.into(), 1u8);
    assert_eq!(TelnetOption::Unknown(200).into(), 200u8);
}

#[test]
fn test_subnegotiation_payload_conversions() {
    assert_eq!(
        TelnetSubnegotiation::from(vec![24, 1]),
        Ok(TelnetSubnegotiation::TerminalType(TerminalTypeOption::Send))
    );
    assert_eq!(
        TelnetSubnegotiation::from(vec![31, 3, 0, 1, 0]),
        Ok(TelnetSubnegotiation::WindowSize(768, 256))
    );
    assert_eq!(TelnetSubnegotiation::from(vec![]), Err(DecodeError::EmptyPayload));
    assert_eq!(TelnetSubnegotiation::from(vec![31, 0]), Err(DecodeError::TruncatedPayload));

    let bytes: Vec<u8> =
        TelnetSubnegotiation::TerminalType(TerminalTypeOption::Is(String::from("ansi"))).into();
    assert_eq!(bytes, vec![24, 0, 97, 110, 115, 105]);
    let bytes: Vec<u8> = TelnetSubnegotiation::WindowSize(80, 24).into();
    assert_eq!(bytes, vec![31, 0, 80, 0, 24]);
}
