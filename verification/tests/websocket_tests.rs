use quic_websocket::websocket::{
    generate_websocket_accept, is_websocket_upgrade_request, UpgradeHeaders, WebSocketFrame,
    WebSocketOpcode,
};

#[test]
fn test_websocket_accept_generation() {
    let key = "dGhlIHNhbXBsZSBub25jZQ==";
    let expected = "s3pPLMBiTxaQ9kYGzzhZRbK+xOo=";
    let actual = generate_websocket_accept(key);
    assert_eq!(actual, expected);
}

#[test]
fn test_websocket_frame_encoding() {
    let frame = WebSocketFrame::new(WebSocketOpcode::Text, b"Hello".to_vec(), true);

    let bytes = frame.to_bytes();
    assert_eq!(bytes[0], 0x81); // FIN + Text opcode
    assert_eq!(bytes[1], 5); // Payload length
    assert_eq!(&bytes[2..], b"Hello");
}

#[test]
fn test_websocket_frame_parsing() {
    let data = vec![0x81, 0x85, 0x37, 0xfa, 0x21, 0x3d, 0x7f, 0x9f, 0x4d, 0x51, 0x58];
    let result = WebSocketFrame::parse(&data);

    assert!(result.is_some());
    let (frame, consumed) = result.unwrap();

    assert_eq!(consumed, data.len());
    assert!(frame.fin);
    assert_eq!(frame.opcode, WebSocketOpcode::Text);
    assert!(frame.mask);
    assert_eq!(frame.payload, b"Hello");
}

#[test]
fn test_websocket_frame_parsing_debug() {
    let data = vec![0x81, 0x85, 0x37, 0xfa, 0x21, 0x3d, 0x7f, 0x9f, 0x4d, 0x51, 0x58];
    println!("Input data: {:02x?}", data);

    let result = WebSocketFrame::parse(&data);
    assert!(result.is_some());

    let (frame, consumed) = result.unwrap();
    println!(
        "Parsed frame: opcode={:?}, fin={}, mask={}, payload={:?}",
        frame.opcode,
        frame.fin,
        frame.mask,
        String::from_utf8_lossy(&frame.payload)
    );

    assert_eq!(consumed, data.len());
    assert_eq!(frame.payload, b"Hello");
}

#[test]
fn test_real_websocket_frame() {
    let data = vec![
        0x81, 0xa2, 0x21, 0xbf, 0xca, 0x91, 0xd9, 0xaf, 0xd3, 0x4d, 0xfe, 0xea, 0xd9, 0x53, 0xfe,
        0xa7, 0x9f, 0x75, 0xc0, 0x9f, 0xf6, 0x62, 0xb1, 0x9d, 0xda, 0x43, 0xc2, 0xa5, 0xdc, 0x4a,
        0xf4, 0xbe, 0x9f, 0x42, 0xfd, 0xa3, 0xda, 0x4f, 0xe5, 0xeb,
    ];
    println!("Real frame data: {:02x?}", data);

    let result = WebSocketFrame::parse(&data);
    assert!(result.is_some());

    let (frame, consumed) = result.unwrap();
    println!(
        "Parsed real frame: opcode={:?}, fin={}, mask={}, payload_len={}",
        frame.opcode,
        frame.fin,
        frame.mask,
        frame.payload.len()
    );
    println!("Payload as string: {:?}", String::from_utf8_lossy(&frame.payload));
    println!("Payload as bytes: {:02x?}", frame.payload);

    let mask_key = [0x21, 0xbf, 0xca, 0x91];
    let masked_payload = &data[6..];
    let mut manual_payload = Vec::new();
    for (i, &byte) in masked_payload.iter().enumerate() {
        manual_payload.push(byte ^ mask_key[i % 4]);
    }
    println!("Manual unmasked: {:?}", String::from_utf8_lossy(&manual_payload));

    assert_eq!(consumed, data.len());
}

#[test]
fn test_expected_hello_message() {
    let expected_text = "Hello from TQUIC WebSocket client!";
    let mask_key = [0x21, 0xbf, 0xca, 0x91];

    println!("Expected text: {:?}", expected_text);
    println!("Expected text bytes: {:02x?}", expected_text.as_bytes());

    let mut masked_payload = Vec::new();
    for (i, &byte) in expected_text.as_bytes().iter().enumerate() {
        masked_payload.push(byte ^ mask_key[i % 4]);
    }

    println!("Masked payload: {:02x?}", masked_payload);

    let mut frame_data = vec![0x81, 0xa2];
    frame_data.extend_from_slice(&mask_key);
    frame_data.extend_from_slice(&masked_payload);

    println!("Expected frame: {:02x?}", frame_data);

    let result = WebSocketFrame::parse(&frame_data);
    assert!(result.is_some());

    let (frame, _) = result.unwrap();
    println!("Decoded payload: {:?}", String::from_utf8_lossy(&frame.payload));

    assert_eq!(frame.payload, expected_text.as_bytes());
}

#[test]
fn test_endianness_issue() {
    let expected_text = "Hello from TQUIC WebSocket client!";

    let frame_mask = [0x21, 0xbf, 0xca, 0x91];
    let little_endian_mask = [0x91, 0xca, 0xbf, 0x21];

    println!("Expected text: {:?}", expected_text);

    let mut masked_with_le = Vec::new();
    for (i, &byte) in expected_text.as_bytes().iter().enumerate() {
        masked_with_le.push(byte ^ little_endian_mask[i % 4]);
    }

    println!("Masked with LE: {:02x?}", masked_with_le);

    let mut unmasked = Vec::new();
    for (i, &byte) in masked_with_le.iter().enumerate() {
        unmasked.push(byte ^ frame_mask[i % 4]);
    }

    println!("Unmasked result: {:?}", String::from_utf8_lossy(&unmasked));

    let actual_received = [
        0xd9, 0xaf, 0xd3, 0x4d, 0xfe, 0xea, 0xd9, 0x53, 0xfe, 0xa7, 0x9f, 0x75, 0xc0, 0x9f, 0xf6,
        0x62, 0xb1, 0x9d, 0xda, 0x43, 0xc2, 0xa5, 0xdc, 0x4a, 0xf4, 0xbe, 0x9f, 0x42, 0xfd, 0xa3,
        0xda, 0x4f, 0xe5, 0xeb,
    ];

    println!("Actual received: {:02x?}", actual_received);
    println!("Matches masked_with_le: {}", masked_with_le == actual_received);
}

#[test]
fn test_partial_frame_needs_more_data() {
    let frame = WebSocketFrame::new(WebSocketOpcode::Text, b"Hello".to_vec(), true);
    let bytes = frame.to_bytes();
    for k in 0..bytes.len() {
        assert!(WebSocketFrame::parse(&bytes[..k]).is_none());
    }
}

#[test]
fn test_long_frame_round_trip() {
    let payload: Vec<u8> = (0..70000u32).map(|i| (i % 251) as u8).collect();
    let frame = WebSocketFrame::new(WebSocketOpcode::Binary, payload.clone(), true);
    let bytes = frame.to_bytes();
    assert_eq!(bytes[1], 127);
    let (parsed, consumed) = WebSocketFrame::parse(&bytes).unwrap();
    assert_eq!(consumed, bytes.len());
    assert_eq!(parsed.payload, payload);
    assert!(!parsed.mask);
}

#[test]
fn test_medium_frame_round_trip() {
    let payload: Vec<u8> = vec![7u8; 300];
    let frame = WebSocketFrame::new(WebSocketOpcode::Binary, payload.clone(), true);
    let bytes = frame.to_bytes();
    assert_eq!(bytes[1], 126);
    let (parsed, consumed) = WebSocketFrame::parse(&bytes).unwrap();
    assert_eq!(consumed, bytes.len());
    assert_eq!(parsed.payload, payload);
}

#[test]
fn test_upgrade_request_check() {
    let good = UpgradeHeaders {
        upgrade: Some("WebSocket".to_string()),
        connection: Some("keep-alive, Upgrade".to_string()),
        sec_websocket_version: Some("13".to_string()),
        sec_websocket_key: Some("dGhlIHNhbXBsZSBub25jZQ==".to_string()),
    };
    assert!(is_websocket_upgrade_request(&good));

    let bad_version = UpgradeHeaders { sec_websocket_version: Some("12".to_string()), ..good.clone() };
    assert!(!is_websocket_upgrade_request(&bad_version));

    let no_key = UpgradeHeaders { sec_websocket_key: None, ..good.clone() };
    assert!(!is_websocket_upgrade_request(&no_key));

    let no_upgrade = UpgradeHeaders { upgrade: None, ..good };
    assert!(!is_websocket_upgrade_request(&no_upgrade));
}

#[test]
fn test_accept_digest_length() {
    assert_eq!(generate_websocket_accept("dGhlIHNhbXBsZSBub25jZQ==").len(), 28);
    assert_eq!(generate_websocket_accept("x").len(), 28);
}

#[test]
fn test_error_and_close_codes() {
    assert_eq!(quic_websocket::error_codes::PROTOCOL_ERROR, 1000);
    assert_eq!(quic_websocket::error_codes::INVALID_MESSAGE, 1001);
    assert_eq!(quic_websocket::error_codes::CLIENT_NOT_FOUND, 1002);
    assert_eq!(quic_websocket::error_codes::PERMISSION_DENIED, 1003);
    assert_eq!(quic_websocket::error_codes::SERVER_ERROR, 1004);
    assert_eq!(quic_websocket::error_codes::RATE_LIMITED, 1005);
    assert_eq!(quic_websocket::close_codes::NORMAL_CLOSURE, 1000);
    assert_eq!(quic_websocket::close_codes::POLICY_VIOLATION, 1008);
    assert_eq!(quic_websocket::close_codes::MESSAGE_TOO_BIG, 1009);
}

#[test]
fn test_masked_encode_round_trip() {
    // a client-side frame is emitted masked: mask bit set, key after the
    // length, payload XORed with it; parsing recovers the payload and key
    let key = [0x37u8, 0xfa, 0x21, 0x3d];
    let frame = WebSocketFrame::new_masked(WebSocketOpcode::Text, b"Hello".to_vec(), true, key);
    let bytes = frame.to_bytes();
    assert_eq!(bytes[0], 0x81);
    assert_eq!(bytes[1], 0x80 | 5); // mask bit set
    assert_eq!(&bytes[2..6], &key);
    for (i, b) in bytes[6..].iter().enumerate() {
        assert_eq!(b ^ key[i % 4], b"Hello"[i]);
    }
    // the exact sample frame from the parsing test
    assert_eq!(bytes, vec![0x81, 0x85, 0x37, 0xfa, 0x21, 0x3d, 0x7f, 0x9f, 0x4d, 0x51, 0x58]);
    let (parsed, consumed) = WebSocketFrame::parse(&bytes).unwrap();
    assert_eq!(consumed, bytes.len());
    assert!(parsed.mask);
    assert_eq!(parsed.masking_key, Some(key));
    assert_eq!(parsed.payload, b"Hello");
}
