use quic_websocket::h3_server::{handle_ws_frame, upgrade_accept, welcome_message};
use quic_websocket::websocket::{UpgradeHeaders, WebSocketFrame, WebSocketOpcode};

fn mask(payload: &[u8], key: [u8; 4]) -> Vec<u8> {
    payload.iter().enumerate().map(|(i, b)| b ^ key[i % 4]).collect()
}

fn masked_frame(opcode: u8, payload: &[u8], key: [u8; 4]) -> Vec<u8> {
    let mut data = vec![0x80 | opcode, 0x80 | (payload.len() as u8)];
    data.extend_from_slice(&key);
    data.extend_from_slice(&mask(payload, key));
    data
}

#[test]
fn test_upgrade_and_echo() {
    let headers = UpgradeHeaders {
        upgrade: Some("websocket".to_string()),
        connection: Some("Upgrade".to_string()),
        sec_websocket_version: Some("13".to_string()),
        sec_websocket_key: Some("dGhlIHNhbXBsZSBub25jZQ==".to_string()),
    };
    let accept = upgrade_accept(&headers).unwrap();
    assert_eq!(accept, "s3pPLMBiTxaQ9kYGzzhZRbK+xOo=");

    // a masked text frame from the client is echoed back unmasked
    let data = masked_frame(0x1, b"hello", [1, 2, 3, 4]);
    let (frame, consumed) = WebSocketFrame::parse(&data).unwrap();
    assert_eq!(consumed, data.len());
    assert_eq!(frame.payload, b"hello");
    let (replies, done) = handle_ws_frame(&frame);
    assert!(!done);
    assert_eq!(replies.len(), 1);
    assert_eq!(replies[0].opcode, WebSocketOpcode::Text);
    assert!(!replies[0].mask);
    assert_eq!(replies[0].payload, b"hello");
    let bytes = replies[0].to_bytes();
    assert_eq!(bytes[0], 0x81);
    assert_eq!(bytes[1], 5);
    assert_eq!(&bytes[2..], b"hello");
}

#[test]
fn test_non_upgrade_gets_no_accept() {
    let headers = UpgradeHeaders {
        upgrade: None,
        connection: Some("keep-alive".to_string()),
        sec_websocket_version: None,
        sec_websocket_key: None,
    };
    assert!(upgrade_accept(&headers).is_none());
}

#[test]
fn test_ping_and_close() {
    let ping = masked_frame(0x9, b"X", [9, 9, 9, 9]);
    let (frame, _) = WebSocketFrame::parse(&ping).unwrap();
    let (replies, done) = handle_ws_frame(&frame);
    assert!(!done);
    assert_eq!(replies.len(), 1);
    assert_eq!(replies[0].opcode, WebSocketOpcode::Pong);
    assert_eq!(replies[0].payload, b"X");

    let close = masked_frame(0x8, &[0x03, 0xe8], [1, 1, 1, 1]); // code 1000
    let (frame, _) = WebSocketFrame::parse(&close).unwrap();
    let (replies, done) = handle_ws_frame(&frame);
    assert!(done);
    assert_eq!(replies.len(), 1);
    assert_eq!(replies[0].opcode, WebSocketOpcode::Close);
    assert!(replies[0].payload.is_empty());
}

#[test]
fn test_pong_is_only_logged() {
    let pong = masked_frame(0xA, b"X", [1, 2, 3, 4]);
    let (frame, _) = WebSocketFrame::parse(&pong).unwrap();
    let (replies, done) = handle_ws_frame(&frame);
    assert!(!done);
    assert!(replies.is_empty());
}

#[test]
fn test_welcome_message_text() {
    let w = welcome_message("My Server");
    assert_eq!(w, "Welcome to My Server (HTTP/3 WebSocket)!");
}
