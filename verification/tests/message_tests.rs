use quic_websocket::message::{ClientId, MessageFrame, MessageType};

#[test]
fn test_message_frame_creation() {
    let frame = MessageFrame::new(MessageType::Text {
        content: "Hello, World!".to_string(),
        timestamp: 1234567890,
    });

    assert_eq!(frame.priority, 128);
    assert!(!frame.require_ack);
}

#[test]
fn test_message_frame_with_ack() {
    let frame = MessageFrame::new_with_ack(MessageType::Ping { timestamp: 1234567890 });

    assert!(frame.require_ack);
}

#[test]
fn test_message_frame_priority() {
    let frame = MessageFrame::new(MessageType::Text {
        content: "High priority".to_string(),
        timestamp: 1234567890,
    })
    .with_priority(255);

    assert_eq!(frame.priority, 255);
}

#[test]
fn test_message_serialization() {
    let message = MessageFrame::new(MessageType::Text {
        content: "Hello, World!".to_string(),
        timestamp: 1234567890,
    });

    let bytes = message.to_bytes().unwrap();
    let deserialized = MessageFrame::from_bytes(&bytes).unwrap();

    assert_eq!(message.id, deserialized.id);
    match (&message.message_type, &deserialized.message_type) {
        (MessageType::Text { content: c1, .. }, MessageType::Text { content: c2, .. }) => {
            assert_eq!(c1, c2);
        }
        _ => panic!("Message type mismatch"),
    }
}

fn round_trip(message_type: MessageType) -> MessageType {
    let frame = MessageFrame::new(message_type).with_priority(7);
    let bytes = frame.to_bytes().unwrap();
    let back = MessageFrame::from_bytes(&bytes).unwrap();
    assert_eq!(back.id, frame.id);
    assert_eq!(back.priority, 7);
    assert_eq!(back.require_ack, frame.require_ack);
    back.message_type
}

#[test]
fn test_round_trip_all_variants() {
    let a = ClientId { value: 0x0011_2233_4455_6677_8899_aabb_ccdd_eeff };
    let b = ClientId { value: 42 };

    match round_trip(MessageType::Handshake {
        client_name: Some("Alice".to_string()),
        protocol_version: "1.0".to_string(),
    }) {
        MessageType::Handshake { client_name, protocol_version } => {
            assert_eq!(client_name.as_deref(), Some("Alice"));
            assert_eq!(protocol_version, "1.0");
        }
        _ => panic!("wrong variant"),
    }

    match round_trip(MessageType::HandshakeResponse {
        client_id: a,
        server_name: "srv".to_string(),
        accepted: false,
        reason: Some("nope".to_string()),
    }) {
        MessageType::HandshakeResponse { client_id, server_name, accepted, reason } => {
            assert_eq!(client_id, a);
            assert_eq!(server_name, "srv");
            assert!(!accepted);
            assert_eq!(reason.as_deref(), Some("nope"));
        }
        _ => panic!("wrong variant"),
    }

    match round_trip(MessageType::Binary { data: vec![0, 1, 2, 255], timestamp: 9 }) {
        MessageType::Binary { data, timestamp } => {
            assert_eq!(data, vec![0, 1, 2, 255]);
            assert_eq!(timestamp, 9);
        }
        _ => panic!("wrong variant"),
    }

    match round_trip(MessageType::Broadcast { from: a, content: "hi all".to_string(), timestamp: 4 })
    {
        MessageType::Broadcast { from, content, .. } => {
            assert_eq!(from, a);
            assert_eq!(content, "hi all");
        }
        _ => panic!("wrong variant"),
    }

    match round_trip(MessageType::DirectMessage {
        from: a,
        to: b,
        content: "psst".to_string(),
        timestamp: 4,
    }) {
        MessageType::DirectMessage { from, to, content, .. } => {
            assert_eq!(from, a);
            assert_eq!(to, b);
            assert_eq!(content, "psst");
        }
        _ => panic!("wrong variant"),
    }

    assert!(matches!(round_trip(MessageType::Ping { timestamp: 1 }), MessageType::Ping { .. }));
    assert!(matches!(round_trip(MessageType::Pong { timestamp: 2 }), MessageType::Pong { .. }));
    assert!(matches!(round_trip(MessageType::ListClients), MessageType::ListClients));

    match round_trip(MessageType::Close { code: 1000, reason: "bye".to_string() }) {
        MessageType::Close { code, reason } => {
            assert_eq!(code, 1000);
            assert_eq!(reason, "bye");
        }
        _ => panic!("wrong variant"),
    }

    match round_trip(MessageType::Error { code: 1002, message: "no".to_string() }) {
        MessageType::Error { code, message } => {
            assert_eq!(code, 1002);
            assert_eq!(message, "no");
        }
        _ => panic!("wrong variant"),
    }

    match round_trip(MessageType::Subscribe { topics: vec!["stocks".to_string(), "news".to_string()] })
    {
        MessageType::Subscribe { topics } => {
            assert_eq!(topics, vec!["stocks".to_string(), "news".to_string()]);
        }
        _ => panic!("wrong variant"),
    }

    match round_trip(MessageType::Unsubscribe { topics: vec!["stocks".to_string()] }) {
        MessageType::Unsubscribe { topics } => {
            assert_eq!(topics, vec!["stocks".to_string()]);
        }
        _ => panic!("wrong variant"),
    }

    match round_trip(MessageType::ServerPush {
        topic: "sensors".to_string(),
        content: "data".to_string(),
        timestamp: 3,
    }) {
        MessageType::ServerPush { topic, content, .. } => {
            assert_eq!(topic, "sensors");
            assert_eq!(content, "data");
        }
        _ => panic!("wrong variant"),
    }
}

#[test]
fn test_decode_rejects_garbage() {
    assert!(MessageFrame::from_bytes(&[]).is_none());
    assert!(MessageFrame::from_bytes(&[0u8; 17]).is_none());
    // tag byte out of range
    let mut bytes = MessageFrame::new(MessageType::ListClients).to_bytes().unwrap();
    bytes[18] = 200;
    assert!(MessageFrame::from_bytes(&bytes).is_none());
    // trailing byte refused
    let mut ok = MessageFrame::new(MessageType::Ping { timestamp: 5 }).to_bytes().unwrap();
    ok.push(0);
    assert!(MessageFrame::from_bytes(&ok).is_none());
}
