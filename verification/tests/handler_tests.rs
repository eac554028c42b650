use quic_websocket::client::{ClientManager, ClientState};
use quic_websocket::handler::{notification_for, Action, MessageHandler};
use quic_websocket::message::{ClientId, MessageFrame, MessageType};

fn cid(n: u128) -> ClientId {
    ClientId { value: n }
}

fn setup(max: usize) -> (MessageHandler, ClientManager) {
    let handler = MessageHandler::new("Test Server".to_string());
    let (manager, _rx) = ClientManager::new(max);
    (handler, manager)
}

fn connect(handler: &MessageHandler, reg: &mut ClientManager, id: ClientId, name: &str) {
    reg.add_client(id, id.value as u64, 100);
    let hs = MessageFrame::new(MessageType::Handshake {
        client_name: Some(name.to_string()),
        protocol_version: "1.0".to_string(),
    });
    handler.handle_message(reg, &id, hs, 100);
}

#[test]
fn test_handshake_ok() {
    let (handler, mut reg) = setup(4);
    reg.add_client(cid(1), 11, 100);
    let hs = MessageFrame::new(MessageType::Handshake {
        client_name: Some("Alice".to_string()),
        protocol_version: "1.0".to_string(),
    });
    let actions = handler.handle_message(&mut reg, &cid(1), hs, 100);
    assert_eq!(actions.len(), 1);
    match &actions[0] {
        Action::Reply { to, message } => {
            assert_eq!(*to, cid(1));
            match message {
                MessageType::HandshakeResponse { client_id, server_name, accepted, reason } => {
                    assert_eq!(*client_id, cid(1));
                    assert_eq!(server_name, "Test Server");
                    assert!(*accepted);
                    assert!(reason.is_none());
                }
                _ => panic!("expected a handshake response"),
            }
        }
        _ => panic!("expected a direct reply"),
    }
    let record = reg.get_client(&cid(1)).unwrap();
    assert_eq!(record.state, ClientState::Connected);
    assert_eq!(record.name.as_deref(), Some("Alice"));
}

#[test]
fn test_handshake_bad_version() {
    let (handler, mut reg) = setup(4);
    reg.add_client(cid(1), 11, 100);
    let hs = MessageFrame::new(MessageType::Handshake {
        client_name: None,
        protocol_version: "0.9".to_string(),
    });
    let actions = handler.handle_message(&mut reg, &cid(1), hs, 100);
    assert_eq!(actions.len(), 1);
    match &actions[0] {
        Action::Reply { message, .. } => match message {
            MessageType::HandshakeResponse { accepted, reason, .. } => {
                assert!(!*accepted);
                assert_eq!(
                    reason.as_deref(),
                    Some("Unsupported protocol version: 0.9. Expected: 1.0")
                );
            }
            _ => panic!("expected a handshake response"),
        },
        _ => panic!("expected a direct reply"),
    }
    // the session stays Connecting, and non-handshake messages are ignored
    assert_eq!(reg.state_of(&cid(1)), Some(ClientState::Connecting));
    let text = MessageFrame::new(MessageType::Text { content: "hi".to_string(), timestamp: 1 });
    let actions = handler.handle_message(&mut reg, &cid(1), text, 101);
    assert!(actions.is_empty());
}

#[test]
fn test_echo() {
    let (handler, mut reg) = setup(4);
    connect(&handler, &mut reg, cid(1), "Alice");
    let text = MessageFrame::new(MessageType::Text { content: "hi".to_string(), timestamp: 7 });
    let actions = handler.handle_message(&mut reg, &cid(1), text, 200);
    assert_eq!(actions.len(), 1);
    match &actions[0] {
        Action::Send { to, message } => {
            assert_eq!(*to, cid(1));
            match message {
                MessageType::Text { content, timestamp } => {
                    assert_eq!(content, "Echo: hi");
                    assert_eq!(*timestamp, 200);
                }
                _ => panic!("expected text"),
            }
        }
        _ => panic!("expected a send"),
    }
}

#[test]
fn test_broadcast_and_direct() {
    let (handler, mut reg) = setup(4);
    connect(&handler, &mut reg, cid(1), "A");
    connect(&handler, &mut reg, cid(2), "B");

    let bc = MessageFrame::new(MessageType::Broadcast {
        from: cid(9),
        content: "hello all".to_string(),
        timestamp: 1,
    });
    let actions = handler.handle_message(&mut reg, &cid(1), bc, 300);
    assert_eq!(actions.len(), 2);
    match &actions[0] {
        Action::Fanout { message } => match message {
            MessageType::Broadcast { from, content, .. } => {
                assert_eq!(*from, cid(1)); // rewritten to the sender
                assert_eq!(content, "hello all");
            }
            _ => panic!("expected broadcast"),
        },
        _ => panic!("expected a fan-out"),
    }
    match &actions[1] {
        Action::Send { to, message } => {
            assert_eq!(*to, cid(1));
            match message {
                MessageType::Text { content, .. } => {
                    assert_eq!(content, "Broadcast sent to 2 clients");
                }
                _ => panic!("expected text"),
            }
        }
        _ => panic!("expected a send"),
    }

    let dm = MessageFrame::new(MessageType::DirectMessage {
        from: cid(9),
        to: cid(2),
        content: "psst".to_string(),
        timestamp: 1,
    });
    let actions = handler.handle_message(&mut reg, &cid(1), dm, 301);
    assert_eq!(actions.len(), 2);
    match &actions[0] {
        Action::Send { to, message } => {
            assert_eq!(*to, cid(2));
            match message {
                MessageType::DirectMessage { from, to, content, .. } => {
                    assert_eq!(*from, cid(1));
                    assert_eq!(*to, cid(2));
                    assert_eq!(content, "psst");
                }
                _ => panic!("expected a direct message"),
            }
        }
        _ => panic!("expected a send"),
    }
    match &actions[1] {
        Action::Send { to, message } => {
            assert_eq!(*to, cid(1));
            match message {
                MessageType::Text { content, .. } => assert_eq!(content, "Direct message sent"),
                _ => panic!("expected text"),
            }
        }
        _ => panic!("expected a send"),
    }

    let dm_unknown = MessageFrame::new(MessageType::DirectMessage {
        from: cid(9),
        to: cid(77),
        content: "psst".to_string(),
        timestamp: 1,
    });
    let actions = handler.handle_message(&mut reg, &cid(1), dm_unknown, 302);
    assert_eq!(actions.len(), 1);
    match &actions[0] {
        Action::Send { to, message } => {
            assert_eq!(*to, cid(1));
            match message {
                MessageType::Error { code, message } => {
                    assert_eq!(*code, 1002);
                    assert_eq!(message, "Target client not found");
                }
                _ => panic!("expected an error"),
            }
        }
        _ => panic!("expected a send"),
    }
}

#[test]
fn test_ping_pong_and_list() {
    let (handler, mut reg) = setup(4);
    connect(&handler, &mut reg, cid(1), "A");
    let ping = MessageFrame::new(MessageType::Ping { timestamp: 5 });
    let actions = handler.handle_message(&mut reg, &cid(1), ping, 400);
    assert_eq!(actions.len(), 1);
    match &actions[0] {
        Action::Send { message, .. } => {
            assert!(matches!(message, MessageType::Pong { timestamp: 400 }));
        }
        _ => panic!("expected a send"),
    }

    let list = MessageFrame::new(MessageType::ListClients);
    let actions = handler.handle_message(&mut reg, &cid(1), list, 401);
    match &actions[0] {
        Action::Send { message, .. } => match message {
            MessageType::ClientList { clients } => {
                assert_eq!(clients.len(), 1);
                assert_eq!(clients[0].id, cid(1));
                assert_eq!(clients[0].name.as_deref(), Some("A"));
            }
            _ => panic!("expected a client list"),
        },
        _ => panic!("expected a send"),
    }
}

#[test]
fn test_subscribe_flow() {
    let (handler, mut reg) = setup(4);
    connect(&handler, &mut reg, cid(1), "A");
    let sub = MessageFrame::new(MessageType::Subscribe {
        topics: vec!["stocks".to_string(), "news".to_string()],
    });
    let actions = handler.handle_message(&mut reg, &cid(1), sub, 500);
    assert_eq!(actions.len(), 3);
    match &actions[0] {
        Action::Send { message, .. } => match message {
            MessageType::Text { content, .. } => {
                assert_eq!(content, "✅ Subscribed to topics: stocks, news");
            }
            _ => panic!("expected text"),
        },
        _ => panic!("expected a send"),
    }
    match &actions[1] {
        Action::Send { message, .. } => match message {
            MessageType::ServerPush { topic, content, .. } => {
                assert_eq!(topic, "stocks");
                assert_eq!(
                    content,
                    "Welcome to topic 'stocks'! You will receive real-time updates."
                );
            }
            _ => panic!("expected a push"),
        },
        _ => panic!("expected a send"),
    }
    let record = reg.get_client(&cid(1)).unwrap();
    assert!(record.subscriptions.contains(&"stocks".to_string()));
    assert!(record.subscriptions.contains(&"news".to_string()));

    let unsub = MessageFrame::new(MessageType::Unsubscribe { topics: vec!["news".to_string()] });
    let actions = handler.handle_message(&mut reg, &cid(1), unsub, 501);
    assert_eq!(actions.len(), 1);
    match &actions[0] {
        Action::Send { message, .. } => match message {
            MessageType::Text { content, .. } => {
                assert_eq!(content, "✅ Unsubscribed from topics: news");
            }
            _ => panic!("expected text"),
        },
        _ => panic!("expected a send"),
    }
    let record = reg.get_client(&cid(1)).unwrap();
    assert!(!record.subscriptions.contains(&"news".to_string()));
}

#[test]
fn test_close_evicts_and_unsupported_errors() {
    let (handler, mut reg) = setup(4);
    connect(&handler, &mut reg, cid(1), "A");
    connect(&handler, &mut reg, cid(2), "B");

    let pong = MessageFrame::new(MessageType::Pong { timestamp: 1 });
    let actions = handler.handle_message(&mut reg, &cid(1), pong, 600);
    match &actions[0] {
        Action::Send { message, .. } => match message {
            MessageType::Error { code, message } => {
                assert_eq!(*code, 1001);
                assert_eq!(message, "Unsupported message type");
            }
            _ => panic!("expected an error"),
        },
        _ => panic!("expected a send"),
    }

    let close = MessageFrame::new(MessageType::Close { code: 1000, reason: "bye".to_string() });
    let actions = handler.handle_message(&mut reg, &cid(1), close, 601);
    assert!(actions.is_empty());
    assert!(reg.get_client(&cid(1)).is_none());
    assert_eq!(reg.client_count(), 1);
}

#[test]
fn test_execute_actions_delivers_bytes() {
    let (handler, mut reg) = setup(4);
    connect(&handler, &mut reg, cid(1), "A");
    let ping = MessageFrame::new(MessageType::Ping { timestamp: 5 });
    let actions = handler.handle_message(&mut reg, &cid(1), ping, 700);
    let outbound = quic_websocket::handler::execute_actions(&reg, actions);
    assert_eq!(outbound.len(), 1);
    let o = &outbound[0];
    assert_eq!(o.to, cid(1));
    let back = MessageFrame::from_bytes(&o.bytes[4..]).unwrap();
    assert!(matches!(back.message_type, MessageType::Pong { timestamp: 700 }));
}

#[test]
fn test_execute_actions_exact_deliveries() {
    let (handler, mut reg) = setup(4);
    connect(&handler, &mut reg, cid(1), "A");
    connect(&handler, &mut reg, cid(2), "B");

    // a broadcast decision delivers to both connected sessions, then the
    // ack to the sender: exactly three outbound messages, in order
    let bc = MessageFrame::new(MessageType::Broadcast {
        from: cid(9),
        content: "all".to_string(),
        timestamp: 1,
    });
    let actions = handler.handle_message(&mut reg, &cid(1), bc, 800);
    let outbound = quic_websocket::handler::execute_actions(&reg, actions);
    assert_eq!(outbound.len(), 3);
    assert_eq!(outbound[0].to, cid(1));
    assert_eq!(outbound[1].to, cid(2));
    assert_eq!(outbound[2].to, cid(1));
    let back = MessageFrame::from_bytes(&outbound[1].bytes[4..]).unwrap();
    match back.message_type {
        MessageType::Broadcast { from, content, .. } => {
            assert_eq!(from, cid(1));
            assert_eq!(content, "all");
        }
        _ => panic!("expected broadcast"),
    }

    // a send to an absent session delivers nothing
    let actions = vec![quic_websocket::handler::Action::Send {
        to: cid(77),
        message: MessageType::Ping { timestamp: 1 },
    }];
    let outbound = quic_websocket::handler::execute_actions(&reg, actions);
    assert!(outbound.is_empty());
}

#[test]
fn test_notification_round_robin() {
    assert_eq!(notification_for(0).0, "system");
    assert_eq!(notification_for(1).0, "tips");
    assert_eq!(notification_for(2).0, "tech");
    assert_eq!(notification_for(3).0, "security");
    assert_eq!(notification_for(4).0, "performance");
    assert_eq!(notification_for(5).0, "news");
    assert_eq!(notification_for(6).0, "system");
    assert_eq!(notification_for(0).1, "📢 Welcome to QUIC WebSocket Server!");
}

#[test]
fn test_server_status_text_value() {
    let s = quic_websocket::handler::server_status_text("My Server", 12);
    assert_eq!(s, "🔔 Server Status: My Server - 12 active connections");
}

#[test]
fn test_handshake_reply_reaches_connecting_session() {
    // the handshake response is a direct reply, delivered even though the
    // session is still Connecting; ordinary sends are withheld until the
    // session is Connected
    let (handler, mut reg) = setup(4);
    reg.add_client(cid(1), 11, 100);
    let hs = MessageFrame::new(MessageType::Handshake {
        client_name: None,
        protocol_version: "0.9".to_string(),
    });
    let actions = handler.handle_message(&mut reg, &cid(1), hs, 100);
    let outbound = quic_websocket::handler::execute_actions(&reg, actions);
    assert_eq!(outbound.len(), 1);
    assert_eq!(outbound[0].to, cid(1));
    let back = MessageFrame::from_bytes(&outbound[0].bytes[4..]).unwrap();
    assert!(matches!(
        back.message_type,
        MessageType::HandshakeResponse { accepted: false, .. }
    ));
}
