use quic_websocket::client::{ClientManager, ClientState};
use quic_websocket::message::{ClientId, MessageFrame, MessageType};

fn cid(n: u128) -> ClientId {
    ClientId { value: n }
}

#[test]
fn test_client_manager_creation() {
    let (manager, _rx) = ClientManager::new(10);
    assert_eq!(manager.client_count(), 0);
}

#[test]
fn test_admission_limit() {
    // With max_sessions = 3, three admissions succeed and the fourth is
    // refused without inserting anything.
    let (mut manager, _rx) = ClientManager::new(3);
    assert!(manager.add_client(cid(1), 11, 100));
    assert!(manager.add_client(cid(2), 12, 100));
    assert!(manager.add_client(cid(3), 13, 100));
    assert_eq!(manager.client_count(), 3);
    assert!(!manager.add_client(cid(4), 14, 100));
    assert_eq!(manager.client_count(), 3);
    assert!(manager.get_client(&cid(4)).is_none());
}

#[test]
fn test_single_session_limit() {
    // With max_sessions = 1 the second connection is refused; the caller
    // then closes it with code 1008.
    let (mut manager, _rx) = ClientManager::new(1);
    assert!(manager.add_client(cid(1), 11, 100));
    assert!(!manager.add_client(cid(2), 12, 100));
    assert_eq!(manager.client_count(), 1);
}

#[test]
fn test_state_moves_only_forward() {
    let (mut manager, _rx) = ClientManager::new(4);
    manager.add_client(cid(1), 11, 100);
    assert_eq!(manager.state_of(&cid(1)), Some(ClientState::Connecting));
    manager.update_client_state(&cid(1), ClientState::Connected, 101);
    assert_eq!(manager.state_of(&cid(1)), Some(ClientState::Connected));
    // an attempt to move backwards leaves the state unchanged
    manager.update_client_state(&cid(1), ClientState::Connecting, 102);
    assert_eq!(manager.state_of(&cid(1)), Some(ClientState::Connected));
    manager.update_client_state(&cid(1), ClientState::Closing, 103);
    manager.update_client_state(&cid(1), ClientState::Connected, 104);
    assert_eq!(manager.state_of(&cid(1)), Some(ClientState::Closing));
    manager.update_client_state(&cid(1), ClientState::Closed, 105);
    assert_eq!(manager.state_of(&cid(1)), Some(ClientState::Closed));
}

#[test]
fn test_subscribe_then_unsubscribe_restores() {
    let (mut manager, _rx) = ClientManager::new(4);
    manager.add_client(cid(1), 11, 100);
    manager.update_client_state(&cid(1), ClientState::Connected, 100);
    let base = vec!["news".to_string()];
    assert!(manager.subscribe_topics(&cid(1), &base));
    let before = manager.get_client(&cid(1)).unwrap().subscriptions;

    let fresh = vec!["stocks".to_string(), "sensors".to_string()];
    assert!(manager.subscribe_topics(&cid(1), &fresh));
    assert!(manager.unsubscribe_topics(&cid(1), &fresh));
    let after = manager.get_client(&cid(1)).unwrap().subscriptions;
    assert_eq!(before, after);
}

#[test]
fn test_subscriptions_only_while_connected() {
    let (mut manager, _rx) = ClientManager::new(4);
    manager.add_client(cid(1), 11, 100);
    // still Connecting: refused
    assert!(!manager.subscribe_topics(&cid(1), &vec!["stocks".to_string()]));
    assert!(manager.get_client(&cid(1)).unwrap().subscriptions.is_empty());
}

#[test]
fn test_reaper_idempotent() {
    let (mut manager, _rx) = ClientManager::new(4);
    manager.add_client(cid(1), 11, 100);
    manager.add_client(cid(2), 12, 100);
    manager.add_client(cid(3), 13, 100);
    manager.mark_disconnected(&cid(1));
    manager.mark_disconnected(&cid(3));
    assert_eq!(manager.cleanup_disconnected_clients(), 2);
    assert_eq!(manager.client_count(), 1);
    // a second pass right away removes nothing
    assert_eq!(manager.cleanup_disconnected_clients(), 0);
    assert_eq!(manager.client_count(), 1);
}

#[test]
fn test_broadcast_targets_connected_only() {
    let (mut manager, _rx) = ClientManager::new(4);
    manager.add_client(cid(1), 11, 100);
    manager.add_client(cid(2), 12, 100);
    manager.update_client_state(&cid(2), ClientState::Connected, 100);
    let frame = MessageFrame::new(MessageType::Ping { timestamp: 1 });
    let out = manager.broadcast_message(&frame);
    assert_eq!(out.len(), 1);
    assert_eq!(out[0].to, cid(2));
    assert_eq!(out[0].conn_handle, 12);
}

#[test]
fn test_push_to_subscribers_targets_topic() {
    let (mut manager, _rx) = ClientManager::new(4);
    manager.add_client(cid(1), 11, 100);
    manager.add_client(cid(2), 12, 100);
    manager.update_client_state(&cid(1), ClientState::Connected, 100);
    manager.update_client_state(&cid(2), ClientState::Connected, 100);
    manager.subscribe_topics(&cid(1), &vec!["stocks".to_string()]);
    let frame = MessageFrame::new(MessageType::ServerPush {
        topic: "stocks".to_string(),
        content: "tick".to_string(),
        timestamp: 1,
    });
    let out = manager.push_to_subscribers("stocks", &frame);
    assert_eq!(out.len(), 1);
    assert_eq!(out[0].to, cid(1));
    // the non-subscriber receives nothing on that topic
    assert!(out.iter().all(|o| o.to != cid(2)));
}

#[test]
fn test_evict_removes_session() {
    let (mut manager, _rx) = ClientManager::new(4);
    manager.add_client(cid(1), 11, 100);
    let removed = manager.remove_client(&cid(1));
    assert!(removed.is_some());
    assert_eq!(removed.unwrap().id, cid(1));
    assert_eq!(manager.client_count(), 0);
    assert!(manager.remove_client(&cid(1)).is_none());
}

#[test]
fn test_send_to_client_frames_bytes() {
    let (mut manager, _rx) = ClientManager::new(4);
    manager.add_client(cid(1), 11, 100);
    manager.update_client_state(&cid(1), ClientState::Connected, 100);
    let frame = MessageFrame::new(MessageType::Ping { timestamp: 1 });
    let out = manager.send_to_client(&cid(1), &frame).unwrap();
    // length prefix + body, and the body decodes back to the frame
    let body_len = u32::from_be_bytes([out.bytes[0], out.bytes[1], out.bytes[2], out.bytes[3]]);
    assert_eq!(body_len as usize, out.bytes.len() - 4);
    let back = MessageFrame::from_bytes(&out.bytes[4..]).unwrap();
    assert_eq!(back.id, frame.id);
    assert!(matches!(back.message_type, MessageType::Ping { timestamp: 1 }));
    // unknown target: nothing to send
    assert!(manager.send_to_client(&cid(9), &frame).is_none());
}

#[test]
fn test_send_to_client_gated_on_connected() {
    let (mut manager, _rx) = ClientManager::new(4);
    manager.add_client(cid(1), 11, 100);
    let frame = MessageFrame::new(MessageType::Ping { timestamp: 1 });
    // still Connecting: an ordinary send is withheld
    assert!(manager.send_to_client(&cid(1), &frame).is_none());
    // but a direct reply reaches the session
    assert!(manager.reply_to_client(&cid(1), &frame).is_some());
    manager.update_client_state(&cid(1), ClientState::Connected, 101);
    assert!(manager.send_to_client(&cid(1), &frame).is_some());
    manager.update_client_state(&cid(1), ClientState::Closing, 102);
    assert!(manager.send_to_client(&cid(1), &frame).is_none());
}
