//! Message data model of the native wire mode: client identifiers, the
//! tagged message union, per-client info records, and the frame envelope
//! that carries a message with its id, priority and acknowledgement flag.

use vstd::prelude::*;

verus! {

/// A 128-bit client / session identifier, assigned by the server when a
/// connection is admitted and stable for the session's lifetime.
#[derive(Clone, Copy, PartialEq, Eq, Structural, Debug, Hash)]
pub struct ClientId {
    pub value: u128,
}

/// Relies on `uuid::Uuid::new_v4` (and `as_u128` to read its bits) for a
/// fresh random identifier; nothing is assumed of the value returned.
#[verifier::external_body]
fn random_id_value() -> u128 {
    uuid::Uuid::new_v4().as_u128()
}

impl ClientId {
    /// A freshly generated random identifier.
    pub fn fresh() -> ClientId {
        ClientId { value: random_id_value() }
    }
}

/// Ghost model of a [`ClientInfo`]: plain values with string views.
pub struct ClientInfoV {
    pub id: u128,
    pub name: Option<Seq<char>>,
    pub connected_at: u64,
    pub last_seen: u64,
}

/// Public information about one connected client.
#[derive(Clone, Debug)]
pub struct ClientInfo {
    pub id: ClientId,
    pub name: Option<String>,
    pub connected_at: u64,
    pub last_seen: u64,
}

/// The view of an optional string: an optional character sequence.
pub open spec fn opt_string_view(s: Option<String>) -> Option<Seq<char>> {
    match s {
        Some(x) => Some(x@),
        None => None,
    }
}

impl View for ClientInfo {
    type V = ClientInfoV;

    open spec fn view(&self) -> ClientInfoV {
        ClientInfoV {
            id: self.id.value,
            name: opt_string_view(self.name),
            connected_at: self.connected_at,
            last_seen: self.last_seen,
        }
    }
}

/// The views of a list of client info records.
pub open spec fn client_infos_view(cs: Seq<ClientInfo>) -> Seq<ClientInfoV> {
    cs.map_values(|c: ClientInfo| c@)
}

/// The views of a list of topic strings.
pub open spec fn strings_view(ts: Seq<String>) -> Seq<Seq<char>> {
    ts.map_values(|t: String| t@)
}

/// Ghost model of a [`MessageType`].
pub enum MessageTypeV {
    Handshake { client_name: Option<Seq<char>>, protocol_version: Seq<char> },
    HandshakeResponse {
        client_id: u128,
        server_name: Seq<char>,
        accepted: bool,
        reason: Option<Seq<char>>,
    },
    Text { content: Seq<char>, timestamp: u64 },
    Binary { data: Seq<u8>, timestamp: u64 },
    Broadcast { from: u128, content: Seq<char>, timestamp: u64 },
    DirectMessage { from: u128, to: u128, content: Seq<char>, timestamp: u64 },
    Ping { timestamp: u64 },
    Pong { timestamp: u64 },
    ListClients,
    ClientList { clients: Seq<ClientInfoV> },
    Close { code: u16, reason: Seq<char> },
    Error { code: u16, message: Seq<char> },
    Subscribe { topics: Seq<Seq<char>> },
    Unsubscribe { topics: Seq<Seq<char>> },
    ServerPush { topic: Seq<char>, content: Seq<char>, timestamp: u64 },
}

/// The tagged message union of the native wire mode.
#[derive(Clone, Debug)]
pub enum MessageType {
    /// Connection handshake, the first message a client sends.
    Handshake { client_name: Option<String>, protocol_version: String },
    /// The server's answer to a handshake.
    HandshakeResponse {
        client_id: ClientId,
        server_name: String,
        accepted: bool,
        reason: Option<String>,
    },
    /// A text message; the server echoes it back.
    Text { content: String, timestamp: u64 },
    /// A binary message; the server echoes it back.
    Binary { data: Vec<u8>, timestamp: u64 },
    /// A message fanned out to every connected client.
    Broadcast { from: ClientId, content: String, timestamp: u64 },
    /// A message delivered to a single client.
    DirectMessage { from: ClientId, to: ClientId, content: String, timestamp: u64 },
    /// Heartbeat probe.
    Ping { timestamp: u64 },
    /// Heartbeat answer.
    Pong { timestamp: u64 },
    /// Request for the list of connected clients.
    ListClients,
    /// Answer to [`MessageType::ListClients`].
    ClientList { clients: Vec<ClientInfo> },
    /// Graceful connection close.
    Close { code: u16, reason: String },
    /// An error report sent to the offending client.
    Error { code: u16, message: String },
    /// Request to receive pushes on the named topics.
    Subscribe { topics: Vec<String> },
    /// Request to stop receiving pushes on the named topics.
    Unsubscribe { topics: Vec<String> },
    /// A server-originated push on a topic.
    ServerPush { topic: String, content: String, timestamp: u64 },
}

impl View for MessageType {
    type V = MessageTypeV;

    open spec fn view(&self) -> MessageTypeV {
        match self {
            MessageType::Handshake { client_name, protocol_version } => MessageTypeV::Handshake {
                client_name: opt_string_view(*client_name),
                protocol_version: protocol_version@,
            },
            MessageType::HandshakeResponse {
                client_id,
                server_name,
                accepted,
                reason,
            } => MessageTypeV::HandshakeResponse {
                client_id: client_id.value,
                server_name: server_name@,
                accepted: *accepted,
                reason: opt_string_view(*reason),
            },
            MessageType::Text { content, timestamp } => MessageTypeV::Text {
                content: content@,
                timestamp: *timestamp,
            },
            MessageType::Binary { data, timestamp } => MessageTypeV::Binary {
                data: data@,
                timestamp: *timestamp,
            },
            MessageType::Broadcast { from, content, timestamp } => MessageTypeV::Broadcast {
                from: from.value,
                content: content@,
                timestamp: *timestamp,
            },
            MessageType::DirectMessage {
                from,
                to,
                content,
                timestamp,
            } => MessageTypeV::DirectMessage {
                from: from.value,
                to: to.value,
                content: content@,
                timestamp: *timestamp,
            },
            MessageType::Ping { timestamp } => MessageTypeV::Ping { timestamp: *timestamp },
            MessageType::Pong { timestamp } => MessageTypeV::Pong { timestamp: *timestamp },
            MessageType::ListClients => MessageTypeV::ListClients,
            MessageType::ClientList { clients } => MessageTypeV::ClientList {
                clients: client_infos_view(clients@),
            },
            MessageType::Close { code, reason } => MessageTypeV::Close {
                code: *code,
                reason: reason@,
            },
            MessageType::Error { code, message } => MessageTypeV::Error {
                code: *code,
                message: message@,
            },
            MessageType::Subscribe { topics } => MessageTypeV::Subscribe {
                topics: strings_view(topics@),
            },
            MessageType::Unsubscribe { topics } => MessageTypeV::Unsubscribe {
                topics: strings_view(topics@),
            },
            MessageType::ServerPush { topic, content, timestamp } => MessageTypeV::ServerPush {
                topic: topic@,
                content: content@,
                timestamp: *timestamp,
            },
        }
    }
}

/// Ghost model of a [`MessageFrame`].
pub struct MessageFrameV {
    pub id: u128,
    pub message_type: MessageTypeV,
    pub priority: u8,
    pub require_ack: bool,
}

/// The frame envelope of the native wire mode: a message with a unique id,
/// a priority (reserved for future ordering) and an acknowledgement flag
/// (reserved; no acknowledgement is emitted).
#[derive(Clone, Debug)]
pub struct MessageFrame {
    pub id: ClientId,
    pub message_type: MessageType,
    pub priority: u8,
    pub require_ack: bool,
}

impl View for MessageFrame {
    type V = MessageFrameV;

    open spec fn view(&self) -> MessageFrameV {
        MessageFrameV {
            id: self.id.value,
            message_type: self.message_type@,
            priority: self.priority,
            require_ack: self.require_ack,
        }
    }
}

/// Default priority of a new frame.
pub const DEFAULT_PRIORITY: u8 = 128;

impl MessageFrame {
    /// A new frame around `message_type` with a fresh id, default priority,
    /// and no acknowledgement requested.
    pub fn new(message_type: MessageType) -> (r: MessageFrame)
        ensures
            r@.message_type == message_type@,
            r@.priority == DEFAULT_PRIORITY,
            r@.require_ack == false,
    {
        MessageFrame {
            id: ClientId::fresh(),
            message_type,
            priority: DEFAULT_PRIORITY,
            require_ack: false,
        }
    }

    /// A new frame that requests acknowledgement.
    pub fn new_with_ack(message_type: MessageType) -> (r: MessageFrame)
        ensures
            r@.message_type == message_type@,
            r@.priority == DEFAULT_PRIORITY,
            r@.require_ack == true,
    {
        MessageFrame {
            id: ClientId::fresh(),
            message_type,
            priority: DEFAULT_PRIORITY,
            require_ack: true,
        }
    }

    /// The same frame with `priority` replaced.
    pub fn with_priority(self, priority: u8) -> (r: MessageFrame)
        ensures
            r@.id == self@.id,
            r@.message_type == self@.message_type,
            r@.priority == priority,
            r@.require_ack == self@.require_ack,
    {
        MessageFrame { priority, ..self }
    }
}

} // verus!
