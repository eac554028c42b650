//! The message-handler state machine of the native mode: for each inbound
//! message it decides the registry change and the exact replies, pushes
//! and fan-outs owed, as data. A separate step turns decisions into wire
//! bytes; the embedding performs the writes.

use vstd::prelude::*;
use vstd::string::StringExecFns;
use crate::client::{
    ClientManager, ClientState, ClientConnectionV, OutboundMessage, connected_targets, seq_has_id,
    state_le, topic_set, info_of, id_connected, sessions_with_id, connected_with_id, unique_ids,
};
use crate::codec::{wf_frame, wire_bytes, spec_from_bytes};
use crate::message::{
    ClientId, MessageFrame, MessageFrameV, MessageType, MessageTypeV, strings_view,
    client_infos_view, opt_string_view, DEFAULT_PRIORITY,
};
use crate::text::{spec_decimal, spec_join, u64_to_string, join_topics};
use crate::error_codes::{INVALID_MESSAGE, CLIENT_NOT_FOUND};

verus! {

/// Ghost model of an [`Action`].
pub enum ActionV {
    Send { to: u128, message: MessageTypeV },
    Reply { to: u128, message: MessageTypeV },
    Fanout { message: MessageTypeV },
}

/// One delivery the handler decided on: a fresh frame around `message`
/// goes to one `Connected` session (`Send`), straight back to the session
/// that is being answered whatever its state (`Reply` — the handshake
/// response must reach a still-`Connecting` session), or to every
/// connected session and the bus (`Fanout`).
#[derive(Debug)]
pub enum Action {
    Send { to: ClientId, message: MessageType },
    Reply { to: ClientId, message: MessageType },
    Fanout { message: MessageType },
}

impl View for Action {
    type V = ActionV;

    open spec fn view(&self) -> ActionV {
        match self {
            Action::Send { to, message } => ActionV::Send { to: to.value, message: message@ },
            Action::Reply { to, message } => ActionV::Reply { to: to.value, message: message@ },
            Action::Fanout { message } => ActionV::Fanout { message: message@ },
        }
    }
}

/// The views of a list of actions.
pub open spec fn actions_view(a: Seq<Action>) -> Seq<ActionV> {
    a.map_values(|x: Action| x@)
}

// ---------------------------------------------------------------------------
// The texts the handler sends, as spec functions.
// ---------------------------------------------------------------------------

pub open spec fn echo_text(content: Seq<char>) -> Seq<char> {
    "Echo: "@ + content
}

pub open spec fn broadcast_ack_text(n: nat) -> Seq<char> {
    "Broadcast sent to "@ + spec_decimal(n) + " clients"@
}

pub open spec fn dm_ack_text() -> Seq<char> {
    "Direct message sent"@
}

pub open spec fn not_found_text() -> Seq<char> {
    "Target client not found"@
}

pub open spec fn unsupported_text() -> Seq<char> {
    "Unsupported message type"@
}

pub open spec fn version_reject_reason(pv: Seq<char>, expected: Seq<char>) -> Seq<char> {
    "Unsupported protocol version: "@ + pv + ". Expected: "@ + expected
}

pub open spec fn subscribe_ack_text(ts: Seq<Seq<char>>) -> Seq<char> {
    "✅ Subscribed to topics: "@ + spec_join(ts)
}

pub open spec fn unsubscribe_ack_text(ts: Seq<Seq<char>>) -> Seq<char> {
    "✅ Unsubscribed from topics: "@ + spec_join(ts)
}

pub open spec fn topic_welcome_text(t: Seq<char>) -> Seq<char> {
    "Welcome to topic '"@ + t + "'! You will receive real-time updates."@
}

// ---------------------------------------------------------------------------
// Registry-effect predicates.
// ---------------------------------------------------------------------------

/// A message counter after one more message; pins at its maximum.
pub open spec fn bump(c: u64) -> u64 {
    if c < u64::MAX {
        (c + 1) as u64
    } else {
        c
    }
}

/// The record after inbound activity at `now`.
pub open spec fn touched_record(c: ClientConnectionV, now: u64) -> ClientConnectionV {
    ClientConnectionV { last_seen: now, message_count: bump(c.message_count), ..c }
}

/// The registry after inbound activity of session `idv` at `now`.
pub open spec fn touched(
    pre: Seq<ClientConnectionV>,
    post: Seq<ClientConnectionV>,
    idv: u128,
    now: u64,
) -> bool {
    &&& post.len() == pre.len()
    &&& forall|j: int| 0 <= j < pre.len() && pre[j].id != idv ==> post[j] == pre[j]
    &&& forall|j: int|
        0 <= j < pre.len() && pre[j].id == idv ==> post[j] == touched_record(#[trigger] pre[j], now)
}

/// The record after a handshake: activity counted; on acceptance the name
/// is set (when offered) and the state moves forward to `Connected`.
pub open spec fn handshake_record(
    c: ClientConnectionV,
    now: u64,
    name: Option<Seq<char>>,
    accepted: bool,
) -> ClientConnectionV {
    if accepted {
        ClientConnectionV {
            last_seen: now,
            message_count: bump(c.message_count),
            name: if name is Some {
                name
            } else {
                c.name
            },
            state: if state_le(c.state, ClientState::Connected) {
                ClientState::Connected
            } else {
                c.state
            },
            ..c
        }
    } else {
        touched_record(c, now)
    }
}

/// The registry after a handshake of session `idv`.
pub open spec fn handshook(
    pre: Seq<ClientConnectionV>,
    post: Seq<ClientConnectionV>,
    idv: u128,
    now: u64,
    name: Option<Seq<char>>,
    accepted: bool,
) -> bool {
    &&& post.len() == pre.len()
    &&& forall|j: int| 0 <= j < pre.len() && pre[j].id != idv ==> post[j] == pre[j]
    &&& forall|j: int|
        0 <= j < pre.len() && pre[j].id == idv ==> post[j] == handshake_record(
            #[trigger] pre[j],
            now,
            name,
            accepted,
        )
}

/// The registry after session `idv` changed its subscriptions: activity
/// counted and the topic set transformed by `f`-like union or difference;
/// stated with the new topic set pinned by the caller.
pub open spec fn resubscribed(
    pre: Seq<ClientConnectionV>,
    post: Seq<ClientConnectionV>,
    idv: u128,
    now: u64,
    new_set: Set<Seq<char>>,
) -> bool {
    &&& post.len() == pre.len()
    &&& forall|j: int| 0 <= j < pre.len() && pre[j].id != idv ==> post[j] == pre[j]
    &&& forall|j: int|
        0 <= j < pre.len() && pre[j].id == idv ==> (#[trigger] post[j]) == (ClientConnectionV {
            last_seen: now,
            message_count: bump(pre[j].message_count),
            subscriptions: post[j].subscriptions,
            ..pre[j]
        }) && topic_set(post[j]) == new_set && post[j].subscriptions.no_duplicates()
}

/// The registry after session `idv` was evicted.
pub open spec fn removed(
    pre: Seq<ClientConnectionV>,
    post: Seq<ClientConnectionV>,
    idv: u128,
) -> bool {
    exists|i: int| 0 <= i < pre.len() && (#[trigger] pre[i]).id == idv && post == pre.remove(i)
}

/// The welcome pushes sent for newly subscribed topics.
pub open spec fn welcome_actions(idv: u128, ts: Seq<Seq<char>>, now: u64) -> Seq<ActionV> {
    ts.map_values(
        |t: Seq<char>|
            ActionV::Send {
                to: idv,
                message: MessageTypeV::ServerPush {
                    topic: t,
                    content: topic_welcome_text(t),
                    timestamp: now,
                },
            },
    )
}

// ---------------------------------------------------------------------------
// The transition relation: what one inbound message does.
// ---------------------------------------------------------------------------

/// The handler's case for a message from a session at index `i`.
pub open spec fn handle_case(
    pre: Seq<ClientConnectionV>,
    post: Seq<ClientConnectionV>,
    actions: Seq<ActionV>,
    i: int,
    idv: u128,
    m: MessageTypeV,
    now: u64,
    sname: Seq<char>,
    proto: Seq<char>,
) -> bool {
    if m is Handshake {
        let name = m->Handshake_client_name;
        let pv = m->Handshake_protocol_version;
        let accepted = pv == proto;
        &&& handshook(pre, post, idv, now, name, accepted)
        &&& actions == seq![
            ActionV::Reply {
                to: idv,
                message: MessageTypeV::HandshakeResponse {
                    client_id: idv,
                    server_name: sname,
                    accepted,
                    reason: if accepted {
                        None
                    } else {
                        Some(version_reject_reason(pv, proto))
                    },
                },
            },
        ]
    } else if pre[i].state != ClientState::Connected {
        touched(pre, post, idv, now) && actions.len() == 0
    } else {
        match m {
            MessageTypeV::Text { content, .. } => touched(pre, post, idv, now) && actions == seq![
                ActionV::Send {
                    to: idv,
                    message: MessageTypeV::Text { content: echo_text(content), timestamp: now },
                },
            ],
            MessageTypeV::Binary { data, .. } => touched(pre, post, idv, now) && actions == seq![
                ActionV::Send {
                    to: idv,
                    message: MessageTypeV::Binary { data, timestamp: now },
                },
            ],
            MessageTypeV::Broadcast { content, .. } => touched(pre, post, idv, now) && actions
                == seq![
                ActionV::Fanout {
                    message: MessageTypeV::Broadcast { from: idv, content, timestamp: now },
                },
                ActionV::Send {
                    to: idv,
                    message: MessageTypeV::Text {
                        content: broadcast_ack_text(connected_targets(post).len()),
                        timestamp: now,
                    },
                },
            ],
            MessageTypeV::DirectMessage { to, content, .. } => touched(pre, post, idv, now) && (
            if seq_has_id(pre, to) {
                actions == seq![
                    ActionV::Send {
                        to,
                        message: MessageTypeV::DirectMessage {
                            from: idv,
                            to,
                            content,
                            timestamp: now,
                        },
                    },
                    ActionV::Send {
                        to: idv,
                        message: MessageTypeV::Text { content: dm_ack_text(), timestamp: now },
                    },
                ]
            } else {
                actions == seq![
                    ActionV::Send {
                        to: idv,
                        message: MessageTypeV::Error {
                            code: CLIENT_NOT_FOUND,
                            message: not_found_text(),
                        },
                    },
                ]
            }),
            MessageTypeV::Ping { .. } => touched(pre, post, idv, now) && actions == seq![
                ActionV::Send { to: idv, message: MessageTypeV::Pong { timestamp: now } },
            ],
            MessageTypeV::ListClients => touched(pre, post, idv, now) && actions.len() == 1 && (
            actions[0] matches ActionV::Send { to, message } && to == idv && (
            message matches MessageTypeV::ClientList { clients } && clients.len() == post.len()
                && forall|k: int| 0 <= k < post.len() ==> #[trigger] clients[k] == info_of(post[k]))),
            MessageTypeV::Close { .. } => removed(pre, post, idv) && actions.len() == 0,
            MessageTypeV::Subscribe { topics } => resubscribed(
                pre,
                post,
                idv,
                now,
                topic_set(pre[i]).union(topics.to_set()),
            ) && actions == seq![
                ActionV::Send {
                    to: idv,
                    message: MessageTypeV::Text {
                        content: subscribe_ack_text(topics),
                        timestamp: now,
                    },
                },
            ] + welcome_actions(idv, topics, now),
            MessageTypeV::Unsubscribe { topics } => resubscribed(
                pre,
                post,
                idv,
                now,
                topic_set(pre[i]).difference(topics.to_set()),
            ) && actions == seq![
                ActionV::Send {
                    to: idv,
                    message: MessageTypeV::Text {
                        content: unsubscribe_ack_text(topics),
                        timestamp: now,
                    },
                },
            ],
            _ => touched(pre, post, idv, now) && actions == seq![
                ActionV::Send {
                    to: idv,
                    message: MessageTypeV::Error {
                        code: INVALID_MESSAGE,
                        message: unsupported_text(),
                    },
                },
            ],
        }
    }
}

/// The handler's transition relation: a message from an unknown session
/// is dropped without effect; otherwise the case of the sender's record
/// applies.
pub open spec fn handle_post(
    pre: Seq<ClientConnectionV>,
    post: Seq<ClientConnectionV>,
    actions: Seq<ActionV>,
    idv: u128,
    m: MessageTypeV,
    now: u64,
    sname: Seq<char>,
    proto: Seq<char>,
) -> bool {
    if !seq_has_id(pre, idv) {
        post == pre && actions.len() == 0
    } else {
        exists|i: int|
            0 <= i < pre.len() && (#[trigger] pre[i]).id == idv && handle_case(
                pre,
                post,
                actions,
                i,
                idv,
                m,
                now,
                sname,
                proto,
            )
    }
}

/// Handshake acceptance: when a session offers the expected protocol
/// version, the handler's sole decision is the direct reply
/// `HandshakeResponse { accepted: true, reason: None }` carrying the
/// server's name and the sender's id, and the sender's record moves
/// forward to `Connected` with the offered display name set; every other
/// record is untouched.
pub proof fn lemma_handshake_accepted(
    pre: Seq<ClientConnectionV>,
    post: Seq<ClientConnectionV>,
    actions: Seq<ActionV>,
    idv: u128,
    name: Option<Seq<char>>,
    now: u64,
    sname: Seq<char>,
    proto: Seq<char>,
    i: int,
)
    requires
        unique_ids(pre),
        0 <= i < pre.len(),
        pre[i].id == idv,
        state_le(pre[i].state, ClientState::Connected),
        handle_post(
            pre,
            post,
            actions,
            idv,
            MessageTypeV::Handshake { client_name: name, protocol_version: proto },
            now,
            sname,
            proto,
        ),
    ensures
        actions == seq![
            ActionV::Reply {
                to: idv,
                message: MessageTypeV::HandshakeResponse {
                    client_id: idv,
                    server_name: sname,
                    accepted: true,
                    reason: None,
                },
            },
        ],
        post.len() == pre.len(),
        post[i].state == ClientState::Connected,
        post[i].name == (if name is Some {
            name
        } else {
            pre[i].name
        }),
        post[i].last_seen == now,
        forall|j: int| 0 <= j < pre.len() && j != i ==> post[j] == pre[j],
{
    let m = MessageTypeV::Handshake { client_name: name, protocol_version: proto };
    assert(seq_has_id(pre, idv));
    let i2 = choose|i2: int|
        0 <= i2 < pre.len() && pre[i2].id == idv && handle_case(
            pre,
            post,
            actions,
            i2,
            idv,
            m,
            now,
            sname,
            proto,
        );
    if i2 != i {
        assert(pre[i2].id != pre[i].id);
    }
    assert(i2 == i);
    assert(handshook(pre, post, idv, now, name, true));
    assert(post[i] == handshake_record(pre[i], now, name, true));
    assert forall|j: int| 0 <= j < pre.len() && j != i implies post[j] == pre[j] by {
        assert(pre[j].id != pre[i].id);
    };
}

/// Handshake rejection: when a session offers any other protocol version,
/// the handler's sole decision is the direct reply
/// `HandshakeResponse { accepted: false }` whose reason names the offered
/// and the expected version; the sender's record only counts the activity
/// — its state and name are unchanged — and every other record is
/// untouched.
pub proof fn lemma_handshake_rejected(
    pre: Seq<ClientConnectionV>,
    post: Seq<ClientConnectionV>,
    actions: Seq<ActionV>,
    idv: u128,
    name: Option<Seq<char>>,
    pv: Seq<char>,
    now: u64,
    sname: Seq<char>,
    proto: Seq<char>,
    i: int,
)
    requires
        unique_ids(pre),
        0 <= i < pre.len(),
        pre[i].id == idv,
        pv != proto,
        handle_post(
            pre,
            post,
            actions,
            idv,
            MessageTypeV::Handshake { client_name: name, protocol_version: pv },
            now,
            sname,
            proto,
        ),
    ensures
        actions == seq![
            ActionV::Reply {
                to: idv,
                message: MessageTypeV::HandshakeResponse {
                    client_id: idv,
                    server_name: sname,
                    accepted: false,
                    reason: Some(version_reject_reason(pv, proto)),
                },
            },
        ],
        post.len() == pre.len(),
        post[i] == touched_record(pre[i], now),
        post[i].state == pre[i].state,
        post[i].name == pre[i].name,
        forall|j: int| 0 <= j < pre.len() && j != i ==> post[j] == pre[j],
{
    let m = MessageTypeV::Handshake { client_name: name, protocol_version: pv };
    assert(seq_has_id(pre, idv));
    let i2 = choose|i2: int|
        0 <= i2 < pre.len() && pre[i2].id == idv && handle_case(
            pre,
            post,
            actions,
            i2,
            idv,
            m,
            now,
            sname,
            proto,
        );
    if i2 != i {
        assert(pre[i2].id != pre[i].id);
    }
    assert(i2 == i);
    assert(handshook(pre, post, idv, now, name, false));
    assert(post[i] == handshake_record(pre[i], now, name, false));
    assert forall|j: int| 0 <= j < pre.len() && j != i implies post[j] == pre[j] by {
        assert(pre[j].id != pre[i].id);
    };
}

// ---------------------------------------------------------------------------
// The handler.
// ---------------------------------------------------------------------------

/// The per-server message handler: the server's name, and the protocol
/// version it accepts in handshakes.
pub struct MessageHandler {
    pub server_name: String,
    pub protocol_version: String,
}

impl MessageHandler {
    /// A handler for a server name; the accepted protocol version is 1.0.
    pub fn new(server_name: String) -> (r: MessageHandler)
        ensures
            r.server_name@ == server_name@,
            r.protocol_version@ == "1.0"@,
    {
        MessageHandler { server_name, protocol_version: "1.0".to_owned() }
    }

    fn handle_handshake(
        &self,
        reg: &mut ClientManager,
        client_id: &ClientId,
        client_name: Option<String>,
        protocol_version: String,
        now: u64,
    ) -> (r: Vec<Action>)
        requires
            old(reg).wf(),
        ensures
            final(reg).wf(),
            final(reg).capacity() == old(reg).capacity(),
            handshook(
                old(reg).sessions(),
                final(reg).sessions(),
                client_id.value,
                now,
                opt_string_view(client_name),
                protocol_version@ == self.protocol_version@,
            ),
            actions_view(r@) == seq![
                ActionV::Reply {
                    to: client_id.value,
                    message: MessageTypeV::HandshakeResponse {
                        client_id: client_id.value,
                        server_name: self.server_name@,
                        accepted: protocol_version@ == self.protocol_version@,
                        reason: if protocol_version@ == self.protocol_version@ {
                            None
                        } else {
                            Some(version_reject_reason(protocol_version@, self.protocol_version@))
                        },
                    },
                },
            ],
    {
        let ghost pre = reg.sessions();
        let ghost idv = client_id.value;
        let ghost namev = opt_string_view(client_name);
        let accepted = crate::text::str_eq(protocol_version.as_str(), self.protocol_version.as_str());
        let reason: Option<String> = if accepted {
            None
        } else {
            Some(
                String::from_str("Unsupported protocol version: ").concat(
                    protocol_version.as_str(),
                ).concat(". Expected: ").concat(self.protocol_version.as_str()),
            )
        };
        reg.touch_client(client_id, now);
        let ghost t1 = reg.sessions();
        if accepted {
            match client_name {
                Some(n) => {
                    reg.set_client_name(client_id, n, now);
                },
                None => {},
            }
            let ghost t2 = reg.sessions();
            reg.update_client_state(client_id, ClientState::Connected, now);
            proof {
                assert forall|j: int|
                    0 <= j < pre.len() && pre[j].id == idv implies reg.sessions()[j]
                    == handshake_record(#[trigger] pre[j], now, namev, true) by {
                    assert(t1[j] == touched_record(pre[j], now));
                    if namev is Some {
                        assert(t2[j] == (ClientConnectionV { name: namev, last_seen: now, ..t1[j] }));
                    } else {
                        assert(t2 == t1);
                    }
                };
                assert forall|j: int|
                    0 <= j < pre.len() && pre[j].id != idv implies reg.sessions()[j] == pre[j] by {
                    assert(t1[j] == pre[j]);
                    if namev is Some {
                        assert(t2[j] == t1[j]);
                    } else {
                        assert(t2 == t1);
                    }
                };
            }
        }
        let response = MessageType::HandshakeResponse {
            client_id: *client_id,
            server_name: self.server_name.clone(),
            accepted,
            reason,
        };
        let mut out: Vec<Action> = Vec::new();
        out.push(Action::Reply { to: *client_id, message: response });
        proof {
            assert(actions_view(out@) =~= seq![out@[0]@]);
        }
        out
    }

    /// Handle one inbound message from a session: apply the registry
    /// change and return the deliveries owed, per the transition relation
    /// [`handle_post`].
    #[verifier::rlimit(100)]
    pub fn handle_message(
        &self,
        reg: &mut ClientManager,
        client_id: &ClientId,
        frame: MessageFrame,
        now: u64,
    ) -> (r: Vec<Action>)
        requires
            old(reg).wf(),
        ensures
            final(reg).wf(),
            final(reg).capacity() == old(reg).capacity(),
            handle_post(
                old(reg).sessions(),
                final(reg).sessions(),
                actions_view(r@),
                client_id.value,
                frame@.message_type,
                now,
                self.server_name@,
                self.protocol_version@,
            ),
    {
        let ghost pre = reg.sessions();
        let ghost idv = client_id.value;
        let ghost m = frame@.message_type;
        let ghost sname = self.server_name@;
        let ghost proto = self.protocol_version@;
        let st0 = match reg.state_of(client_id) {
            None => {
                let out: Vec<Action> = Vec::new();
                assert(actions_view(out@) =~= Seq::<ActionV>::empty());
                return out;
            },
            Some(st) => st,
        };
        let ghost wi: int = choose|i: int|
            0 <= i < pre.len() && pre[i].id == idv && pre[i].state == st0;
        match frame.message_type {
            MessageType::Handshake { client_name, protocol_version } => {
                let out = self.handle_handshake(reg, client_id, client_name, protocol_version, now);
                proof {
                    assert(handle_case(
                        pre,
                        reg.sessions(),
                        actions_view(out@),
                        wi,
                        idv,
                        m,
                        now,
                        sname,
                        proto,
                    ));
                }
                out
            },
            mt => {
                reg.touch_client(client_id, now);
                let ghost mid = reg.sessions();
                proof {
                    assert(touched(pre, mid, idv, now));
                    assert forall|j: int| 0 <= j < pre.len() implies (#[trigger] mid[j]).id
                        == pre[j].id && mid[j].state == pre[j].state && mid[j].subscriptions
                        == pre[j].subscriptions by {
                        if pre[j].id == idv {
                            assert(mid[j] == touched_record(pre[j], now));
                        }
                    };
                }
                if !(st0 == ClientState::Connected) {
                    let out: Vec<Action> = Vec::new();
                    proof {
                        assert(actions_view(out@) =~= Seq::<ActionV>::empty());
                        assert(handle_case(pre, mid, actions_view(out@), wi, idv, m, now, sname, proto));
                    }
                    return out;
                }
                match mt {
                    MessageType::Text { content, .. } => {
                        let text = String::from_str("Echo: ").concat(content.as_str());
                        let mut out: Vec<Action> = Vec::new();
                        out.push(
                            Action::Send {
                                to: *client_id,
                                message: MessageType::Text { content: text, timestamp: now },
                            },
                        );
                        proof {
                            assert(actions_view(out@) =~= seq![out@[0]@]);
                            assert(handle_case(
                                pre,
                                reg.sessions(),
                                actions_view(out@),
                                wi,
                                idv,
                                m,
                                now,
                                sname,
                                proto,
                            ));
                        }
                        out
                    },
                    MessageType::Binary { data, .. } => {
                        let mut out: Vec<Action> = Vec::new();
                        out.push(
                            Action::Send {
                                to: *client_id,
                                message: MessageType::Binary { data, timestamp: now },
                            },
                        );
                        proof {
                            assert(actions_view(out@) =~= seq![out@[0]@]);
                            assert(handle_case(
                                pre,
                                reg.sessions(),
                                actions_view(out@),
                                wi,
                                idv,
                                m,
                                now,
                                sname,
                                proto,
                            ));
                        }
                        out
                    },
                    MessageType::Broadcast { content, .. } => {
                        let n = reg.connected_count();
                        let ack = String::from_str("Broadcast sent to ").concat(
                            u64_to_string(n as u64).as_str(),
                        ).concat(" clients");
                        let mut out: Vec<Action> = Vec::new();
                        out.push(
                            Action::Fanout {
                                message: MessageType::Broadcast {
                                    from: *client_id,
                                    content,
                                    timestamp: now,
                                },
                            },
                        );
                        out.push(
                            Action::Send {
                                to: *client_id,
                                message: MessageType::Text { content: ack, timestamp: now },
                            },
                        );
                        proof {
                            assert(actions_view(out@) =~= seq![out@[0]@, out@[1]@]);
                            assert(ack@ == broadcast_ack_text(connected_targets(mid).len()));
                            assert(handle_case(
                                pre,
                                reg.sessions(),
                                actions_view(out@),
                                wi,
                                idv,
                                m,
                                now,
                                sname,
                                proto,
                            ));
                        }
                        out
                    },
                    MessageType::DirectMessage { to, content, .. } => {
                        let target_present = match reg.get_client(&to) {
                            Some(_) => true,
                            None => false,
                        };
                        proof {
                            if target_present {
                                let jj = choose|jj: int|
                                    0 <= jj < mid.len() && mid[jj].id == to.value;
                                assert(pre[jj].id == to.value);
                                assert(seq_has_id(pre, to.value));
                            } else {
                                assert forall|jt: int|
                                    0 <= jt < pre.len() implies (#[trigger] pre[jt]).id
                                    != to.value by {
                                    assert(mid[jt].id == pre[jt].id);
                                };
                                assert(!seq_has_id(pre, to.value));
                            }
                        }
                        if target_present {
                            let mut out: Vec<Action> = Vec::new();
                            out.push(
                                Action::Send {
                                    to,
                                    message: MessageType::DirectMessage {
                                        from: *client_id,
                                        to,
                                        content,
                                        timestamp: now,
                                    },
                                },
                            );
                            out.push(
                                Action::Send {
                                    to: *client_id,
                                    message: MessageType::Text {
                                        content: "Direct message sent".to_owned(),
                                        timestamp: now,
                                    },
                                },
                            );
                            proof {
                                assert(actions_view(out@) =~= seq![out@[0]@, out@[1]@]);
                                assert(handle_case(
                                    pre,
                                    reg.sessions(),
                                    actions_view(out@),
                                    wi,
                                    idv,
                                    m,
                                    now,
                                    sname,
                                    proto,
                                ));
                            }
                            out
                        } else {
                            let mut out: Vec<Action> = Vec::new();
                            out.push(
                                Action::Send {
                                    to: *client_id,
                                    message: MessageType::Error {
                                        code: CLIENT_NOT_FOUND,
                                        message: "Target client not found".to_owned(),
                                    },
                                },
                            );
                            proof {
                                assert(actions_view(out@) =~= seq![out@[0]@]);
                                assert(handle_case(
                                    pre,
                                    reg.sessions(),
                                    actions_view(out@),
                                    wi,
                                    idv,
                                    m,
                                    now,
                                    sname,
                                    proto,
                                ));
                            }
                            out
                        }
                    },
                    MessageType::Ping { .. } => {
                        let mut out: Vec<Action> = Vec::new();
                        out.push(
                            Action::Send {
                                to: *client_id,
                                message: MessageType::Pong { timestamp: now },
                            },
                        );
                        proof {
                            assert(actions_view(out@) =~= seq![out@[0]@]);
                            assert(handle_case(
                                pre,
                                reg.sessions(),
                                actions_view(out@),
                                wi,
                                idv,
                                m,
                                now,
                                sname,
                                proto,
                            ));
                        }
                        out
                    },
                    MessageType::ListClients => {
                        let clients = reg.get_all_clients();
                        let ghost cv = client_infos_view(clients@);
                        proof {
                            assert forall|k: int| 0 <= k < mid.len() implies #[trigger] cv[k]
                                == info_of(mid[k]) by {
                                assert(cv[k] == clients@[k]@);
                            };
                        }
                        let mut out: Vec<Action> = Vec::new();
                        out.push(
                            Action::Send {
                                to: *client_id,
                                message: MessageType::ClientList { clients },
                            },
                        );
                        proof {
                            assert(actions_view(out@) =~= seq![out@[0]@]);
                            assert(handle_case(
                                pre,
                                reg.sessions(),
                                actions_view(out@),
                                wi,
                                idv,
                                m,
                                now,
                                sname,
                                proto,
                            ));
                        }
                        out
                    },
                    MessageType::Close { .. } => {
                        proof {
                            assert(mid[wi].id == idv);
                            assert(seq_has_id(mid, idv));
                        }
                        let removed_record = reg.remove_client(client_id);
                        proof {
                            assert(removed_record is Some);
                            let c = removed_record->0;
                            let i2 = choose|i2: int|
                                0 <= i2 < mid.len() && mid[i2] == c@ && reg.sessions()
                                    == mid.remove(i2);
                            assert(mid[i2].id == idv);
                            if i2 != wi {
                                assert(mid[i2].id != mid[wi].id);
                            }
                            assert(i2 == wi);
                            assert forall|q: int|
                                0 <= q < mid.remove(wi).len() implies mid.remove(wi)[q]
                                == pre.remove(wi)[q] by {
                                let sq: int = if q < wi {
                                    q
                                } else {
                                    q + 1
                                };
                                assert(mid.remove(wi)[q] == mid[sq]);
                                assert(pre.remove(wi)[q] == pre[sq]);
                                if pre[sq].id == idv {
                                    assert(sq < wi || wi < sq);
                                    assert(pre[sq].id == pre[wi].id);
                                    assert(false);
                                }
                            };
                            assert(mid.remove(wi) =~= pre.remove(wi));
                            assert(reg.sessions() == pre.remove(wi));
                            assert(removed(pre, reg.sessions(), idv));
                        }
                        let out: Vec<Action> = Vec::new();
                        proof {
                            assert(actions_view(out@) =~= Seq::<ActionV>::empty());
                            assert(handle_case(
                                pre,
                                reg.sessions(),
                                actions_view(out@),
                                wi,
                                idv,
                                m,
                                now,
                                sname,
                                proto,
                            ));
                        }
                        out
                    },
                    MessageType::Subscribe { topics } => {
                        let ghost tset = strings_view(topics@).to_set();
                        proof {
                            assert(mid[wi].id == idv && mid[wi].state == ClientState::Connected);
                            assert(id_connected(mid, idv));
                        }
                        let ok = reg.subscribe_topics(client_id, &topics);
                        let ghost post = reg.sessions();
                        proof {
                            assert(ok);
                            assert forall|j: int|
                                0 <= j < pre.len() && pre[j].id == idv implies (
                            #[trigger] post[j]) == (ClientConnectionV {
                                last_seen: now,
                                message_count: bump(pre[j].message_count),
                                subscriptions: post[j].subscriptions,
                                ..pre[j]
                            }) && topic_set(post[j]) == topic_set(pre[wi]).union(tset) && post[j].subscriptions.no_duplicates() by {
                                assert(mid[j] == touched_record(pre[j], now));
                                assert(mid[j].id == idv);
                                assert(topic_set(mid[j]) == topic_set(pre[j]));
                                if j != wi {
                                    assert(pre[j].id == pre[wi].id);
                                    assert(false);
                                }
                            };
                            assert forall|j: int|
                                0 <= j < pre.len() && pre[j].id != idv implies #[trigger] post[j]
                                == pre[j] by {
                                assert(mid[j] == pre[j]);
                                assert(mid[j].id != idv);
                            };
                            assert(resubscribed(pre, post, idv, now, topic_set(pre[wi]).union(tset)));
                        }
                        let ack = String::from_str("✅ Subscribed to topics: ").concat(
                            join_topics(&topics).as_str(),
                        );
                        let mut out: Vec<Action> = Vec::new();
                        out.push(
                            Action::Send {
                                to: *client_id,
                                message: MessageType::Text { content: ack, timestamp: now },
                            },
                        );
                        assert(actions_view(out@) =~= seq![out@[0]@] + welcome_actions(
                            client_id.value,
                            strings_view(topics@).take(0),
                            now,
                        )) by {
                            assert(strings_view(topics@).take(0) =~= Seq::<Seq<char>>::empty());
                            assert(welcome_actions(client_id.value, strings_view(topics@).take(0), now).len() == 0);
                        };
                        let ghost tviews = strings_view(topics@);
                        let ntop = topics.len();
                        let mut k: usize = 0;
                        while k < ntop
                            invariant
                                ntop == tviews.len(),
                                tviews == strings_view(topics@),
                                k <= ntop,
                                out@.len() == 1 + k,
                                actions_view(out@) == seq![out@[0]@] + welcome_actions(
                                    client_id.value,
                                    tviews.take(k as int),
                                    now,
                                ),
                                out@[0]@ == (ActionV::Send {
                                    to: client_id.value,
                                    message: MessageTypeV::Text {
                                        content: subscribe_ack_text(tviews),
                                        timestamp: now,
                                    },
                                }),
                            decreases ntop - k,
                        {
                            let welcome = String::from_str("Welcome to topic '").concat(
                                topics[k].as_str(),
                            ).concat("'! You will receive real-time updates.");
                            let ghost outpre = out@;
                            out.push(
                                Action::Send {
                                    to: *client_id,
                                    message: MessageType::ServerPush {
                                        topic: topics[k].clone(),
                                        content: welcome,
                                        timestamp: now,
                                    },
                                },
                            );
                            proof {
                                let target = seq![out@[0]@] + welcome_actions(
                                    client_id.value,
                                    tviews.take(k as int + 1),
                                    now,
                                );
                                assert(out@[out@.len() - 1]@ == (ActionV::Send {
                                    to: client_id.value,
                                    message: MessageTypeV::ServerPush {
                                        topic: tviews[k as int],
                                        content: topic_welcome_text(tviews[k as int]),
                                        timestamp: now,
                                    },
                                }));
                                assert forall|q: int|
                                    0 <= q < out@.len() implies actions_view(out@)[q] == target[q] by {
                                    assert(actions_view(out@)[q] == out@[q]@);
                                    if q < out@.len() - 1 {
                                        assert(out@[q] == outpre[q]);
                                        assert(actions_view(outpre)[q] == outpre[q]@);
                                        if q >= 1 {
                                            assert(welcome_actions(
                                                client_id.value,
                                                tviews.take(k as int),
                                                now,
                                            )[q - 1] == welcome_actions(
                                                client_id.value,
                                                tviews.take(k as int + 1),
                                                now,
                                            )[q - 1]) by {
                                                assert(tviews.take(k as int)[q - 1] == tviews.take(
                                                    k as int + 1,
                                                )[q - 1]);
                                            };
                                        }
                                    } else {
                                        assert(target[q] == welcome_actions(
                                            client_id.value,
                                            tviews.take(k as int + 1),
                                            now,
                                        )[q - 1]);
                                        assert(tviews.take(k as int + 1)[k as int]
                                            == tviews[k as int]);
                                    }
                                };
                                assert(actions_view(out@) =~= target);
                            }
                            k += 1;
                        }
                        proof {
                            assert(tviews.take(ntop as int) =~= tviews);
                            assert(handle_case(
                                pre,
                                reg.sessions(),
                                actions_view(out@),
                                wi,
                                idv,
                                m,
                                now,
                                sname,
                                proto,
                            ));
                        }
                        out
                    },
                    MessageType::Unsubscribe { topics } => {
                        let ghost tset = strings_view(topics@).to_set();
                        proof {
                            assert(mid[wi].id == idv && mid[wi].state == ClientState::Connected);
                            assert(id_connected(mid, idv));
                        }
                        let ok = reg.unsubscribe_topics(client_id, &topics);
                        let ghost post = reg.sessions();
                        proof {
                            assert(ok);
                            assert forall|j: int|
                                0 <= j < pre.len() && pre[j].id == idv implies (
                            #[trigger] post[j]) == (ClientConnectionV {
                                last_seen: now,
                                message_count: bump(pre[j].message_count),
                                subscriptions: post[j].subscriptions,
                                ..pre[j]
                            }) && topic_set(post[j]) == topic_set(pre[wi]).difference(tset) && post[j].subscriptions.no_duplicates() by {
                                assert(mid[j] == touched_record(pre[j], now));
                                assert(mid[j].id == idv);
                                assert(topic_set(mid[j]) == topic_set(pre[j]));
                                if j != wi {
                                    assert(pre[j].id == pre[wi].id);
                                    assert(false);
                                }
                            };
                            assert forall|j: int|
                                0 <= j < pre.len() && pre[j].id != idv implies #[trigger] post[j]
                                == pre[j] by {
                                assert(mid[j] == pre[j]);
                                assert(mid[j].id != idv);
                            };
                            assert(resubscribed(
                                pre,
                                post,
                                idv,
                                now,
                                topic_set(pre[wi]).difference(tset),
                            ));
                        }
                        let ack = String::from_str("✅ Unsubscribed from topics: ").concat(
                            join_topics(&topics).as_str(),
                        );
                        let mut out: Vec<Action> = Vec::new();
                        out.push(
                            Action::Send {
                                to: *client_id,
                                message: MessageType::Text { content: ack, timestamp: now },
                            },
                        );
                        proof {
                            assert(actions_view(out@) =~= seq![out@[0]@]);
                            assert(handle_case(
                                pre,
                                reg.sessions(),
                                actions_view(out@),
                                wi,
                                idv,
                                m,
                                now,
                                sname,
                                proto,
                            ));
                        }
                        out
                    },
                    _ => {
                        let mut out: Vec<Action> = Vec::new();
                        out.push(
                            Action::Send {
                                to: *client_id,
                                message: MessageType::Error {
                                    code: INVALID_MESSAGE,
                                    message: "Unsupported message type".to_owned(),
                                },
                            },
                        );
                        proof {
                            assert(actions_view(out@) =~= seq![out@[0]@]);
                            assert(handle_case(
                                pre,
                                reg.sessions(),
                                actions_view(out@),
                                wi,
                                idv,
                                m,
                                now,
                                sname,
                                proto,
                            ));
                        }
                        out
                    },
                }
            },
        }
    }
}

// ---------------------------------------------------------------------------
// Turning decisions into wire bytes.
// ---------------------------------------------------------------------------

/// One delivery the executor owes: the recipient session and the message
/// its fresh frame must carry.
pub struct ExpectedDeliveryV {
    pub id: u128,
    pub conn_handle: u64,
    pub message: MessageTypeV,
}

/// A message around which a fresh frame can be put on the wire: its fields
/// fit their length prefixes, whatever id the frame draws. A frame's
/// encoding is its 18 header bytes plus its message encoding.
pub open spec fn message_encodable(m: MessageTypeV) -> bool {
    crate::codec::wf_message_type(m) && 18 + crate::codec::enc_message_type(m).len() <= u32::MAX
}

/// The deliveries one action owes: a `Send` reaches the named session when
/// it is present, a `Fanout` every `Connected` session — when the message
/// can be framed at all, else nothing.
pub open spec fn expected_of_action(ss: Seq<ClientConnectionV>, a: ActionV) -> Seq<
    ExpectedDeliveryV,
> {
    match a {
        ActionV::Send { to, message } => if message_encodable(message) {
            connected_with_id(ss, to).map_values(
                |c: ClientConnectionV|
                    ExpectedDeliveryV { id: to, conn_handle: c.conn_handle, message },
            )
        } else {
            Seq::empty()
        },
        ActionV::Reply { to, message } => if message_encodable(message) {
            sessions_with_id(ss, to).map_values(
                |c: ClientConnectionV|
                    ExpectedDeliveryV { id: to, conn_handle: c.conn_handle, message },
            )
        } else {
            Seq::empty()
        },
        ActionV::Fanout { message } => if message_encodable(message) {
            connected_targets(ss).map_values(
                |c: ClientConnectionV|
                    ExpectedDeliveryV { id: c.id, conn_handle: c.conn_handle, message },
            )
        } else {
            Seq::empty()
        },
    }
}

/// The deliveries a list of actions owes, in action order.
pub open spec fn expected_deliveries(ss: Seq<ClientConnectionV>, avs: Seq<ActionV>) -> Seq<
    ExpectedDeliveryV,
>
    decreases avs.len(),
{
    if avs.len() == 0 {
        Seq::empty()
    } else {
        expected_of_action(ss, avs[0]) + expected_deliveries(ss, avs.drop_first())
    }
}

proof fn lemma_expected_take_snoc(ss: Seq<ClientConnectionV>, avs: Seq<ActionV>, p: int)
    requires
        0 <= p < avs.len(),
    ensures
        expected_deliveries(ss, avs.take(p + 1)) == expected_deliveries(ss, avs.take(p))
            + expected_of_action(ss, avs[p]),
    decreases p,
{
    if p == 0 {
        assert(avs.take(1).len() == 1);
        assert(avs.take(1)[0] == avs[0]);
        assert(avs.take(1).drop_first() =~= Seq::<ActionV>::empty());
        assert(avs.take(0) =~= Seq::<ActionV>::empty());
        assert(expected_deliveries(ss, Seq::<ActionV>::empty()) =~= Seq::<
            ExpectedDeliveryV,
        >::empty());
        assert(expected_deliveries(ss, avs.take(1)) =~= Seq::<ExpectedDeliveryV>::empty()
            + expected_of_action(ss, avs[0]));
    } else {
        lemma_expected_take_snoc(ss, avs.drop_first(), p - 1);
        assert(avs.take(p + 1).drop_first() =~= avs.drop_first().take(p));
        assert(avs.take(p).drop_first() =~= avs.drop_first().take(p - 1));
        assert(avs.take(p + 1)[0] == avs[0]);
        assert(avs.take(p)[0] == avs[0]);
        assert(avs.drop_first()[p - 1] == avs[p]);
        assert(expected_deliveries(ss, avs.take(p + 1)) == expected_of_action(ss, avs[0])
            + expected_deliveries(ss, avs.drop_first().take(p)));
        assert(expected_of_action(ss, avs[0]) + (expected_deliveries(
            ss,
            avs.drop_first().take(p - 1),
        ) + expected_of_action(ss, avs[p])) =~= (expected_of_action(ss, avs[0])
            + expected_deliveries(ss, avs.drop_first().take(p - 1))) + expected_of_action(
            ss,
            avs[p],
        ));
    }
}

/// The outbound message carries a fresh default-priority frame around `m`.
pub open spec fn delivers(o: OutboundMessage, m: MessageTypeV) -> bool {
    exists|f: MessageFrameV|
        o.bytes@ == wire_bytes(f) && f.message_type == m && f.priority == DEFAULT_PRIORITY
            && !f.require_ack
}

/// Turn the handler's decisions into outbound wire bytes: each `Send` goes
/// to its session if present, each `Fanout` to every connected session and
/// the bus. The result is exactly the owed delivery list, in action order:
/// one message per owed recipient, addressed to its session and handle,
/// carrying a fresh default-priority frame around the decided message.
#[verifier::rlimit(100)]
pub fn execute_actions(reg: &ClientManager, actions: Vec<Action>) -> (r: Vec<OutboundMessage>)
    requires
        reg.wf(),
    ensures
        r@.len() == expected_deliveries(reg.sessions(), actions_view(actions@)).len(),
        forall|k: int|
            0 <= k < r@.len() ==> {
                let e = expected_deliveries(reg.sessions(), actions_view(actions@))[k];
                (#[trigger] r@[k]).to.value == e.id && r@[k].conn_handle == e.conn_handle
                    && delivers(r@[k], e.message)
            },
{
    let ghost ss = reg.sessions();
    let ghost avs0 = actions_view(actions@);
    let mut rest = actions;
    let mut out: Vec<OutboundMessage> = Vec::new();
    let ghost mut p: int = 0;
    proof {
        assert(avs0.skip(0) =~= avs0);
        assert(avs0.take(0) =~= Seq::<ActionV>::empty());
        assert(expected_deliveries(ss, avs0.take(0)) =~= Seq::<ExpectedDeliveryV>::empty());
    }
    while rest.len() != 0
        invariant
            reg.wf(),
            ss == reg.sessions(),
            avs0 == actions_view(actions@),
            0 <= p <= avs0.len(),
            actions_view(rest@) == avs0.skip(p),
            out@.len() == expected_deliveries(ss, avs0.take(p)).len(),
            forall|k: int|
                0 <= k < out@.len() ==> {
                    let e = expected_deliveries(ss, avs0.take(p))[k];
                    (#[trigger] out@[k]).to.value == e.id && out@[k].conn_handle == e.conn_handle
                        && delivers(out@[k], e.message)
                },
        decreases avs0.len() - p,
    {
        let ghost restv = actions_view(rest@);
        let ghost rold = rest@;
        let a = rest.remove(0);
        proof {
            assert(a == rold[0]);
            assert(restv[0] == rold[0]@);
            assert(a@ == restv[0]);
            assert(restv == avs0.skip(p));
            assert(rold.len() > 0);
            assert(restv.len() == rold.len());
            assert(avs0.skip(p).len() == avs0.len() - p);
            assert(p < avs0.len());
            assert(avs0.skip(p)[0] == avs0[p]);
            assert(restv[0] == avs0[p]);
            assert forall|q: int| 0 <= q < rest@.len() implies actions_view(rest@)[q] == avs0.skip(
                p + 1,
            )[q] by {
                assert(actions_view(rest@)[q] == rest@[q]@);
                assert(rest@[q] == rold[q + 1]);
                assert(restv[q + 1] == rold[q + 1]@);
                assert(restv[q + 1] == avs0.skip(p)[q + 1]);
                assert(avs0.skip(p)[q + 1] == avs0[p + 1 + q]);
                assert(avs0.skip(p + 1)[q] == avs0[p + 1 + q]);
            };
            assert(actions_view(rest@) =~= avs0.skip(p + 1));
            lemma_expected_take_snoc(ss, avs0, p);
        }
        let ghost outpre = out@;
        match a {
            Action::Send { to, message } => {
                let ghost mv = message@;
                let frame = MessageFrame::new(message);
                match reg.send_to_client(&to, &frame) {
                    Some(o) => {
                        proof {
                            let fv = frame@;
                            assert(crate::codec::enc_frame(fv).len() == 18
                                + crate::codec::enc_message_type(mv).len());
                            assert(message_encodable(mv));
                            let i = choose|i: int|
                                0 <= i < ss.len() && ss[i].id == to.value && ss[i].state
                                    == ClientState::Connected && o.conn_handle == ss[i].conn_handle;
                            crate::client::lemma_connected_with_id_singleton(ss, to.value, i);
                            assert(connected_with_id(ss, to.value) == seq![ss[i]]);
                            assert(expected_of_action(ss, avs0[p]) =~= seq![
                                ExpectedDeliveryV {
                                    id: to.value,
                                    conn_handle: ss[i].conn_handle,
                                    message: mv,
                                },
                            ]);
                            assert(o.bytes@ == wire_bytes(fv) && fv.message_type == mv
                                && fv.priority == DEFAULT_PRIORITY && !fv.require_ack);
                            assert(delivers(o, mv));
                        }
                        out.push(o);
                    },
                    None => {
                        proof {
                            let fv = frame@;
                            assert(crate::codec::enc_frame(fv).len() == 18
                                + crate::codec::enc_message_type(mv).len());
                            if crate::codec::wf_frame(fv) && crate::codec::enc_frame(fv).len()
                                <= u32::MAX {
                                assert(!id_connected(ss, to.value));
                                crate::client::lemma_connected_with_id_empty(ss, to.value);
                                assert(expected_of_action(ss, avs0[p]) =~= Seq::<
                                    ExpectedDeliveryV,
                                >::empty());
                            } else {
                                assert(!message_encodable(mv));
                                assert(expected_of_action(ss, avs0[p]) =~= Seq::<
                                    ExpectedDeliveryV,
                                >::empty());
                            }
                        }
                    },
                }
            },
            Action::Reply { to, message } => {
                let ghost mv = message@;
                let frame = MessageFrame::new(message);
                match reg.reply_to_client(&to, &frame) {
                    Some(o) => {
                        proof {
                            let fv = frame@;
                            assert(crate::codec::enc_frame(fv).len() == 18
                                + crate::codec::enc_message_type(mv).len());
                            assert(message_encodable(mv));
                            let i = choose|i: int|
                                0 <= i < ss.len() && ss[i].id == to.value && o.conn_handle == ss[i].conn_handle;
                            crate::client::lemma_sessions_with_id_singleton(ss, to.value, i);
                            assert(sessions_with_id(ss, to.value) == seq![ss[i]]);
                            assert(expected_of_action(ss, avs0[p]) =~= seq![
                                ExpectedDeliveryV {
                                    id: to.value,
                                    conn_handle: ss[i].conn_handle,
                                    message: mv,
                                },
                            ]);
                            assert(o.bytes@ == wire_bytes(fv) && fv.message_type == mv
                                && fv.priority == DEFAULT_PRIORITY && !fv.require_ack);
                            assert(delivers(o, mv));
                        }
                        out.push(o);
                    },
                    None => {
                        proof {
                            let fv = frame@;
                            assert(crate::codec::enc_frame(fv).len() == 18
                                + crate::codec::enc_message_type(mv).len());
                            if crate::codec::wf_frame(fv) && crate::codec::enc_frame(fv).len()
                                <= u32::MAX {
                                assert(!reg.has_id(to.value));
                                crate::client::lemma_sessions_with_id_empty(ss, to.value);
                                assert(expected_of_action(ss, avs0[p]) =~= Seq::<
                                    ExpectedDeliveryV,
                                >::empty());
                            } else {
                                assert(!message_encodable(mv));
                                assert(expected_of_action(ss, avs0[p]) =~= Seq::<
                                    ExpectedDeliveryV,
                                >::empty());
                            }
                        }
                    },
                }
            },
            Action::Fanout { message } => {
                let ghost mv = message@;
                let frame = MessageFrame::new(message);
                let mut v = reg.broadcast_message(&frame);
                let ghost vv = v@;
                proof {
                    let fv = frame@;
                    assert(crate::codec::enc_frame(fv).len() == 18 + crate::codec::enc_message_type(
                        mv,
                    ).len());
                    if crate::codec::wf_frame(fv) && crate::codec::enc_frame(fv).len()
                        <= u32::MAX {
                        assert(message_encodable(mv));
                        let targets = connected_targets(ss);
                        let mapped = targets.map_values(
                            |c: ClientConnectionV|
                                ExpectedDeliveryV { id: c.id, conn_handle: c.conn_handle, message: mv },
                        );
                        assert(expected_of_action(ss, avs0[p]) == mapped);
                        assert(vv.len() == mapped.len());
                        assert forall|k: int| 0 <= k < vv.len() implies (#[trigger] vv[k]).to.value
                            == mapped[k].id && vv[k].conn_handle == mapped[k].conn_handle
                            && delivers(vv[k], mapped[k].message) by {
                            assert(mapped[k] == ExpectedDeliveryV {
                                id: targets[k].id,
                                conn_handle: targets[k].conn_handle,
                                message: mv,
                            });
                            assert(vv[k].bytes@ == wire_bytes(fv) && fv.message_type == mv
                                && fv.priority == DEFAULT_PRIORITY && !fv.require_ack);
                            assert(delivers(vv[k], mv));
                        };
                    } else {
                        assert(!message_encodable(mv));
                        assert(vv.len() == 0);
                        assert(expected_of_action(ss, avs0[p]) =~= Seq::<
                            ExpectedDeliveryV,
                        >::empty());
                    }
                }
                out.append(&mut v);
                proof {
                    assert(out@ == outpre + vv);
                }
            },
        }
        proof {
            let owed = expected_deliveries(ss, avs0.take(p + 1));
            assert(owed == expected_deliveries(ss, avs0.take(p)) + expected_of_action(
                ss,
                avs0[p],
            ));
            assert forall|k: int|
                0 <= k < out@.len() implies {
                let e = owed[k];
                (#[trigger] out@[k]).to.value == e.id && out@[k].conn_handle == e.conn_handle
                    && delivers(out@[k], e.message)
            } by {
                if k < outpre.len() {
                    assert(out@[k] == outpre[k]);
                    assert(owed[k] == expected_deliveries(ss, avs0.take(p))[k]);
                } else {
                    assert(owed[k] == expected_of_action(ss, avs0[p])[k - outpre.len()]);
                }
            };
            p = p + 1;
        }
    }
    proof {
        assert(actions_view(rest@).len() == 0);
        assert(avs0.skip(p).len() == 0);
        assert(p == avs0.len());
        assert(avs0.take(p) =~= avs0);
    }
    out
}

/// The topic of the round-robin notification for a pick.
pub open spec fn spec_notification_topic(k: nat) -> Seq<char> {
    if k == 0 {
        "system"@
    } else if k == 1 {
        "tips"@
    } else if k == 2 {
        "tech"@
    } else if k == 3 {
        "security"@
    } else if k == 4 {
        "performance"@
    } else {
        "news"@
    }
}

/// The text of the round-robin notification for a pick.
pub open spec fn spec_notification_text(k: nat) -> Seq<char> {
    if k == 0 {
        "📢 Welcome to QUIC WebSocket Server!"@
    } else if k == 1 {
        "⚡ Enjoying the low-latency experience?"@
    } else if k == 2 {
        "🚀 QUIC protocol provides 0-RTT connection establishment"@
    } else if k == 3 {
        "🔒 All connections are secured with TLS 1.3"@
    } else if k == 4 {
        "🌐 Multiplexed streams for better performance"@
    } else {
        "📰 Server is running smoothly with active connections"@
    }
}

/// The notification the round-robin push engine sends at a pick: the
/// engine walks a fixed list of six topic/text pairs.
pub fn notification_for(index: u64) -> (r: (String, String))
    ensures
        r.0@ == spec_notification_topic((index % 6) as nat),
        r.1@ == spec_notification_text((index % 6) as nat),
{
    let k = index % 6;
    if k == 0 {
        ("system".to_owned(), "📢 Welcome to QUIC WebSocket Server!".to_owned())
    } else if k == 1 {
        ("tips".to_owned(), "⚡ Enjoying the low-latency experience?".to_owned())
    } else if k == 2 {
        ("tech".to_owned(), "🚀 QUIC protocol provides 0-RTT connection establishment".to_owned())
    } else if k == 3 {
        ("security".to_owned(), "🔒 All connections are secured with TLS 1.3".to_owned())
    } else if k == 4 {
        ("performance".to_owned(), "🌐 Multiplexed streams for better performance".to_owned())
    } else {
        ("news".to_owned(), "📰 Server is running smoothly with active connections".to_owned())
    }
}

/// The periodic status text: the server's name and its connection count.
pub fn server_status_text(name: &str, n: u64) -> (r: String)
    ensures
        r@ == "🔔 Server Status: "@ + name@ + " - "@ + spec_decimal(n as nat)
            + " active connections"@,
{
    String::from_str("🔔 Server Status: ").concat(name).concat(" - ").concat(
        u64_to_string(n).as_str(),
    ).concat(" active connections")
}

/// Whether a native stream's length prefix is acceptable: at most 1 MiB.
pub fn accept_message_length(len: u32) -> (r: bool)
    ensures
        r == (len <= crate::DEFAULT_MAX_MESSAGE_SIZE),
{
    len <= crate::DEFAULT_MAX_MESSAGE_SIZE
}

impl MessageHandler {
    /// Handle the payload of one intake stream: decode it and dispatch.
    /// A payload that does not decode is dropped and leaves the registry
    /// unchanged.
    pub fn handle_stream_payload(
        &self,
        reg: &mut ClientManager,
        client_id: &ClientId,
        data: &[u8],
        now: u64,
    ) -> (r: Vec<Action>)
        requires
            old(reg).wf(),
        ensures
            final(reg).wf(),
            final(reg).capacity() == old(reg).capacity(),
            match spec_from_bytes(data@) {
                Some(fv) => handle_post(
                    old(reg).sessions(),
                    final(reg).sessions(),
                    actions_view(r@),
                    client_id.value,
                    fv.message_type,
                    now,
                    self.server_name@,
                    self.protocol_version@,
                ),
                None => final(reg).sessions() == old(reg).sessions() && r@.len() == 0,
            },
    {
        match MessageFrame::from_bytes(data) {
            Some(frame) => self.handle_message(reg, client_id, frame, now),
            None => {
                let out: Vec<Action> = Vec::new();
                out
            },
        }
    }
}

} // verus!
