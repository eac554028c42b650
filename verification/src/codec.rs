//! The native binary codec: a deterministic, self-describing tagged-union
//! encoding of [`MessageFrame`]. Every frame starts with its 128-bit id,
//! the priority byte and the acknowledgement flag, followed by a one-byte
//! type tag and the variant's fields. Variable-length fields carry a
//! big-endian `u32` byte count; strings travel as UTF-8.

use vstd::prelude::*;
use vstd::utf8::{valid_utf8, decode_utf8, encode_utf8};
use crate::bytes_be::{
    u16_be_bytes, u32_be_bytes, u64_be_bytes, u128_be_bytes, seq_u16_be, seq_u32_be, seq_u64_be,
    seq_u128_be, push_u16_be, push_u32_be, push_u64_be, push_u128_be, read_u16_be, read_u32_be,
    read_u64_be, read_u128_be, lemma_u16_be_round_trip, lemma_u32_be_round_trip,
    lemma_u64_be_round_trip, lemma_u128_be_round_trip,
};
use crate::message::{
    ClientId, ClientInfo, ClientInfoV, MessageFrame, MessageFrameV, MessageType, MessageTypeV,
    client_infos_view, strings_view, opt_string_view,
};

verus! {

pub const TAG_HANDSHAKE: u8 = 0;

pub const TAG_HANDSHAKE_RESPONSE: u8 = 1;

pub const TAG_TEXT: u8 = 2;

pub const TAG_BINARY: u8 = 3;

pub const TAG_BROADCAST: u8 = 4;

pub const TAG_DIRECT_MESSAGE: u8 = 5;

pub const TAG_PING: u8 = 6;

pub const TAG_PONG: u8 = 7;

pub const TAG_LIST_CLIENTS: u8 = 8;

pub const TAG_CLIENT_LIST: u8 = 9;

pub const TAG_CLOSE: u8 = 10;

pub const TAG_ERROR: u8 = 11;

pub const TAG_SUBSCRIBE: u8 = 12;

pub const TAG_UNSUBSCRIBE: u8 = 13;

pub const TAG_SERVER_PUSH: u8 = 14;

// ---------------------------------------------------------------------------
// Well-formedness: every variable-length field must fit its u32 byte count.
// ---------------------------------------------------------------------------

/// A byte field fits its length prefix.
pub open spec fn wf_bytes(b: Seq<u8>) -> bool {
    b.len() <= u32::MAX
}

/// A string's UTF-8 encoding fits its length prefix.
pub open spec fn wf_string(s: Seq<char>) -> bool {
    wf_bytes(encode_utf8(s))
}

/// An optional string is well-formed when present.
pub open spec fn wf_opt_string(s: Option<Seq<char>>) -> bool {
    match s {
        Some(x) => wf_string(x),
        None => true,
    }
}

/// A client info record is well-formed.
pub open spec fn wf_client_info(c: ClientInfoV) -> bool {
    wf_opt_string(c.name)
}

/// A message union value is well-formed: every field fits the encoding.
pub open spec fn wf_message_type(m: MessageTypeV) -> bool {
    match m {
        MessageTypeV::Handshake { client_name, protocol_version } => wf_opt_string(client_name)
            && wf_string(protocol_version),
        MessageTypeV::HandshakeResponse { client_id, server_name, accepted, reason } => wf_string(
            server_name,
        ) && wf_opt_string(reason),
        MessageTypeV::Text { content, timestamp } => wf_string(content),
        MessageTypeV::Binary { data, timestamp } => wf_bytes(data),
        MessageTypeV::Broadcast { from, content, timestamp } => wf_string(content),
        MessageTypeV::DirectMessage { from, to, content, timestamp } => wf_string(content),
        MessageTypeV::Ping { timestamp } => true,
        MessageTypeV::Pong { timestamp } => true,
        MessageTypeV::ListClients => true,
        MessageTypeV::ClientList { clients } => clients.len() <= u32::MAX && (forall|i: int|
            0 <= i < clients.len() ==> wf_client_info(#[trigger] clients[i])),
        MessageTypeV::Close { code, reason } => wf_string(reason),
        MessageTypeV::Error { code, message } => wf_string(message),
        MessageTypeV::Subscribe { topics } => topics.len() <= u32::MAX && (forall|i: int|
            0 <= i < topics.len() ==> wf_string(#[trigger] topics[i])),
        MessageTypeV::Unsubscribe { topics } => topics.len() <= u32::MAX && (forall|i: int|
            0 <= i < topics.len() ==> wf_string(#[trigger] topics[i])),
        MessageTypeV::ServerPush { topic, content, timestamp } => wf_string(topic) && wf_string(
            content,
        ),
    }
}

/// A frame is well-formed: its message is.
pub open spec fn wf_frame(f: MessageFrameV) -> bool {
    wf_message_type(f.message_type)
}

// ---------------------------------------------------------------------------
// Spec encoders.
// ---------------------------------------------------------------------------

/// Length-prefixed bytes: big-endian `u32` count, then the bytes.
pub open spec fn enc_bytes(b: Seq<u8>) -> Seq<u8> {
    u32_be_bytes(b.len() as u32) + b
}

/// A string: its UTF-8 bytes, length-prefixed.
pub open spec fn enc_string(s: Seq<char>) -> Seq<u8> {
    enc_bytes(encode_utf8(s))
}

/// A boolean: one byte, 0 or 1.
pub open spec fn enc_bool(b: bool) -> Seq<u8> {
    seq![if b { 1u8 } else { 0u8 }]
}

/// An optional string: a presence byte, then the string if present.
pub open spec fn enc_opt_string(s: Option<Seq<char>>) -> Seq<u8> {
    match s {
        None => seq![0u8],
        Some(x) => seq![1u8] + enc_string(x),
    }
}

/// One client info record.
pub open spec fn enc_client_info(c: ClientInfoV) -> Seq<u8> {
    u128_be_bytes(c.id) + enc_opt_string(c.name) + u64_be_bytes(c.connected_at) + u64_be_bytes(
        c.last_seen,
    )
}

/// The concatenated encodings of a list of client info records.
pub open spec fn enc_client_info_items(cs: Seq<ClientInfoV>) -> Seq<u8>
    decreases cs.len(),
{
    if cs.len() == 0 {
        Seq::empty()
    } else {
        enc_client_info(cs[0]) + enc_client_info_items(cs.drop_first())
    }
}

/// A client list: a big-endian `u32` count, then the records.
pub open spec fn enc_client_list(cs: Seq<ClientInfoV>) -> Seq<u8> {
    u32_be_bytes(cs.len() as u32) + enc_client_info_items(cs)
}

/// The concatenated encodings of a list of strings.
pub open spec fn enc_string_items(ts: Seq<Seq<char>>) -> Seq<u8>
    decreases ts.len(),
{
    if ts.len() == 0 {
        Seq::empty()
    } else {
        enc_string(ts[0]) + enc_string_items(ts.drop_first())
    }
}

/// A string list: a big-endian `u32` count, then the strings.
pub open spec fn enc_string_list(ts: Seq<Seq<char>>) -> Seq<u8> {
    u32_be_bytes(ts.len() as u32) + enc_string_items(ts)
}

/// A message union value: its tag byte, then its fields.
pub open spec fn enc_message_type(m: MessageTypeV) -> Seq<u8> {
    match m {
        MessageTypeV::Handshake { client_name, protocol_version } => seq![TAG_HANDSHAKE]
            + enc_opt_string(client_name) + enc_string(protocol_version),
        MessageTypeV::HandshakeResponse { client_id, server_name, accepted, reason } => seq![
            TAG_HANDSHAKE_RESPONSE,
        ] + u128_be_bytes(client_id) + enc_string(server_name) + enc_bool(accepted)
            + enc_opt_string(reason),
        MessageTypeV::Text { content, timestamp } => seq![TAG_TEXT] + enc_string(content)
            + u64_be_bytes(timestamp),
        MessageTypeV::Binary { data, timestamp } => seq![TAG_BINARY] + enc_bytes(data)
            + u64_be_bytes(timestamp),
        MessageTypeV::Broadcast { from, content, timestamp } => seq![TAG_BROADCAST]
            + u128_be_bytes(from) + enc_string(content) + u64_be_bytes(timestamp),
        MessageTypeV::DirectMessage { from, to, content, timestamp } => seq![TAG_DIRECT_MESSAGE]
            + u128_be_bytes(from) + u128_be_bytes(to) + enc_string(content) + u64_be_bytes(
            timestamp,
        ),
        MessageTypeV::Ping { timestamp } => seq![TAG_PING] + u64_be_bytes(timestamp),
        MessageTypeV::Pong { timestamp } => seq![TAG_PONG] + u64_be_bytes(timestamp),
        MessageTypeV::ListClients => seq![TAG_LIST_CLIENTS],
        MessageTypeV::ClientList { clients } => seq![TAG_CLIENT_LIST] + enc_client_list(clients),
        MessageTypeV::Close { code, reason } => seq![TAG_CLOSE] + u16_be_bytes(code) + enc_string(
            reason,
        ),
        MessageTypeV::Error { code, message } => seq![TAG_ERROR] + u16_be_bytes(code) + enc_string(
            message,
        ),
        MessageTypeV::Subscribe { topics } => seq![TAG_SUBSCRIBE] + enc_string_list(topics),
        MessageTypeV::Unsubscribe { topics } => seq![TAG_UNSUBSCRIBE] + enc_string_list(topics),
        MessageTypeV::ServerPush { topic, content, timestamp } => seq![TAG_SERVER_PUSH]
            + enc_string(topic) + enc_string(content) + u64_be_bytes(timestamp),
    }
}

/// A whole frame: id, priority, acknowledgement flag, then the message.
pub open spec fn enc_frame(f: MessageFrameV) -> Seq<u8> {
    u128_be_bytes(f.id) + seq![f.priority] + enc_bool(f.require_ack) + enc_message_type(
        f.message_type,
    )
}

// ---------------------------------------------------------------------------
// Exec well-formedness checks.
// ---------------------------------------------------------------------------

fn str_wf(s: &str) -> (r: bool)
    ensures
        r == wf_string(s@),
{
    s.as_bytes().len() <= u32::MAX as usize
}

fn opt_string_wf(s: &Option<String>) -> (r: bool)
    ensures
        r == wf_opt_string(opt_string_view(*s)),
{
    match s {
        Some(x) => str_wf(x.as_str()),
        None => true,
    }
}

fn client_infos_wf(cs: &Vec<ClientInfo>) -> (r: bool)
    ensures
        r == (cs@.len() <= u32::MAX && (forall|i: int|
            0 <= i < cs@.len() ==> wf_client_info(#[trigger] client_infos_view(cs@)[i]))),
{
    if cs.len() > u32::MAX as usize {
        return false;
    }
    let mut i: usize = 0;
    while i < cs.len()
        invariant
            i <= cs@.len(),
            cs@.len() <= u32::MAX,
            forall|j: int| 0 <= j < i ==> wf_client_info(#[trigger] client_infos_view(cs@)[j]),
        decreases cs@.len() - i,
    {
        if !opt_string_wf(&cs[i].name) {
            assert(!wf_client_info(client_infos_view(cs@)[i as int]));
            return false;
        }
        assert(wf_client_info(client_infos_view(cs@)[i as int]));
        i += 1;
    }
    true
}

fn strings_wf(ts: &Vec<String>) -> (r: bool)
    ensures
        r == (ts@.len() <= u32::MAX && (forall|i: int|
            0 <= i < ts@.len() ==> wf_string(#[trigger] strings_view(ts@)[i]))),
{
    if ts.len() > u32::MAX as usize {
        return false;
    }
    let mut i: usize = 0;
    while i < ts.len()
        invariant
            i <= ts@.len(),
            ts@.len() <= u32::MAX,
            forall|j: int| 0 <= j < i ==> wf_string(#[trigger] strings_view(ts@)[j]),
        decreases ts@.len() - i,
    {
        if !str_wf(ts[i].as_str()) {
            assert(!wf_string(strings_view(ts@)[i as int]));
            return false;
        }
        assert(wf_string(strings_view(ts@)[i as int]));
        i += 1;
    }
    true
}

fn message_type_wf(m: &MessageType) -> (r: bool)
    ensures
        r == wf_message_type(m@),
{
    match m {
        MessageType::Handshake { client_name, protocol_version } => opt_string_wf(client_name)
            && str_wf(protocol_version.as_str()),
        MessageType::HandshakeResponse { client_id, server_name, accepted, reason } => str_wf(
            server_name.as_str(),
        ) && opt_string_wf(reason),
        MessageType::Text { content, timestamp } => str_wf(content.as_str()),
        MessageType::Binary { data, timestamp } => data.len() <= u32::MAX as usize,
        MessageType::Broadcast { from, content, timestamp } => str_wf(content.as_str()),
        MessageType::DirectMessage { from, to, content, timestamp } => str_wf(content.as_str()),
        MessageType::Ping { timestamp } => true,
        MessageType::Pong { timestamp } => true,
        MessageType::ListClients => true,
        MessageType::ClientList { clients } => client_infos_wf(clients),
        MessageType::Close { code, reason } => str_wf(reason.as_str()),
        MessageType::Error { code, message } => str_wf(message.as_str()),
        MessageType::Subscribe { topics } => strings_wf(topics),
        MessageType::Unsubscribe { topics } => strings_wf(topics),
        MessageType::ServerPush { topic, content, timestamp } => str_wf(topic.as_str()) && str_wf(
            content.as_str(),
        ),
    }
}

// ---------------------------------------------------------------------------
// Exec encoder.
// ---------------------------------------------------------------------------

fn push_byte_slice(out: &mut Vec<u8>, b: &[u8])
    requires
        wf_bytes(b@),
    ensures
        final(out)@ == old(out)@ + enc_bytes(b@),
{
    push_u32_be(out, b.len() as u32);
    out.extend_from_slice(b);
    assert(out@ =~= old(out)@ + enc_bytes(b@));
}

fn push_string(out: &mut Vec<u8>, s: &str)
    requires
        wf_string(s@),
    ensures
        final(out)@ == old(out)@ + enc_string(s@),
{
    push_byte_slice(out, s.as_bytes());
}

fn push_bool(out: &mut Vec<u8>, b: bool)
    ensures
        final(out)@ == old(out)@ + enc_bool(b),
{
    out.push(if b { 1u8 } else { 0u8 });
    assert(out@ =~= old(out)@ + enc_bool(b));
}

fn push_opt_string(out: &mut Vec<u8>, s: &Option<String>)
    requires
        wf_opt_string(opt_string_view(*s)),
    ensures
        final(out)@ == old(out)@ + enc_opt_string(opt_string_view(*s)),
{
    match s {
        None => {
            out.push(0u8);
            assert(out@ =~= old(out)@ + enc_opt_string(opt_string_view(*s)));
        },
        Some(x) => {
            out.push(1u8);
            push_string(out, x.as_str());
            assert(out@ =~= old(out)@ + enc_opt_string(opt_string_view(*s)));
        },
    }
}

fn push_client_info(out: &mut Vec<u8>, c: &ClientInfo)
    requires
        wf_client_info(c@),
    ensures
        final(out)@ == old(out)@ + enc_client_info(c@),
{
    push_u128_be(out, c.id.value);
    push_opt_string(out, &c.name);
    push_u64_be(out, c.connected_at);
    push_u64_be(out, c.last_seen);
    assert(out@ =~= old(out)@ + enc_client_info(c@));
}

proof fn lemma_enc_client_info_items_skip(cs: Seq<ClientInfoV>, i: int)
    requires
        0 <= i < cs.len(),
    ensures
        enc_client_info_items(cs.skip(i)) == enc_client_info(cs[i]) + enc_client_info_items(
            cs.skip(i + 1),
        ),
{
    assert(cs.skip(i).len() > 0);
    assert(cs.skip(i)[0] == cs[i]);
    assert(cs.skip(i).drop_first() =~= cs.skip(i + 1));
}

fn push_client_info_items(out: &mut Vec<u8>, cs: &Vec<ClientInfo>)
    requires
        forall|i: int| 0 <= i < cs@.len() ==> wf_client_info(#[trigger] client_infos_view(cs@)[i]),
    ensures
        final(out)@ == old(out)@ + enc_client_info_items(client_infos_view(cs@)),
{
    let ghost view = client_infos_view(cs@);
    let mut i: usize = 0;
    while i < cs.len()
        invariant
            i <= cs@.len(),
            view == client_infos_view(cs@),
            forall|j: int| 0 <= j < cs@.len() ==> wf_client_info(#[trigger] view[j]),
            out@ == old(out)@ + enc_client_info_items(view.take(i as int)),
        decreases cs@.len() - i,
    {
        proof {
            lemma_enc_client_info_items_take(view, i as int);
        }
        push_client_info(out, &cs[i]);
        assert(out@ =~= old(out)@ + enc_client_info_items(view.take(i as int + 1)));
        i += 1;
    }
    assert(view.take(cs@.len() as int) =~= view);
}

proof fn lemma_enc_client_info_items_take(cs: Seq<ClientInfoV>, i: int)
    requires
        0 <= i < cs.len(),
    ensures
        enc_client_info_items(cs.take(i + 1)) == enc_client_info_items(cs.take(i))
            + enc_client_info(cs[i]),
    decreases i,
{
    if i == 0 {
        assert(cs.take(1).len() == 1);
        assert(cs.take(1)[0] == cs[0]);
        assert(cs.take(1).drop_first() =~= Seq::<ClientInfoV>::empty());
        assert(cs.take(0) =~= Seq::<ClientInfoV>::empty());
        assert(enc_client_info_items(Seq::<ClientInfoV>::empty()) =~= Seq::<u8>::empty());
        assert(enc_client_info_items(cs.take(1)) == enc_client_info(cs.take(1)[0])
            + enc_client_info_items(cs.take(1).drop_first()));
        assert(enc_client_info_items(cs.take(1)) =~= enc_client_info(cs[0]));
    } else {
        lemma_enc_client_info_items_take(cs.drop_first(), i - 1);
        assert(cs.take(i + 1).drop_first() =~= cs.drop_first().take(i));
        assert(cs.take(i).drop_first() =~= cs.drop_first().take(i - 1));
        assert(cs.take(i + 1)[0] == cs[0]);
        assert(cs.take(i)[0] == cs[0]);
        assert(cs.drop_first()[i - 1] == cs[i]);
        assert(enc_client_info_items(cs.take(i + 1)) == enc_client_info(cs[0])
            + enc_client_info_items(cs.drop_first().take(i)));
        assert(enc_client_info(cs[0]) + (enc_client_info_items(cs.drop_first().take(i - 1))
            + enc_client_info(cs[i])) =~= (enc_client_info(cs[0]) + enc_client_info_items(
            cs.drop_first().take(i - 1),
        )) + enc_client_info(cs[i]));
    }
}

proof fn lemma_enc_string_items_take(ts: Seq<Seq<char>>, i: int)
    requires
        0 <= i < ts.len(),
    ensures
        enc_string_items(ts.take(i + 1)) == enc_string_items(ts.take(i)) + enc_string(ts[i]),
    decreases i,
{
    if i == 0 {
        assert(ts.take(1).len() == 1);
        assert(ts.take(1)[0] == ts[0]);
        assert(ts.take(1).drop_first() =~= Seq::<Seq<char>>::empty());
        assert(ts.take(0) =~= Seq::<Seq<char>>::empty());
        assert(enc_string_items(Seq::<Seq<char>>::empty()) =~= Seq::<u8>::empty());
        assert(enc_string_items(ts.take(1)) == enc_string(ts.take(1)[0])
            + enc_string_items(ts.take(1).drop_first()));
        assert(enc_string_items(ts.take(1)) =~= enc_string(ts[0]));
    } else {
        lemma_enc_string_items_take(ts.drop_first(), i - 1);
        assert(ts.take(i + 1).drop_first() =~= ts.drop_first().take(i));
        assert(ts.take(i).drop_first() =~= ts.drop_first().take(i - 1));
        assert(ts.take(i + 1)[0] == ts[0]);
        assert(ts.take(i)[0] == ts[0]);
        assert(ts.drop_first()[i - 1] == ts[i]);
        assert(enc_string_items(ts.take(i + 1)) == enc_string(ts[0]) + enc_string_items(
            ts.drop_first().take(i),
        ));
        assert(enc_string(ts[0]) + (enc_string_items(ts.drop_first().take(i - 1)) + enc_string(
            ts[i],
        )) =~= (enc_string(ts[0]) + enc_string_items(ts.drop_first().take(i - 1))) + enc_string(
            ts[i],
        ));
    }
}

fn push_string_items(out: &mut Vec<u8>, ts: &Vec<String>)
    requires
        forall|i: int| 0 <= i < ts@.len() ==> wf_string(#[trigger] strings_view(ts@)[i]),
    ensures
        final(out)@ == old(out)@ + enc_string_items(strings_view(ts@)),
{
    let ghost view = strings_view(ts@);
    let mut i: usize = 0;
    while i < ts.len()
        invariant
            i <= ts@.len(),
            view == strings_view(ts@),
            forall|j: int| 0 <= j < ts@.len() ==> wf_string(#[trigger] view[j]),
            out@ == old(out)@ + enc_string_items(view.take(i as int)),
        decreases ts@.len() - i,
    {
        proof {
            lemma_enc_string_items_take(view, i as int);
        }
        push_string(out, ts[i].as_str());
        assert(out@ =~= old(out)@ + enc_string_items(view.take(i as int + 1)));
        i += 1;
    }
    assert(view.take(ts@.len() as int) =~= view);
}

#[verifier::rlimit(60)]
fn push_message_type(out: &mut Vec<u8>, m: &MessageType)
    requires
        wf_message_type(m@),
    ensures
        final(out)@ == old(out)@ + enc_message_type(m@),
{
    match m {
        MessageType::Handshake { client_name, protocol_version } => {
            out.push(TAG_HANDSHAKE);
            push_opt_string(out, client_name);
            push_string(out, protocol_version.as_str());
            assert(out@ =~= old(out)@ + enc_message_type(m@));
        },
        MessageType::HandshakeResponse { client_id, server_name, accepted, reason } => {
            out.push(TAG_HANDSHAKE_RESPONSE);
            push_u128_be(out, client_id.value);
            push_string(out, server_name.as_str());
            push_bool(out, *accepted);
            push_opt_string(out, reason);
            assert(out@ =~= old(out)@ + enc_message_type(m@));
        },
        MessageType::Text { content, timestamp } => {
            out.push(TAG_TEXT);
            push_string(out, content.as_str());
            push_u64_be(out, *timestamp);
            assert(out@ =~= old(out)@ + enc_message_type(m@));
        },
        MessageType::Binary { data, timestamp } => {
            out.push(TAG_BINARY);
            push_byte_slice(out, data.as_slice());
            push_u64_be(out, *timestamp);
            assert(out@ =~= old(out)@ + enc_message_type(m@));
        },
        MessageType::Broadcast { from, content, timestamp } => {
            out.push(TAG_BROADCAST);
            push_u128_be(out, from.value);
            push_string(out, content.as_str());
            push_u64_be(out, *timestamp);
            assert(out@ =~= old(out)@ + enc_message_type(m@));
        },
        MessageType::DirectMessage { from, to, content, timestamp } => {
            out.push(TAG_DIRECT_MESSAGE);
            push_u128_be(out, from.value);
            push_u128_be(out, to.value);
            push_string(out, content.as_str());
            push_u64_be(out, *timestamp);
            assert(out@ =~= old(out)@ + enc_message_type(m@));
        },
        MessageType::Ping { timestamp } => {
            out.push(TAG_PING);
            push_u64_be(out, *timestamp);
            assert(out@ =~= old(out)@ + enc_message_type(m@));
        },
        MessageType::Pong { timestamp } => {
            out.push(TAG_PONG);
            push_u64_be(out, *timestamp);
            assert(out@ =~= old(out)@ + enc_message_type(m@));
        },
        MessageType::ListClients => {
            out.push(TAG_LIST_CLIENTS);
            assert(out@ =~= old(out)@ + enc_message_type(m@));
        },
        MessageType::ClientList { clients } => {
            out.push(TAG_CLIENT_LIST);
            push_u32_be(out, clients.len() as u32);
            push_client_info_items(out, clients);
            assert(out@ =~= old(out)@ + enc_message_type(m@));
        },
        MessageType::Close { code, reason } => {
            out.push(TAG_CLOSE);
            push_u16_be(out, *code);
            push_string(out, reason.as_str());
            assert(out@ =~= old(out)@ + enc_message_type(m@));
        },
        MessageType::Error { code, message } => {
            out.push(TAG_ERROR);
            push_u16_be(out, *code);
            push_string(out, message.as_str());
            assert(out@ =~= old(out)@ + enc_message_type(m@));
        },
        MessageType::Subscribe { topics } => {
            out.push(TAG_SUBSCRIBE);
            push_u32_be(out, topics.len() as u32);
            push_string_items(out, topics);
            assert(out@ =~= old(out)@ + enc_message_type(m@));
        },
        MessageType::Unsubscribe { topics } => {
            out.push(TAG_UNSUBSCRIBE);
            push_u32_be(out, topics.len() as u32);
            push_string_items(out, topics);
            assert(out@ =~= old(out)@ + enc_message_type(m@));
        },
        MessageType::ServerPush { topic, content, timestamp } => {
            out.push(TAG_SERVER_PUSH);
            push_string(out, topic.as_str());
            push_string(out, content.as_str());
            push_u64_be(out, *timestamp);
            assert(out@ =~= old(out)@ + enc_message_type(m@));
        },
    }
}

impl MessageFrame {
    /// Serialize the frame. Returns the canonical encoding exactly when the
    /// frame is well-formed (every field fits its length prefix), and
    /// nothing otherwise.
    pub fn to_bytes(&self) -> (r: Option<Vec<u8>>)
        ensures
            r is Some <==> wf_frame(self@),
            r matches Some(b) ==> b@ == enc_frame(self@),
    {
        if !message_type_wf(&self.message_type) {
            return None;
        }
        let mut out: Vec<u8> = Vec::new();
        push_u128_be(&mut out, self.id.value);
        out.push(self.priority);
        push_bool(&mut out, self.require_ack);
        push_message_type(&mut out, &self.message_type);
        assert(out@ =~= enc_frame(self@));
        Some(out)
    }
}

// ---------------------------------------------------------------------------
// Spec decoders. Each consumes from the front of the byte sequence and
// returns the decoded value with the number of bytes consumed, or nothing
// when the bytes are malformed or truncated.
// ---------------------------------------------------------------------------

pub open spec fn dec_u8(b: Seq<u8>) -> Option<(u8, int)> {
    if b.len() >= 1 {
        Some((b[0], 1))
    } else {
        None
    }
}

pub open spec fn dec_u16(b: Seq<u8>) -> Option<(u16, int)> {
    if b.len() >= 2 {
        Some((seq_u16_be(b), 2))
    } else {
        None
    }
}

pub open spec fn dec_u32(b: Seq<u8>) -> Option<(u32, int)> {
    if b.len() >= 4 {
        Some((seq_u32_be(b), 4))
    } else {
        None
    }
}

pub open spec fn dec_u64(b: Seq<u8>) -> Option<(u64, int)> {
    if b.len() >= 8 {
        Some((seq_u64_be(b), 8))
    } else {
        None
    }
}

pub open spec fn dec_u128(b: Seq<u8>) -> Option<(u128, int)> {
    if b.len() >= 16 {
        Some((seq_u128_be(b), 16))
    } else {
        None
    }
}

pub open spec fn dec_byte_field(b: Seq<u8>) -> Option<(Seq<u8>, int)> {
    if b.len() >= 4 {
        let n = seq_u32_be(b) as int;
        if b.len() >= 4 + n {
            Some((b.subrange(4, 4 + n), 4 + n))
        } else {
            None
        }
    } else {
        None
    }
}

pub open spec fn dec_string(b: Seq<u8>) -> Option<(Seq<char>, int)> {
    match dec_byte_field(b) {
        Some((bs, n)) => if valid_utf8(bs) {
            Some((decode_utf8(bs), n))
        } else {
            None
        },
        None => None,
    }
}

pub open spec fn dec_bool(b: Seq<u8>) -> Option<(bool, int)> {
    if b.len() >= 1 {
        if b[0] == 0 {
            Some((false, 1))
        } else if b[0] == 1 {
            Some((true, 1))
        } else {
            None
        }
    } else {
        None
    }
}

pub open spec fn dec_opt_string(b: Seq<u8>) -> Option<(Option<Seq<char>>, int)> {
    match dec_bool(b) {
        Some((present, n1)) => if !present {
            Some((None, 1))
        } else {
            match dec_string(b.skip(1)) {
                Some((s, n)) => Some((Some(s), 1 + n)),
                None => None,
            }
        },
        None => None,
    }
}

pub open spec fn dec_client_info(b: Seq<u8>) -> Option<(ClientInfoV, int)> {
    match dec_u128(b) {
        Some((id, n1)) => match dec_opt_string(b.skip(n1)) {
            Some((name, n2)) => match dec_u64(b.skip(n1 + n2)) {
                Some((connected_at, n3)) => match dec_u64(b.skip(n1 + n2 + n3)) {
                    Some((last_seen, n4)) => Some(
                        (ClientInfoV { id, name, connected_at, last_seen }, n1 + n2 + n3 + n4),
                    ),
                    None => None,
                },
                None => None,
            },
            None => None,
        },
        None => None,
    }
}

pub open spec fn dec_client_info_items(b: Seq<u8>, k: nat) -> Option<(Seq<ClientInfoV>, int)>
    decreases k,
{
    if k == 0 {
        Some((Seq::empty(), 0))
    } else {
        match dec_client_info(b) {
            Some((c, n)) => match dec_client_info_items(b.skip(n), (k - 1) as nat) {
                Some((cs, m)) => Some((seq![c] + cs, n + m)),
                None => None,
            },
            None => None,
        }
    }
}

pub open spec fn dec_client_list(b: Seq<u8>) -> Option<(Seq<ClientInfoV>, int)> {
    match dec_u32(b) {
        Some((k, n1)) => match dec_client_info_items(b.skip(4), k as nat) {
            Some((cs, m)) => Some((cs, 4 + m)),
            None => None,
        },
        None => None,
    }
}

pub open spec fn dec_string_items(b: Seq<u8>, k: nat) -> Option<(Seq<Seq<char>>, int)>
    decreases k,
{
    if k == 0 {
        Some((Seq::empty(), 0))
    } else {
        match dec_string(b) {
            Some((t, n)) => match dec_string_items(b.skip(n), (k - 1) as nat) {
                Some((ts, m)) => Some((seq![t] + ts, n + m)),
                None => None,
            },
            None => None,
        }
    }
}

pub open spec fn dec_string_list(b: Seq<u8>) -> Option<(Seq<Seq<char>>, int)> {
    match dec_u32(b) {
        Some((k, n1)) => match dec_string_items(b.skip(4), k as nat) {
            Some((ts, m)) => Some((ts, 4 + m)),
            None => None,
        },
        None => None,
    }
}

pub open spec fn dec_mt_handshake(r: Seq<u8>) -> Option<(MessageTypeV, int)> {
    match dec_opt_string(r) {
        Some((client_name, n1)) => match dec_string(r.skip(n1)) {
            Some((protocol_version, n2)) => Some(
                (MessageTypeV::Handshake { client_name, protocol_version }, 1 + n1 + n2),
            ),
            None => None,
        },
        None => None,
    }
}

pub open spec fn dec_mt_handshake_response(r: Seq<u8>) -> Option<(MessageTypeV, int)> {
    match dec_u128(r) {
        Some((client_id, n1)) => match dec_string(r.skip(n1)) {
            Some((server_name, n2)) => match dec_bool(r.skip(n1 + n2)) {
                Some((accepted, n3)) => match dec_opt_string(r.skip(n1 + n2 + n3)) {
                    Some((reason, n4)) => Some(
                        (
                            MessageTypeV::HandshakeResponse {
                                client_id,
                                server_name,
                                accepted,
                                reason,
                            },
                            1 + n1 + n2 + n3 + n4,
                        ),
                    ),
                    None => None,
                },
                None => None,
            },
            None => None,
        },
        None => None,
    }
}

pub open spec fn dec_mt_text(r: Seq<u8>) -> Option<(MessageTypeV, int)> {
    match dec_string(r) {
        Some((content, n1)) => match dec_u64(r.skip(n1)) {
            Some((timestamp, n2)) => Some((MessageTypeV::Text { content, timestamp }, 1 + n1 + n2)),
            None => None,
        },
        None => None,
    }
}

pub open spec fn dec_mt_binary(r: Seq<u8>) -> Option<(MessageTypeV, int)> {
    match dec_byte_field(r) {
        Some((data, n1)) => match dec_u64(r.skip(n1)) {
            Some((timestamp, n2)) => Some(
                (MessageTypeV::Binary { data, timestamp }, 1 + n1 + n2),
            ),
            None => None,
        },
        None => None,
    }
}

pub open spec fn dec_mt_broadcast(r: Seq<u8>) -> Option<(MessageTypeV, int)> {
    match dec_u128(r) {
        Some((from, n1)) => match dec_string(r.skip(n1)) {
            Some((content, n2)) => match dec_u64(r.skip(n1 + n2)) {
                Some((timestamp, n3)) => Some(
                    (MessageTypeV::Broadcast { from, content, timestamp }, 1 + n1 + n2 + n3),
                ),
                None => None,
            },
            None => None,
        },
        None => None,
    }
}

pub open spec fn dec_mt_direct_message(r: Seq<u8>) -> Option<(MessageTypeV, int)> {
    match dec_u128(r) {
        Some((from, n1)) => match dec_u128(r.skip(n1)) {
            Some((to, n2)) => match dec_string(r.skip(n1 + n2)) {
                Some((content, n3)) => match dec_u64(r.skip(n1 + n2 + n3)) {
                    Some((timestamp, n4)) => Some(
                        (
                            MessageTypeV::DirectMessage { from, to, content, timestamp },
                            1 + n1 + n2 + n3 + n4,
                        ),
                    ),
                    None => None,
                },
                None => None,
            },
            None => None,
        },
        None => None,
    }
}

pub open spec fn dec_mt_client_list(r: Seq<u8>) -> Option<(MessageTypeV, int)> {
    match dec_client_list(r) {
        Some((clients, n1)) => Some((MessageTypeV::ClientList { clients }, 1 + n1)),
        None => None,
    }
}

pub open spec fn dec_mt_close(r: Seq<u8>) -> Option<(MessageTypeV, int)> {
    match dec_u16(r) {
        Some((code, n1)) => match dec_string(r.skip(n1)) {
            Some((reason, n2)) => Some((MessageTypeV::Close { code, reason }, 1 + n1 + n2)),
            None => None,
        },
        None => None,
    }
}

pub open spec fn dec_mt_error(r: Seq<u8>) -> Option<(MessageTypeV, int)> {
    match dec_u16(r) {
        Some((code, n1)) => match dec_string(r.skip(n1)) {
            Some((message, n2)) => Some((MessageTypeV::Error { code, message }, 1 + n1 + n2)),
            None => None,
        },
        None => None,
    }
}

pub open spec fn dec_mt_server_push(r: Seq<u8>) -> Option<(MessageTypeV, int)> {
    match dec_string(r) {
        Some((topic, n1)) => match dec_string(r.skip(n1)) {
            Some((content, n2)) => match dec_u64(r.skip(n1 + n2)) {
                Some((timestamp, n3)) => Some(
                    (MessageTypeV::ServerPush { topic, content, timestamp }, 1 + n1 + n2 + n3),
                ),
                None => None,
            },
            None => None,
        },
        None => None,
    }
}

pub open spec fn dec_message_type(b: Seq<u8>) -> Option<(MessageTypeV, int)> {
    if b.len() < 1 {
        None
    } else {
        let tag = b[0];
        let r = b.skip(1);
        if tag == TAG_HANDSHAKE {
            dec_mt_handshake(r)
        } else if tag == TAG_HANDSHAKE_RESPONSE {
            dec_mt_handshake_response(r)
        } else if tag == TAG_TEXT {
            dec_mt_text(r)
        } else if tag == TAG_BINARY {
            dec_mt_binary(r)
        } else if tag == TAG_BROADCAST {
            dec_mt_broadcast(r)
        } else if tag == TAG_DIRECT_MESSAGE {
            dec_mt_direct_message(r)
        } else if tag == TAG_PING {
            match dec_u64(r) {
                Some((timestamp, n1)) => Some((MessageTypeV::Ping { timestamp }, 1 + n1)),
                None => None,
            }
        } else if tag == TAG_PONG {
            match dec_u64(r) {
                Some((timestamp, n1)) => Some((MessageTypeV::Pong { timestamp }, 1 + n1)),
                None => None,
            }
        } else if tag == TAG_LIST_CLIENTS {
            Some((MessageTypeV::ListClients, 1))
        } else if tag == TAG_CLIENT_LIST {
            dec_mt_client_list(r)
        } else if tag == TAG_CLOSE {
            dec_mt_close(r)
        } else if tag == TAG_ERROR {
            dec_mt_error(r)
        } else if tag == TAG_SUBSCRIBE {
            match dec_string_list(r) {
                Some((topics, n1)) => Some((MessageTypeV::Subscribe { topics }, 1 + n1)),
                None => None,
            }
        } else if tag == TAG_UNSUBSCRIBE {
            match dec_string_list(r) {
                Some((topics, n1)) => Some((MessageTypeV::Unsubscribe { topics }, 1 + n1)),
                None => None,
            }
        } else if tag == TAG_SERVER_PUSH {
            dec_mt_server_push(r)
        } else {
            None
        }
    }
}

pub open spec fn dec_frame(b: Seq<u8>) -> Option<(MessageFrameV, int)> {
    match dec_u128(b) {
        Some((id, n1)) => match dec_u8(b.skip(16)) {
            Some((priority, n2)) => match dec_bool(b.skip(17)) {
                Some((require_ack, n3)) => match dec_message_type(b.skip(18)) {
                    Some((message_type, n4)) => Some(
                        (MessageFrameV { id, message_type, priority, require_ack }, 18 + n4),
                    ),
                    None => None,
                },
                None => None,
            },
            None => None,
        },
        None => None,
    }
}

/// The decoded frame of a byte sequence: the frame whose encoding is
/// exactly `b`, if one exists.
pub open spec fn spec_from_bytes(b: Seq<u8>) -> Option<MessageFrameV> {
    match dec_frame(b) {
        Some((f, n)) => if n == b.len() {
            Some(f)
        } else {
            None
        },
        None => None,
    }
}

// ---------------------------------------------------------------------------
// Round trip: decoding an encoding, whatever follows it, yields the encoded
// value and consumes exactly the encoding.
// ---------------------------------------------------------------------------

proof fn lemma_skip_concat(a: Seq<u8>, b: Seq<u8>)
    ensures
        (a + b).skip(a.len() as int) == b,
{
    assert((a + b).skip(a.len() as int) =~= b);
}

proof fn lemma_skip_twice(b: Seq<u8>, x: int, y: int)
    requires
        0 <= x,
        0 <= y,
        x + y <= b.len(),
    ensures
        b.skip(x).skip(y) == b.skip(x + y),
{
    assert(b.skip(x).skip(y) =~= b.skip(x + y));
}

proof fn lemma_dec_u16_enc(x: u16, rest: Seq<u8>)
    ensures
        dec_u16(u16_be_bytes(x) + rest) == Some((x, 2int)),
{
    let b = u16_be_bytes(x) + rest;
    assert(forall|i: int| 0 <= i < 2 ==> b[i] == u16_be_bytes(x)[i]);
    lemma_u16_be_round_trip(x);
    assert(seq_u16_be(b) == x);
}

proof fn lemma_dec_u32_enc(x: u32, rest: Seq<u8>)
    ensures
        dec_u32(u32_be_bytes(x) + rest) == Some((x, 4int)),
{
    let b = u32_be_bytes(x) + rest;
    assert(forall|i: int| 0 <= i < 4 ==> b[i] == u32_be_bytes(x)[i]);
    lemma_u32_be_round_trip(x);
    assert(seq_u32_be(b) == x);
}

proof fn lemma_dec_u64_enc(x: u64, rest: Seq<u8>)
    ensures
        dec_u64(u64_be_bytes(x) + rest) == Some((x, 8int)),
{
    let b = u64_be_bytes(x) + rest;
    assert(forall|i: int| 0 <= i < 8 ==> b[i] == u64_be_bytes(x)[i]);
    lemma_u64_be_round_trip(x);
    assert(seq_u64_be(b) == x);
}

proof fn lemma_dec_u128_enc(x: u128, rest: Seq<u8>)
    ensures
        dec_u128(u128_be_bytes(x) + rest) == Some((x, 16int)),
{
    let e = u128_be_bytes(x);
    let b = e + rest;
    assert(e.len() == 16);
    assert(forall|i: int| 0 <= i < 16 ==> b[i] == e[i]);
    assert(forall|i: int| 0 <= i < 8 ==> b.skip(8)[i] == e.skip(8)[i]);
    lemma_u128_be_round_trip(x);
    assert(seq_u64_be(b) == seq_u64_be(e));
    assert(seq_u64_be(b.skip(8)) == seq_u64_be(e.skip(8)));
    assert(seq_u128_be(b) == x);
}

proof fn lemma_dec_byte_field_enc(bs: Seq<u8>, rest: Seq<u8>)
    requires
        wf_bytes(bs),
    ensures
        dec_byte_field(enc_bytes(bs) + rest) == Some((bs, enc_bytes(bs).len() as int)),
{
    let l = bs.len() as u32;
    let b = enc_bytes(bs) + rest;
    assert(b.len() == 4 + bs.len() + rest.len());
    assert(forall|i: int| 0 <= i < 4 ==> b[i] == u32_be_bytes(l)[i]);
    lemma_u32_be_round_trip(l);
    assert(seq_u32_be(b) == l);
    assert(l as int == bs.len());
    assert(b.subrange(4, 4 + bs.len() as int) =~= bs);
}

proof fn lemma_dec_string_enc(s: Seq<char>, rest: Seq<u8>)
    requires
        wf_string(s),
    ensures
        dec_string(enc_string(s) + rest) == Some((s, enc_string(s).len() as int)),
{
    vstd::utf8::encode_utf8_valid_utf8(s);
    vstd::utf8::encode_utf8_decode_utf8(s);
    lemma_dec_byte_field_enc(encode_utf8(s), rest);
}

proof fn lemma_dec_bool_enc(v: bool, rest: Seq<u8>)
    ensures
        dec_bool(enc_bool(v) + rest) == Some((v, 1int)),
{
    let b = enc_bool(v) + rest;
    assert(b[0] == enc_bool(v)[0]);
}

proof fn lemma_dec_opt_string_enc(os: Option<Seq<char>>, rest: Seq<u8>)
    requires
        wf_opt_string(os),
    ensures
        dec_opt_string(enc_opt_string(os) + rest) == Some((os, enc_opt_string(os).len() as int)),
{
    let b = enc_opt_string(os) + rest;
    match os {
        None => {
            assert(b[0] == 0u8);
        },
        Some(s) => {
            assert(b[0] == 1u8);
            assert(b.skip(1) =~= enc_string(s) + rest);
            lemma_dec_string_enc(s, rest);
        },
    }
}

#[verifier::spinoff_prover]
#[verifier::rlimit(100)]
proof fn lemma_dec_client_info_enc(c: ClientInfoV, rest: Seq<u8>)
    requires
        wf_client_info(c),
    ensures
        dec_client_info(enc_client_info(c) + rest) == Some(
            (c, enc_client_info(c).len() as int),
        ),
{
    let e1 = u128_be_bytes(c.id);
    let e2 = enc_opt_string(c.name);
    let e3 = u64_be_bytes(c.connected_at);
    let e4 = u64_be_bytes(c.last_seen);
    let b = enc_client_info(c) + rest;
    assert(b =~= e1 + (e2 + (e3 + (e4 + rest))));
    lemma_dec_u128_enc(c.id, e2 + (e3 + (e4 + rest)));
    assert(b.skip(16) =~= e2 + (e3 + (e4 + rest)));
    lemma_dec_opt_string_enc(c.name, e3 + (e4 + rest));
    let n2 = e2.len() as int;
    assert(b.skip(16 + n2) =~= e3 + (e4 + rest));
    lemma_dec_u64_enc(c.connected_at, e4 + rest);
    assert(b.skip(16 + n2 + 8) =~= e4 + rest);
    lemma_dec_u64_enc(c.last_seen, rest);
    assert(ClientInfoV {
        id: c.id,
        name: c.name,
        connected_at: c.connected_at,
        last_seen: c.last_seen,
    } == c);
}

#[verifier::spinoff_prover]
#[verifier::rlimit(100)]
proof fn lemma_dec_client_info_items_enc(cs: Seq<ClientInfoV>, rest: Seq<u8>)
    requires
        forall|i: int| 0 <= i < cs.len() ==> wf_client_info(#[trigger] cs[i]),
    ensures
        dec_client_info_items(enc_client_info_items(cs) + rest, cs.len()) == Some(
            (cs, enc_client_info_items(cs).len() as int),
        ),
    decreases cs.len(),
{
    let b = enc_client_info_items(cs) + rest;
    if cs.len() == 0 {
        assert(cs =~= Seq::<ClientInfoV>::empty());
    } else {
        let tail = cs.drop_first();
        assert(b =~= enc_client_info(cs[0]) + (enc_client_info_items(tail) + rest));
        lemma_dec_client_info_enc(cs[0], enc_client_info_items(tail) + rest);
        let n = enc_client_info(cs[0]).len() as int;
        assert(b.skip(n) =~= enc_client_info_items(tail) + rest);
        assert(forall|i: int| 0 <= i < tail.len() ==> wf_client_info(#[trigger] tail[i]));
        lemma_dec_client_info_items_enc(tail, rest);
        assert(seq![cs[0]] + tail =~= cs);
    }
}

proof fn lemma_dec_client_list_enc(cs: Seq<ClientInfoV>, rest: Seq<u8>)
    requires
        cs.len() <= u32::MAX,
        forall|i: int| 0 <= i < cs.len() ==> wf_client_info(#[trigger] cs[i]),
    ensures
        dec_client_list(enc_client_list(cs) + rest) == Some(
            (cs, enc_client_list(cs).len() as int),
        ),
{
    let l = cs.len() as u32;
    let b = enc_client_list(cs) + rest;
    assert(b =~= u32_be_bytes(l) + (enc_client_info_items(cs) + rest));
    lemma_dec_u32_enc(l, enc_client_info_items(cs) + rest);
    assert(b.skip(4) =~= enc_client_info_items(cs) + rest);
    lemma_dec_client_info_items_enc(cs, rest);
    assert(l as nat == cs.len());
}

#[verifier::spinoff_prover]
#[verifier::rlimit(100)]
proof fn lemma_dec_string_items_enc(ts: Seq<Seq<char>>, rest: Seq<u8>)
    requires
        forall|i: int| 0 <= i < ts.len() ==> wf_string(#[trigger] ts[i]),
    ensures
        dec_string_items(enc_string_items(ts) + rest, ts.len()) == Some(
            (ts, enc_string_items(ts).len() as int),
        ),
    decreases ts.len(),
{
    let b = enc_string_items(ts) + rest;
    if ts.len() == 0 {
        assert(ts =~= Seq::<Seq<char>>::empty());
    } else {
        let tail = ts.drop_first();
        assert(b =~= enc_string(ts[0]) + (enc_string_items(tail) + rest));
        lemma_dec_string_enc(ts[0], enc_string_items(tail) + rest);
        let n = enc_string(ts[0]).len() as int;
        assert(b.skip(n) =~= enc_string_items(tail) + rest);
        assert(forall|i: int| 0 <= i < tail.len() ==> wf_string(#[trigger] tail[i]));
        lemma_dec_string_items_enc(tail, rest);
        assert(seq![ts[0]] + tail =~= ts);
    }
}

proof fn lemma_dec_string_list_enc(ts: Seq<Seq<char>>, rest: Seq<u8>)
    requires
        ts.len() <= u32::MAX,
        forall|i: int| 0 <= i < ts.len() ==> wf_string(#[trigger] ts[i]),
    ensures
        dec_string_list(enc_string_list(ts) + rest) == Some(
            (ts, enc_string_list(ts).len() as int),
        ),
{
    let l = ts.len() as u32;
    let b = enc_string_list(ts) + rest;
    assert(b =~= u32_be_bytes(l) + (enc_string_items(ts) + rest));
    lemma_dec_u32_enc(l, enc_string_items(ts) + rest);
    assert(b.skip(4) =~= enc_string_items(ts) + rest);
    lemma_dec_string_items_enc(ts, rest);
    assert(l as nat == ts.len());
}

#[verifier::rlimit(60)]
proof fn lemma_dec_mt_handshake(m: MessageTypeV, rest: Seq<u8>)
    requires
        wf_message_type(m),
        m is Handshake,
    ensures
        dec_message_type(enc_message_type(m) + rest) == Some(
            (m, enc_message_type(m).len() as int),
        ),
{
    let b = enc_message_type(m) + rest;
    let r = b.skip(1);
    let (client_name, protocol_version) = (m->Handshake_client_name, m->Handshake_protocol_version);
    let e1 = enc_opt_string(client_name);
    let e2 = enc_string(protocol_version);
    assert(b[0] == TAG_HANDSHAKE);
    assert(r =~= e1 + (e2 + rest));
    lemma_dec_opt_string_enc(client_name, e2 + rest);
    assert(r.skip(e1.len() as int) =~= e2 + rest);
    lemma_dec_string_enc(protocol_version, rest);
}

#[verifier::spinoff_prover]
#[verifier::rlimit(100)]
proof fn lemma_dec_mt_hr_fields(
    client_id: u128,
    server_name: Seq<char>,
    accepted: bool,
    reason: Option<Seq<char>>,
    rest: Seq<u8>,
)
    requires
        wf_string(server_name),
        wf_opt_string(reason),
    ensures
        ({
            let e1 = u128_be_bytes(client_id);
            let e2 = enc_string(server_name);
            let e3 = enc_bool(accepted);
            let e4 = enc_opt_string(reason);
            dec_mt_handshake_response(e1 + (e2 + (e3 + (e4 + rest)))) == Some(
                (
                    MessageTypeV::HandshakeResponse { client_id, server_name, accepted, reason },
                    1 + 16 + e2.len() as int + 1 + e4.len() as int,
                ),
            )
        }),
{
    let e1 = u128_be_bytes(client_id);
    let e2 = enc_string(server_name);
    let e3 = enc_bool(accepted);
    let e4 = enc_opt_string(reason);
    let t3 = e4 + rest;
    let t2 = e3 + t3;
    let t1 = e2 + t2;
    let r = e1 + t1;
    let n2 = e2.len() as int;
    let n4 = e4.len() as int;
    assert(e1.len() == 16 && e3.len() == 1);
    lemma_dec_u128_enc(client_id, t1);
    lemma_skip_concat(e1, t1);
    lemma_dec_string_enc(server_name, t2);
    lemma_skip_concat(e2, t2);
    lemma_skip_twice(r, 16, n2);
    assert(r.skip(16 + n2) == t2);
    lemma_dec_bool_enc(accepted, t3);
    lemma_skip_concat(e3, t3);
    lemma_skip_twice(r, 16 + n2, 1);
    assert(r.skip(16 + n2 + 1) == t3);
    lemma_dec_opt_string_enc(reason, rest);
}

#[verifier::spinoff_prover]
#[verifier::rlimit(100)]
proof fn lemma_dec_mt_handshake_response(m: MessageTypeV, rest: Seq<u8>)
    requires
        wf_message_type(m),
        m is HandshakeResponse,
    ensures
        dec_message_type(enc_message_type(m) + rest) == Some(
            (m, enc_message_type(m).len() as int),
        ),
{
    let b = enc_message_type(m) + rest;
    let r = b.skip(1);
    let client_id = m->HandshakeResponse_client_id;
    let server_name = m->HandshakeResponse_server_name;
    let accepted = m->HandshakeResponse_accepted;
    let reason = m->HandshakeResponse_reason;
    let e1 = u128_be_bytes(client_id);
    let e2 = enc_string(server_name);
    let e3 = enc_bool(accepted);
    let e4 = enc_opt_string(reason);
    assert(b[0] == TAG_HANDSHAKE_RESPONSE);
    assert(r =~= e1 + (e2 + (e3 + (e4 + rest))));
    lemma_dec_mt_hr_fields(client_id, server_name, accepted, reason, rest);
    assert(enc_message_type(m).len() as int == 1 + 16 + e2.len() + 1 + e4.len());
}

#[verifier::rlimit(60)]
proof fn lemma_dec_mt_text(m: MessageTypeV, rest: Seq<u8>)
    requires
        wf_message_type(m),
        m is Text,
    ensures
        dec_message_type(enc_message_type(m) + rest) == Some(
            (m, enc_message_type(m).len() as int),
        ),
{
    let b = enc_message_type(m) + rest;
    let r = b.skip(1);
    let (content, timestamp) = (m->Text_content, m->Text_timestamp);
    let e1 = enc_string(content);
    assert(b[0] == TAG_TEXT);
    assert(r =~= e1 + (u64_be_bytes(timestamp) + rest));
    lemma_dec_string_enc(content, u64_be_bytes(timestamp) + rest);
    assert(r.skip(e1.len() as int) =~= u64_be_bytes(timestamp) + rest);
    lemma_dec_u64_enc(timestamp, rest);
}

#[verifier::rlimit(60)]
proof fn lemma_dec_mt_binary(m: MessageTypeV, rest: Seq<u8>)
    requires
        wf_message_type(m),
        m is Binary,
    ensures
        dec_message_type(enc_message_type(m) + rest) == Some(
            (m, enc_message_type(m).len() as int),
        ),
{
    let b = enc_message_type(m) + rest;
    let r = b.skip(1);
    let (data, timestamp) = (m->Binary_data, m->Binary_timestamp);
    let e1 = enc_bytes(data);
    assert(b[0] == TAG_BINARY);
    assert(r =~= e1 + (u64_be_bytes(timestamp) + rest));
    lemma_dec_byte_field_enc(data, u64_be_bytes(timestamp) + rest);
    assert(r.skip(e1.len() as int) =~= u64_be_bytes(timestamp) + rest);
    lemma_dec_u64_enc(timestamp, rest);
}

#[verifier::spinoff_prover]
#[verifier::rlimit(100)]
proof fn lemma_dec_mt_broadcast(m: MessageTypeV, rest: Seq<u8>)
    requires
        wf_message_type(m),
        m is Broadcast,
    ensures
        dec_message_type(enc_message_type(m) + rest) == Some(
            (m, enc_message_type(m).len() as int),
        ),
{
    let b = enc_message_type(m) + rest;
    let r = b.skip(1);
    let (from, content, timestamp) = (m->Broadcast_from, m->Broadcast_content, m->Broadcast_timestamp);
    let e1 = u128_be_bytes(from);
    let e2 = enc_string(content);
    assert(b[0] == TAG_BROADCAST);
    assert(r =~= e1 + (e2 + (u64_be_bytes(timestamp) + rest)));
    lemma_dec_u128_enc(from, e2 + (u64_be_bytes(timestamp) + rest));
    assert(dec_u128(r) == Some((from, 16int)));
    assert(r.skip(16) =~= e2 + (u64_be_bytes(timestamp) + rest));
    lemma_dec_string_enc(content, u64_be_bytes(timestamp) + rest);
    let n2 = e2.len() as int;
    assert(dec_string(r.skip(16)) == Some((content, n2)));
    assert(r.skip(16 + n2) =~= u64_be_bytes(timestamp) + rest);
    lemma_dec_u64_enc(timestamp, rest);
    assert(dec_u64(r.skip(16 + n2)) == Some((timestamp, 8int)));
    assert(enc_message_type(m).len() as int == 1 + 16 + n2 + 8);
}

#[verifier::spinoff_prover]
#[verifier::rlimit(100)]
proof fn lemma_dec_mt_dm_fields(
    from: u128,
    to: u128,
    content: Seq<char>,
    timestamp: u64,
    rest: Seq<u8>,
)
    requires
        wf_string(content),
    ensures
        ({
            let e1 = u128_be_bytes(from);
            let e2 = u128_be_bytes(to);
            let e3 = enc_string(content);
            let e4 = u64_be_bytes(timestamp);
            dec_mt_direct_message(e1 + (e2 + (e3 + (e4 + rest)))) == Some(
                (
                    MessageTypeV::DirectMessage { from, to, content, timestamp },
                    1 + 16 + 16 + e3.len() as int + 8,
                ),
            )
        }),
{
    let e1 = u128_be_bytes(from);
    let e2 = u128_be_bytes(to);
    let e3 = enc_string(content);
    let e4 = u64_be_bytes(timestamp);
    let t3 = e4 + rest;
    let t2 = e3 + t3;
    let t1 = e2 + t2;
    let r = e1 + t1;
    let n3 = e3.len() as int;
    assert(e1.len() == 16 && e2.len() == 16);
    lemma_dec_u128_enc(from, t1);
    lemma_skip_concat(e1, t1);
    lemma_dec_u128_enc(to, t2);
    lemma_skip_concat(e2, t2);
    lemma_skip_twice(r, 16, 16);
    assert(r.skip(32) == t2);
    lemma_dec_string_enc(content, t3);
    lemma_skip_concat(e3, t3);
    lemma_skip_twice(r, 32, n3);
    assert(r.skip(32 + n3) == t3);
    lemma_dec_u64_enc(timestamp, rest);
}

#[verifier::spinoff_prover]
#[verifier::rlimit(100)]
proof fn lemma_dec_mt_direct_message(m: MessageTypeV, rest: Seq<u8>)
    requires
        wf_message_type(m),
        m is DirectMessage,
    ensures
        dec_message_type(enc_message_type(m) + rest) == Some(
            (m, enc_message_type(m).len() as int),
        ),
{
    let b = enc_message_type(m) + rest;
    let r = b.skip(1);
    let from = m->DirectMessage_from;
    let to = m->DirectMessage_to;
    let content = m->DirectMessage_content;
    let timestamp = m->DirectMessage_timestamp;
    let e1 = u128_be_bytes(from);
    let e2 = u128_be_bytes(to);
    let e3 = enc_string(content);
    let e4 = u64_be_bytes(timestamp);
    assert(b[0] == TAG_DIRECT_MESSAGE);
    assert(r =~= e1 + (e2 + (e3 + (e4 + rest))));
    lemma_dec_mt_dm_fields(from, to, content, timestamp, rest);
    assert(enc_message_type(m).len() as int == 1 + 16 + 16 + e3.len() as int + 8);
}

#[verifier::rlimit(60)]
proof fn lemma_dec_mt_ping_pong(m: MessageTypeV, rest: Seq<u8>)
    requires
        m is Ping || m is Pong || m is ListClients,
    ensures
        dec_message_type(enc_message_type(m) + rest) == Some(
            (m, enc_message_type(m).len() as int),
        ),
{
    let b = enc_message_type(m) + rest;
    let r = b.skip(1);
    match m {
        MessageTypeV::Ping { timestamp } => {
            assert(b[0] == TAG_PING);
            assert(r =~= u64_be_bytes(timestamp) + rest);
            lemma_dec_u64_enc(timestamp, rest);
        },
        MessageTypeV::Pong { timestamp } => {
            assert(b[0] == TAG_PONG);
            assert(r =~= u64_be_bytes(timestamp) + rest);
            lemma_dec_u64_enc(timestamp, rest);
        },
        MessageTypeV::ListClients => {
            assert(b[0] == TAG_LIST_CLIENTS);
        },
        _ => {},
    }
}

#[verifier::rlimit(60)]
proof fn lemma_dec_mt_client_list(m: MessageTypeV, rest: Seq<u8>)
    requires
        wf_message_type(m),
        m is ClientList,
    ensures
        dec_message_type(enc_message_type(m) + rest) == Some(
            (m, enc_message_type(m).len() as int),
        ),
{
    let b = enc_message_type(m) + rest;
    let r = b.skip(1);
    let clients = m->ClientList_clients;
    assert(b[0] == TAG_CLIENT_LIST);
    assert(r =~= enc_client_list(clients) + rest);
    lemma_dec_client_list_enc(clients, rest);
}

#[verifier::rlimit(60)]
proof fn lemma_dec_mt_close_error(m: MessageTypeV, rest: Seq<u8>)
    requires
        wf_message_type(m),
        m is Close || m is Error,
    ensures
        dec_message_type(enc_message_type(m) + rest) == Some(
            (m, enc_message_type(m).len() as int),
        ),
{
    let b = enc_message_type(m) + rest;
    let r = b.skip(1);
    match m {
        MessageTypeV::Close { code, reason } => {
            assert(b[0] == TAG_CLOSE);
            assert(r =~= u16_be_bytes(code) + (enc_string(reason) + rest));
            lemma_dec_u16_enc(code, enc_string(reason) + rest);
            assert(r.skip(2) =~= enc_string(reason) + rest);
            lemma_dec_string_enc(reason, rest);
        },
        MessageTypeV::Error { code, message } => {
            assert(b[0] == TAG_ERROR);
            assert(r =~= u16_be_bytes(code) + (enc_string(message) + rest));
            lemma_dec_u16_enc(code, enc_string(message) + rest);
            assert(r.skip(2) =~= enc_string(message) + rest);
            lemma_dec_string_enc(message, rest);
        },
        _ => {},
    }
}

#[verifier::rlimit(60)]
proof fn lemma_dec_mt_subscriptions(m: MessageTypeV, rest: Seq<u8>)
    requires
        wf_message_type(m),
        m is Subscribe || m is Unsubscribe,
    ensures
        dec_message_type(enc_message_type(m) + rest) == Some(
            (m, enc_message_type(m).len() as int),
        ),
{
    let b = enc_message_type(m) + rest;
    let r = b.skip(1);
    match m {
        MessageTypeV::Subscribe { topics } => {
            assert(b[0] == TAG_SUBSCRIBE);
            assert(r =~= enc_string_list(topics) + rest);
            lemma_dec_string_list_enc(topics, rest);
        },
        MessageTypeV::Unsubscribe { topics } => {
            assert(b[0] == TAG_UNSUBSCRIBE);
            assert(r =~= enc_string_list(topics) + rest);
            lemma_dec_string_list_enc(topics, rest);
        },
        _ => {},
    }
}

#[verifier::spinoff_prover]
#[verifier::rlimit(100)]
proof fn lemma_dec_mt_server_push(m: MessageTypeV, rest: Seq<u8>)
    requires
        wf_message_type(m),
        m is ServerPush,
    ensures
        dec_message_type(enc_message_type(m) + rest) == Some(
            (m, enc_message_type(m).len() as int),
        ),
{
    let b = enc_message_type(m) + rest;
    let r = b.skip(1);
    let topic = m->ServerPush_topic;
    let content = m->ServerPush_content;
    let timestamp = m->ServerPush_timestamp;
    let e1 = enc_string(topic);
    let e2 = enc_string(content);
    assert(b[0] == TAG_SERVER_PUSH);
    assert(r =~= e1 + (e2 + (u64_be_bytes(timestamp) + rest)));
    lemma_dec_string_enc(topic, e2 + (u64_be_bytes(timestamp) + rest));
    let n1 = e1.len() as int;
    assert(dec_string(r) == Some((topic, n1)));
    assert(r.skip(n1) =~= e2 + (u64_be_bytes(timestamp) + rest));
    lemma_dec_string_enc(content, u64_be_bytes(timestamp) + rest);
    let n2 = e2.len() as int;
    assert(dec_string(r.skip(n1)) == Some((content, n2)));
    assert(r.skip(n1 + n2) =~= u64_be_bytes(timestamp) + rest);
    lemma_dec_u64_enc(timestamp, rest);
    assert(dec_u64(r.skip(n1 + n2)) == Some((timestamp, 8int)));
    assert(enc_message_type(m).len() as int == 1 + n1 + n2 + 8);
}

proof fn lemma_dec_message_type_enc(m: MessageTypeV, rest: Seq<u8>)
    requires
        wf_message_type(m),
    ensures
        dec_message_type(enc_message_type(m) + rest) == Some(
            (m, enc_message_type(m).len() as int),
        ),
{
    match m {
        MessageTypeV::Handshake { .. } => lemma_dec_mt_handshake(m, rest),
        MessageTypeV::HandshakeResponse { .. } => lemma_dec_mt_handshake_response(m, rest),
        MessageTypeV::Text { .. } => lemma_dec_mt_text(m, rest),
        MessageTypeV::Binary { .. } => lemma_dec_mt_binary(m, rest),
        MessageTypeV::Broadcast { .. } => lemma_dec_mt_broadcast(m, rest),
        MessageTypeV::DirectMessage { .. } => lemma_dec_mt_direct_message(m, rest),
        MessageTypeV::Ping { .. } => lemma_dec_mt_ping_pong(m, rest),
        MessageTypeV::Pong { .. } => lemma_dec_mt_ping_pong(m, rest),
        MessageTypeV::ListClients => lemma_dec_mt_ping_pong(m, rest),
        MessageTypeV::ClientList { .. } => lemma_dec_mt_client_list(m, rest),
        MessageTypeV::Close { .. } => lemma_dec_mt_close_error(m, rest),
        MessageTypeV::Error { .. } => lemma_dec_mt_close_error(m, rest),
        MessageTypeV::Subscribe { .. } => lemma_dec_mt_subscriptions(m, rest),
        MessageTypeV::Unsubscribe { .. } => lemma_dec_mt_subscriptions(m, rest),
        MessageTypeV::ServerPush { .. } => lemma_dec_mt_server_push(m, rest),
    }
}

#[verifier::spinoff_prover]
#[verifier::rlimit(100)]
proof fn lemma_dec_frame_enc(f: MessageFrameV, rest: Seq<u8>)
    requires
        wf_frame(f),
    ensures
        dec_frame(enc_frame(f) + rest) == Some((f, enc_frame(f).len() as int)),
{
    let e1 = u128_be_bytes(f.id);
    let e2 = seq![f.priority];
    let e3 = enc_bool(f.require_ack);
    let e4 = enc_message_type(f.message_type);
    let t3 = e4 + rest;
    let t2 = e3 + t3;
    let t1 = e2 + t2;
    let b = e1 + t1;
    assert(e1.len() == 16 && e2.len() == 1 && e3.len() == 1);
    assert(enc_frame(f) + rest =~= b);
    lemma_dec_u128_enc(f.id, t1);
    lemma_skip_concat(e1, t1);
    assert(dec_u128(b) == Some((f.id, 16int)));
    assert(t1[0] == f.priority);
    assert(dec_u8(b.skip(16)) == Some((f.priority, 1int)));
    lemma_skip_twice(b, 16, 1);
    lemma_skip_concat(e2, t2);
    assert(b.skip(17) == t2);
    lemma_dec_bool_enc(f.require_ack, t3);
    assert(dec_bool(b.skip(17)) == Some((f.require_ack, 1int)));
    lemma_skip_twice(b, 17, 1);
    lemma_skip_concat(e3, t3);
    assert(b.skip(18) == t3);
    lemma_dec_message_type_enc(f.message_type, rest);
    assert(dec_message_type(b.skip(18)) == Some((f.message_type, e4.len() as int)));
    assert(enc_frame(f).len() as int == 18 + e4.len() as int);
    assert(MessageFrameV {
        id: f.id,
        message_type: f.message_type,
        priority: f.priority,
        require_ack: f.require_ack,
    } == f);
}

/// Codec round trip: decoding the encoding of any well-formed frame yields
/// exactly that frame.
pub proof fn lemma_native_codec_round_trip(f: MessageFrameV)
    requires
        wf_frame(f),
    ensures
        spec_from_bytes(enc_frame(f)) == Some(f),
{
    lemma_dec_frame_enc(f, Seq::empty());
    assert(enc_frame(f) + Seq::<u8>::empty() =~= enc_frame(f));
}

// ---------------------------------------------------------------------------
// Exec decoder.
// ---------------------------------------------------------------------------

#[verifier::external_type_specification]
#[verifier::external_body]
pub struct ExFromUtf8Error(std::string::FromUtf8Error);

/// Relies on `String::from_utf8`: it succeeds exactly on valid UTF-8 input
/// and yields the characters that the bytes encode.
pub assume_specification[ String::from_utf8 ](v: Vec<u8>) -> (r: Result<
    String,
    std::string::FromUtf8Error,
>)
    ensures
        r is Ok <==> valid_utf8(v@),
        r matches Ok(s) ==> s@ == decode_utf8(v@),
;

proof fn lemma_skip_skip(b: Seq<u8>, x: int, y: int)
    requires
        0 <= x,
        0 <= y,
        x + y <= b.len(),
    ensures
        b.skip(x).skip(y) =~= b.skip(x + y),
{
}

fn dec_u8_at(data: &[u8], at: usize) -> (r: Option<(u8, usize)>)
    requires
        at <= data@.len(),
    ensures
        match r {
            Some(p) => dec_u8(data@.skip(at as int)) == Some((p.0, p.1 as int)) && at + p.1
                <= data@.len(),
            None => dec_u8(data@.skip(at as int)) is None,
        },
{
    if data.len() - at >= 1 {
        let v = data[at];
        assert(data@.skip(at as int)[0] == data@[at as int]);
        Some((v, 1))
    } else {
        None
    }
}

fn dec_u16_at(data: &[u8], at: usize) -> (r: Option<(u16, usize)>)
    requires
        at <= data@.len(),
    ensures
        match r {
            Some(p) => dec_u16(data@.skip(at as int)) == Some((p.0, p.1 as int)) && at + p.1
                <= data@.len(),
            None => dec_u16(data@.skip(at as int)) is None,
        },
{
    if data.len() - at >= 2 {
        Some((read_u16_be(data, at), 2))
    } else {
        None
    }
}

fn dec_u64_at(data: &[u8], at: usize) -> (r: Option<(u64, usize)>)
    requires
        at <= data@.len(),
    ensures
        match r {
            Some(p) => dec_u64(data@.skip(at as int)) == Some((p.0, p.1 as int)) && at + p.1
                <= data@.len(),
            None => dec_u64(data@.skip(at as int)) is None,
        },
{
    if data.len() - at >= 8 {
        Some((read_u64_be(data, at), 8))
    } else {
        None
    }
}

fn dec_u128_at(data: &[u8], at: usize) -> (r: Option<(u128, usize)>)
    requires
        at <= data@.len(),
    ensures
        match r {
            Some(p) => dec_u128(data@.skip(at as int)) == Some((p.0, p.1 as int)) && at + p.1
                <= data@.len(),
            None => dec_u128(data@.skip(at as int)) is None,
        },
{
    if data.len() - at >= 16 {
        Some((read_u128_be(data, at), 16))
    } else {
        None
    }
}

fn dec_bool_at(data: &[u8], at: usize) -> (r: Option<(bool, usize)>)
    requires
        at <= data@.len(),
    ensures
        match r {
            Some(p) => dec_bool(data@.skip(at as int)) == Some((p.0, p.1 as int)) && at + p.1
                <= data@.len(),
            None => dec_bool(data@.skip(at as int)) is None,
        },
{
    if data.len() - at >= 1 {
        let v = data[at];
        assert(data@.skip(at as int)[0] == data@[at as int]);
        if v == 0 {
            Some((false, 1))
        } else if v == 1 {
            Some((true, 1))
        } else {
            None
        }
    } else {
        None
    }
}

fn dec_byte_field_at(data: &[u8], at: usize) -> (r: Option<(Vec<u8>, usize)>)
    requires
        at <= data@.len(),
    ensures
        match r {
            Some(p) => dec_byte_field(data@.skip(at as int)) == Some((p.0@, p.1 as int)) && at
                + p.1 <= data@.len(),
            None => dec_byte_field(data@.skip(at as int)) is None,
        },
{
    if data.len() - at < 4 {
        return None;
    }
    let l32 = read_u32_be(data, at);
    let n = l32 as usize;
    if n > data.len() - at - 4 {
        return None;
    }
    let sub = vstd::slice::slice_subrange(data, at + 4, at + 4 + n);
    let v = vstd::slice::slice_to_vec(sub);
    assert(data@.skip(at as int).subrange(4, 4 + n as int) =~= data@.subrange(
        at as int + 4,
        at as int + 4 + n as int,
    ));
    Some((v, 4 + n))
}

fn dec_string_at(data: &[u8], at: usize) -> (r: Option<(String, usize)>)
    requires
        at <= data@.len(),
    ensures
        match r {
            Some(p) => dec_string(data@.skip(at as int)) == Some((p.0@, p.1 as int)) && at + p.1
                <= data@.len(),
            None => dec_string(data@.skip(at as int)) is None,
        },
{
    match dec_byte_field_at(data, at) {
        None => None,
        Some((bs, n)) => {
            let ghost bsv = bs@;
            match String::from_utf8(bs) {
                Ok(s) => Some((s, n)),
                Err(_) => None,
            }
        },
    }
}

fn dec_opt_string_at(data: &[u8], at: usize) -> (r: Option<(Option<String>, usize)>)
    requires
        at <= data@.len(),
    ensures
        match r {
            Some(p) => dec_opt_string(data@.skip(at as int)) == Some(
                (opt_string_view(p.0), p.1 as int),
            ) && at + p.1 <= data@.len(),
            None => dec_opt_string(data@.skip(at as int)) is None,
        },
{
    let dlen = data.len();
    match dec_bool_at(data, at) {
        None => None,
        Some((present, _nb)) => {
            if !present {
                Some((None, 1))
            } else {
                proof {
                    lemma_skip_skip(data@, at as int, 1);
                }
                match dec_string_at(data, at + 1) {
                    None => None,
                    Some((s, n)) => Some((Some(s), 1 + n)),
                }
            }
        },
    }
}

fn dec_client_info_at(data: &[u8], at: usize) -> (r: Option<(ClientInfo, usize)>)
    requires
        at <= data@.len(),
    ensures
        match r {
            Some(p) => dec_client_info(data@.skip(at as int)) == Some((p.0@, p.1 as int)) && at
                + p.1 <= data@.len(),
            None => dec_client_info(data@.skip(at as int)) is None,
        },
{
    let dlen = data.len();
    match dec_u128_at(data, at) {
        None => None,
        Some((id, _n1)) => {
            proof {
                lemma_skip_skip(data@, at as int, 16);
            }
            match dec_opt_string_at(data, at + 16) {
                None => None,
                Some((name, n2)) => {
                    proof {
                        lemma_skip_skip(data@, at as int, 16 + n2 as int);
                    }
                    match dec_u64_at(data, at + 16 + n2) {
                        None => None,
                        Some((connected_at, _n3)) => {
                            proof {
                                lemma_skip_skip(data@, at as int, 16 + n2 as int + 8);
                            }
                            match dec_u64_at(data, at + 16 + n2 + 8) {
                                None => None,
                                Some((last_seen, _n4)) => Some(
                                    (
                                        ClientInfo {
                                            id: ClientId { value: id },
                                            name,
                                            connected_at,
                                            last_seen,
                                        },
                                        16 + n2 + 8 + 8,
                                    ),
                                ),
                            }
                        },
                    }
                },
            }
        },
    }
}

fn dec_client_info_items_at(data: &[u8], at: usize, k: u32) -> (r: Option<(Vec<ClientInfo>, usize)>)
    requires
        at <= data@.len(),
    ensures
        match r {
            Some(p) => dec_client_info_items(data@.skip(at as int), k as nat) == Some(
                (client_infos_view(p.0@), p.1 as int),
            ) && at + p.1 <= data@.len(),
            None => dec_client_info_items(data@.skip(at as int), k as nat) is None,
        },
    decreases k,
{
    let dlen = data.len();
    if k == 0 {
        let empty: Vec<ClientInfo> = Vec::new();
        assert(client_infos_view(empty@) =~= Seq::<ClientInfoV>::empty());
        return Some((empty, 0));
    }
    match dec_client_info_at(data, at) {
        None => None,
        Some((c, n)) => {
            proof {
                lemma_skip_skip(data@, at as int, n as int);
            }
            match dec_client_info_items_at(data, at + n, k - 1) {
                None => None,
                Some((cs, m)) => {
                    let ghost pre = cs@;
                    let mut cs = cs;
                    cs.insert(0, c);
                    assert(client_infos_view(cs@) =~= seq![c@] + client_infos_view(pre));
                    Some((cs, n + m))
                },
            }
        },
    }
}

fn dec_client_list_at(data: &[u8], at: usize) -> (r: Option<(Vec<ClientInfo>, usize)>)
    requires
        at <= data@.len(),
    ensures
        match r {
            Some(p) => dec_client_list(data@.skip(at as int)) == Some(
                (client_infos_view(p.0@), p.1 as int),
            ) && at + p.1 <= data@.len(),
            None => dec_client_list(data@.skip(at as int)) is None,
        },
{
    if data.len() - at < 4 {
        return None;
    }
    let k = read_u32_be(data, at);
    proof {
        lemma_skip_skip(data@, at as int, 4);
    }
    match dec_client_info_items_at(data, at + 4, k) {
        None => None,
        Some((cs, m)) => Some((cs, 4 + m)),
    }
}

fn dec_string_items_at(data: &[u8], at: usize, k: u32) -> (r: Option<(Vec<String>, usize)>)
    requires
        at <= data@.len(),
    ensures
        match r {
            Some(p) => dec_string_items(data@.skip(at as int), k as nat) == Some(
                (strings_view(p.0@), p.1 as int),
            ) && at + p.1 <= data@.len(),
            None => dec_string_items(data@.skip(at as int), k as nat) is None,
        },
    decreases k,
{
    let dlen = data.len();
    if k == 0 {
        let empty: Vec<String> = Vec::new();
        assert(strings_view(empty@) =~= Seq::<Seq<char>>::empty());
        return Some((empty, 0));
    }
    match dec_string_at(data, at) {
        None => None,
        Some((t, n)) => {
            proof {
                lemma_skip_skip(data@, at as int, n as int);
            }
            match dec_string_items_at(data, at + n, k - 1) {
                None => None,
                Some((ts, m)) => {
                    let ghost pre = ts@;
                    let mut ts = ts;
                    ts.insert(0, t);
                    assert(strings_view(ts@) =~= seq![t@] + strings_view(pre));
                    Some((ts, n + m))
                },
            }
        },
    }
}

fn dec_string_list_at(data: &[u8], at: usize) -> (r: Option<(Vec<String>, usize)>)
    requires
        at <= data@.len(),
    ensures
        match r {
            Some(p) => dec_string_list(data@.skip(at as int)) == Some(
                (strings_view(p.0@), p.1 as int),
            ) && at + p.1 <= data@.len(),
            None => dec_string_list(data@.skip(at as int)) is None,
        },
{
    if data.len() - at < 4 {
        return None;
    }
    let k = read_u32_be(data, at);
    proof {
        lemma_skip_skip(data@, at as int, 4);
    }
    match dec_string_items_at(data, at + 4, k) {
        None => None,
        Some((ts, m)) => Some((ts, 4 + m)),
    }
}

#[verifier::rlimit(100)]
fn dec_mt_handshake_at(data: &[u8], a1: usize) -> (r: Option<(MessageType, usize)>)
    requires
        1 <= a1 <= data@.len(),
        data@[a1 - 1] == TAG_HANDSHAKE,
    ensures
        match r {
            Some(p) => dec_message_type(data@.skip(a1 - 1)) == Some((p.0@, p.1 as int)) && (a1 - 1)
                + p.1 <= data@.len(),
            None => dec_message_type(data@.skip(a1 - 1)) is None,
        },
{
    let dlen = data.len();
    assert(data@.skip(a1 - 1)[0] == data@[a1 - 1]);
    proof {
        lemma_skip_skip(data@, a1 - 1, 1);
    }
    match dec_opt_string_at(data, a1) {
        None => None,
        Some((client_name, n1)) => {
            proof {
                lemma_skip_skip(data@, a1 as int, n1 as int);
            }
            match dec_string_at(data, a1 + n1) {
                None => None,
                Some((protocol_version, n2)) => Some(
                    (MessageType::Handshake { client_name, protocol_version }, 1 + n1 + n2),
                ),
            }
        },
    }
}

#[verifier::rlimit(100)]
fn dec_mt_handshake_response_at(data: &[u8], a1: usize) -> (r: Option<(MessageType, usize)>)
    requires
        1 <= a1 <= data@.len(),
        data@[a1 - 1] == TAG_HANDSHAKE_RESPONSE,
    ensures
        match r {
            Some(p) => dec_message_type(data@.skip(a1 - 1)) == Some((p.0@, p.1 as int)) && (a1 - 1)
                + p.1 <= data@.len(),
            None => dec_message_type(data@.skip(a1 - 1)) is None,
        },
{
    let dlen = data.len();
    assert(data@.skip(a1 - 1)[0] == data@[a1 - 1]);
    proof {
        lemma_skip_skip(data@, a1 - 1, 1);
    }
    match dec_u128_at(data, a1) {
        None => None,
        Some((cid, _n1)) => {
            proof {
                lemma_skip_skip(data@, a1 as int, 16);
            }
            match dec_string_at(data, a1 + 16) {
                None => None,
                Some((server_name, n2)) => {
                    proof {
                        lemma_skip_skip(data@, a1 as int, 16 + n2 as int);
                    }
                    match dec_bool_at(data, a1 + 16 + n2) {
                        None => None,
                        Some((accepted, _n3)) => {
                            proof {
                                lemma_skip_skip(data@, a1 as int, 16 + n2 as int + 1);
                            }
                            match dec_opt_string_at(data, a1 + 16 + n2 + 1) {
                                None => None,
                                Some((reason, n4)) => Some(
                                    (
                                        MessageType::HandshakeResponse {
                                            client_id: ClientId { value: cid },
                                            server_name,
                                            accepted,
                                            reason,
                                        },
                                        1 + 16 + n2 + 1 + n4,
                                    ),
                                ),
                            }
                        },
                    }
                },
            }
        },
    }
}

#[verifier::rlimit(100)]
fn dec_mt_text_at(data: &[u8], a1: usize) -> (r: Option<(MessageType, usize)>)
    requires
        1 <= a1 <= data@.len(),
        data@[a1 - 1] == TAG_TEXT,
    ensures
        match r {
            Some(p) => dec_message_type(data@.skip(a1 - 1)) == Some((p.0@, p.1 as int)) && (a1 - 1)
                + p.1 <= data@.len(),
            None => dec_message_type(data@.skip(a1 - 1)) is None,
        },
{
    let dlen = data.len();
    assert(data@.skip(a1 - 1)[0] == data@[a1 - 1]);
    proof {
        lemma_skip_skip(data@, a1 - 1, 1);
    }
    match dec_string_at(data, a1) {
        None => None,
        Some((content, n1)) => {
            proof {
                lemma_skip_skip(data@, a1 as int, n1 as int);
            }
            match dec_u64_at(data, a1 + n1) {
                None => None,
                Some((timestamp, _nts)) => Some(
                    (MessageType::Text { content, timestamp }, 1 + n1 + 8),
                ),
            }
        },
    }
}

#[verifier::rlimit(100)]
fn dec_mt_binary_at(data: &[u8], a1: usize) -> (r: Option<(MessageType, usize)>)
    requires
        1 <= a1 <= data@.len(),
        data@[a1 - 1] == TAG_BINARY,
    ensures
        match r {
            Some(p) => dec_message_type(data@.skip(a1 - 1)) == Some((p.0@, p.1 as int)) && (a1 - 1)
                + p.1 <= data@.len(),
            None => dec_message_type(data@.skip(a1 - 1)) is None,
        },
{
    let dlen = data.len();
    assert(data@.skip(a1 - 1)[0] == data@[a1 - 1]);
    proof {
        lemma_skip_skip(data@, a1 - 1, 1);
    }
    match dec_byte_field_at(data, a1) {
        None => None,
        Some((bin, n1)) => {
            proof {
                lemma_skip_skip(data@, a1 as int, n1 as int);
            }
            match dec_u64_at(data, a1 + n1) {
                None => None,
                Some((timestamp, _nts)) => Some(
                    (MessageType::Binary { data: bin, timestamp }, 1 + n1 + 8),
                ),
            }
        },
    }
}

#[verifier::rlimit(100)]
fn dec_mt_broadcast_at(data: &[u8], a1: usize) -> (r: Option<(MessageType, usize)>)
    requires
        1 <= a1 <= data@.len(),
        data@[a1 - 1] == TAG_BROADCAST,
    ensures
        match r {
            Some(p) => dec_message_type(data@.skip(a1 - 1)) == Some((p.0@, p.1 as int)) && (a1 - 1)
                + p.1 <= data@.len(),
            None => dec_message_type(data@.skip(a1 - 1)) is None,
        },
{
    let dlen = data.len();
    assert(data@.skip(a1 - 1)[0] == data@[a1 - 1]);
    proof {
        lemma_skip_skip(data@, a1 - 1, 1);
    }
    match dec_u128_at(data, a1) {
        None => None,
        Some((from, _nf)) => {
            proof {
                lemma_skip_skip(data@, a1 as int, 16);
            }
            match dec_string_at(data, a1 + 16) {
                None => None,
                Some((content, n2)) => {
                    proof {
                        lemma_skip_skip(data@, a1 as int, 16 + n2 as int);
                    }
                    match dec_u64_at(data, a1 + 16 + n2) {
                        None => None,
                        Some((timestamp, _nts)) => Some(
                            (
                                MessageType::Broadcast {
                                    from: ClientId { value: from },
                                    content,
                                    timestamp,
                                },
                                1 + 16 + n2 + 8,
                            ),
                        ),
                    }
                },
            }
        },
    }
}

#[verifier::rlimit(100)]
fn dec_mt_direct_message_at(data: &[u8], a1: usize) -> (r: Option<(MessageType, usize)>)
    requires
        1 <= a1 <= data@.len(),
        data@[a1 - 1] == TAG_DIRECT_MESSAGE,
    ensures
        match r {
            Some(p) => dec_message_type(data@.skip(a1 - 1)) == Some((p.0@, p.1 as int)) && (a1 - 1)
                + p.1 <= data@.len(),
            None => dec_message_type(data@.skip(a1 - 1)) is None,
        },
{
    let dlen = data.len();
    assert(data@.skip(a1 - 1)[0] == data@[a1 - 1]);
    proof {
        lemma_skip_skip(data@, a1 - 1, 1);
    }
    match dec_u128_at(data, a1) {
        None => None,
        Some((from, _nf)) => {
            proof {
                lemma_skip_skip(data@, a1 as int, 16);
            }
            match dec_u128_at(data, a1 + 16) {
                None => None,
                Some((to, _nt)) => {
                    proof {
                        lemma_skip_skip(data@, a1 as int, 32);
                    }
                    match dec_string_at(data, a1 + 32) {
                        None => None,
                        Some((content, n3)) => {
                            proof {
                                lemma_skip_skip(data@, a1 as int, 32 + n3 as int);
                            }
                            match dec_u64_at(data, a1 + 32 + n3) {
                                None => None,
                                Some((timestamp, _nts)) => Some(
                                    (
                                        MessageType::DirectMessage {
                                            from: ClientId { value: from },
                                            to: ClientId { value: to },
                                            content,
                                            timestamp,
                                        },
                                        1 + 32 + n3 + 8,
                                    ),
                                ),
                            }
                        },
                    }
                },
            }
        },
    }
}

#[verifier::rlimit(100)]
fn dec_mt_close_at(data: &[u8], a1: usize) -> (r: Option<(MessageType, usize)>)
    requires
        1 <= a1 <= data@.len(),
        data@[a1 - 1] == TAG_CLOSE,
    ensures
        match r {
            Some(p) => dec_message_type(data@.skip(a1 - 1)) == Some((p.0@, p.1 as int)) && (a1 - 1)
                + p.1 <= data@.len(),
            None => dec_message_type(data@.skip(a1 - 1)) is None,
        },
{
    let dlen = data.len();
    assert(data@.skip(a1 - 1)[0] == data@[a1 - 1]);
    proof {
        lemma_skip_skip(data@, a1 - 1, 1);
    }
    match dec_u16_at(data, a1) {
        None => None,
        Some((code, _nc)) => {
            proof {
                lemma_skip_skip(data@, a1 as int, 2);
            }
            match dec_string_at(data, a1 + 2) {
                None => None,
                Some((reason, n2)) => Some((MessageType::Close { code, reason }, 1 + 2 + n2)),
            }
        },
    }
}

#[verifier::rlimit(100)]
fn dec_mt_error_at(data: &[u8], a1: usize) -> (r: Option<(MessageType, usize)>)
    requires
        1 <= a1 <= data@.len(),
        data@[a1 - 1] == TAG_ERROR,
    ensures
        match r {
            Some(p) => dec_message_type(data@.skip(a1 - 1)) == Some((p.0@, p.1 as int)) && (a1 - 1)
                + p.1 <= data@.len(),
            None => dec_message_type(data@.skip(a1 - 1)) is None,
        },
{
    let dlen = data.len();
    assert(data@.skip(a1 - 1)[0] == data@[a1 - 1]);
    proof {
        lemma_skip_skip(data@, a1 - 1, 1);
    }
    match dec_u16_at(data, a1) {
        None => None,
        Some((code, _nc)) => {
            proof {
                lemma_skip_skip(data@, a1 as int, 2);
            }
            match dec_string_at(data, a1 + 2) {
                None => None,
                Some((message, n2)) => Some((MessageType::Error { code, message }, 1 + 2 + n2)),
            }
        },
    }
}

#[verifier::rlimit(100)]
fn dec_mt_server_push_at(data: &[u8], a1: usize) -> (r: Option<(MessageType, usize)>)
    requires
        1 <= a1 <= data@.len(),
        data@[a1 - 1] == TAG_SERVER_PUSH,
    ensures
        match r {
            Some(p) => dec_message_type(data@.skip(a1 - 1)) == Some((p.0@, p.1 as int)) && (a1 - 1)
                + p.1 <= data@.len(),
            None => dec_message_type(data@.skip(a1 - 1)) is None,
        },
{
    let dlen = data.len();
    assert(data@.skip(a1 - 1)[0] == data@[a1 - 1]);
    proof {
        lemma_skip_skip(data@, a1 - 1, 1);
    }
    match dec_string_at(data, a1) {
        None => None,
        Some((topic, n1)) => {
            proof {
                lemma_skip_skip(data@, a1 as int, n1 as int);
            }
            match dec_string_at(data, a1 + n1) {
                None => None,
                Some((content, n2)) => {
                    proof {
                        lemma_skip_skip(data@, a1 as int, n1 as int + n2 as int);
                    }
                    match dec_u64_at(data, a1 + n1 + n2) {
                        None => None,
                        Some((timestamp, _nts)) => Some(
                            (
                                MessageType::ServerPush { topic, content, timestamp },
                                1 + n1 + n2 + 8,
                            ),
                        ),
                    }
                },
            }
        },
    }
}

#[verifier::rlimit(100)]
fn dec_message_type_at(data: &[u8], at: usize) -> (r: Option<(MessageType, usize)>)
    requires
        at <= data@.len(),
    ensures
        match r {
            Some(p) => dec_message_type(data@.skip(at as int)) == Some((p.0@, p.1 as int)) && at
                + p.1 <= data@.len(),
            None => dec_message_type(data@.skip(at as int)) is None,
        },
{
    let dlen = data.len();
    if dlen - at < 1 {
        return None;
    }
    let tag = data[at];
    assert(data@.skip(at as int)[0] == data@[at as int]);
    proof {
        lemma_skip_skip(data@, at as int, 1);
    }
    let a1 = at + 1;
    if tag == TAG_HANDSHAKE {
        dec_mt_handshake_at(data, a1)
    } else if tag == TAG_HANDSHAKE_RESPONSE {
        dec_mt_handshake_response_at(data, a1)
    } else if tag == TAG_TEXT {
        dec_mt_text_at(data, a1)
    } else if tag == TAG_BINARY {
        dec_mt_binary_at(data, a1)
    } else if tag == TAG_BROADCAST {
        dec_mt_broadcast_at(data, a1)
    } else if tag == TAG_DIRECT_MESSAGE {
        dec_mt_direct_message_at(data, a1)
    } else if tag == TAG_PING {
        match dec_u64_at(data, a1) {
            None => None,
            Some((timestamp, _nts)) => Some((MessageType::Ping { timestamp }, 1 + 8)),
        }
    } else if tag == TAG_PONG {
        match dec_u64_at(data, a1) {
            None => None,
            Some((timestamp, _nts)) => Some((MessageType::Pong { timestamp }, 1 + 8)),
        }
    } else if tag == TAG_LIST_CLIENTS {
        Some((MessageType::ListClients, 1))
    } else if tag == TAG_CLIENT_LIST {
        match dec_client_list_at(data, a1) {
            None => None,
            Some((clients, n1)) => Some((MessageType::ClientList { clients }, 1 + n1)),
        }
    } else if tag == TAG_CLOSE {
        dec_mt_close_at(data, a1)
    } else if tag == TAG_ERROR {
        dec_mt_error_at(data, a1)
    } else if tag == TAG_SUBSCRIBE {
        match dec_string_list_at(data, a1) {
            None => None,
            Some((topics, n1)) => Some((MessageType::Subscribe { topics }, 1 + n1)),
        }
    } else if tag == TAG_UNSUBSCRIBE {
        match dec_string_list_at(data, a1) {
            None => None,
            Some((topics, n1)) => Some((MessageType::Unsubscribe { topics }, 1 + n1)),
        }
    } else if tag == TAG_SERVER_PUSH {
        dec_mt_server_push_at(data, a1)
    } else {
        None
    }
}

impl MessageFrame {
    /// Deserialize a frame. Succeeds exactly when `data` is the canonical
    /// encoding of one frame, consumed in full.
    pub fn from_bytes(data: &[u8]) -> (r: Option<MessageFrame>)
        ensures
            r matches Some(f) ==> spec_from_bytes(data@) == Some(f@),
            r is None ==> spec_from_bytes(data@) is None,
    {
        let dlen = data.len();
        assert(data@.skip(0) =~= data@);
        let id = match dec_u128_at(data, 0) {
            None => {
                return None;
            },
            Some((id, _ni)) => id,
        };
        let priority = match dec_u8_at(data, 16) {
            None => {
                return None;
            },
            Some((p, _np)) => p,
        };
        let require_ack = match dec_bool_at(data, 17) {
            None => {
                return None;
            },
            Some((a, _na)) => a,
        };
        let (message_type, n4) = match dec_message_type_at(data, 18) {
            None => {
                return None;
            },
            Some(p) => p,
        };
        let total = 18 + n4;
        if total == data.len() {
            Some(MessageFrame { id: ClientId { value: id }, message_type, priority, require_ack })
        } else {
            None
        }
    }
}


/// A frame as it travels on a native-mode stream: a big-endian `u32`
/// length prefix, then the encoded frame.
pub open spec fn wire_bytes(f: MessageFrameV) -> Seq<u8> {
    u32_be_bytes(enc_frame(f).len() as u32) + enc_frame(f)
}

impl MessageFrame {
    /// Serialize the frame with its `u32` length prefix, ready for a
    /// stream. Succeeds exactly when the frame is well-formed and its
    /// encoding fits the prefix.
    pub fn to_wire_bytes(&self) -> (r: Option<Vec<u8>>)
        ensures
            r is Some <==> wf_frame(self@) && enc_frame(self@).len() <= u32::MAX,
            r matches Some(b) ==> b@ == wire_bytes(self@),
    {
        match self.to_bytes() {
            None => None,
            Some(body) => {
                if body.len() > u32::MAX as usize {
                    return None;
                }
                let mut out: Vec<u8> = Vec::new();
                push_u32_be(&mut out, body.len() as u32);
                out.extend_from_slice(body.as_slice());
                assert(out@ =~= wire_bytes(self@));
                Some(out)
            },
        }
    }
}

} // verus!
