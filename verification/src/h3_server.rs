//! Decisions of the HTTP/3 WebSocket dispatcher: per-frame replies, the
//! upgrade answer, and the welcome text. The embedding reads request
//! streams, feeds parsed frames here and writes the replies back.

use vstd::prelude::*;
use vstd::string::{StringExecFns, StringSliceAdditionalSpecFns};
use vstd::utf8::encode_utf8;
use crate::message::ClientId;
use crate::websocket::{
    WebSocketFrame, WebSocketOpcode, WebSocketState, UpgradeHeaders, spec_is_upgrade_request,
    is_websocket_upgrade_request, generate_websocket_accept, accept_key_of,
};

verus! {

/// One HTTP/3 WebSocket connection record.
#[derive(Debug, Clone)]
pub struct H3WebSocketConnection {
    pub id: ClientId,
    pub remote_addr: String,
    pub state: WebSocketState,
}

/// A message published to the broadcast side channel by the dispatcher.
#[derive(Debug, Clone)]
pub struct WebSocketMessage {
    pub from: ClientId,
    pub opcode: WebSocketOpcode,
    pub payload: Vec<u8>,
}

fn copy_payload(b: &Vec<u8>) -> (r: Vec<u8>)
    ensures
        r@ == b@,
{
    let mut out: Vec<u8> = Vec::new();
    out.extend_from_slice(b.as_slice());
    assert(out@ =~= b@);
    out
}

/// The frames a server answers one inbound frame with, and whether the
/// stream ends afterwards: text and binary are echoed, a close is answered
/// with an empty close and ends the stream, a ping with a pong carrying
/// the same payload; pongs and continuations get no reply. All replies
/// are final, unmasked server frames.
pub fn handle_ws_frame(frame: &WebSocketFrame) -> (r: (Vec<WebSocketFrame>, bool))
    ensures
        frame.opcode == WebSocketOpcode::Text ==> r.1 == false && r.0@.len() == 1 && r.0@[0]@
            == (crate::websocket::WebSocketFrameV {
            fin: true,
            opcode: WebSocketOpcode::Text,
            mask: false,
            payload: frame@.payload,
        }),
        frame.opcode == WebSocketOpcode::Binary ==> r.1 == false && r.0@.len() == 1 && r.0@[0]@
            == (crate::websocket::WebSocketFrameV {
            fin: true,
            opcode: WebSocketOpcode::Binary,
            mask: false,
            payload: frame@.payload,
        }),
        frame.opcode == WebSocketOpcode::Close ==> r.1 == true && r.0@.len() == 1 && r.0@[0]@
            == (crate::websocket::WebSocketFrameV {
            fin: true,
            opcode: WebSocketOpcode::Close,
            mask: false,
            payload: Seq::empty(),
        }),
        frame.opcode == WebSocketOpcode::Ping ==> r.1 == false && r.0@.len() == 1 && r.0@[0]@
            == (crate::websocket::WebSocketFrameV {
            fin: true,
            opcode: WebSocketOpcode::Pong,
            mask: false,
            payload: frame@.payload,
        }),
        frame.opcode == WebSocketOpcode::Pong || frame.opcode == WebSocketOpcode::Continuation
            ==> r.1 == false && r.0@.len() == 0,
{
    let mut replies: Vec<WebSocketFrame> = Vec::new();
    match frame.opcode {
        WebSocketOpcode::Text => {
            replies.push(WebSocketFrame::new(WebSocketOpcode::Text, copy_payload(&frame.payload), true));
            (replies, false)
        },
        WebSocketOpcode::Binary => {
            replies.push(
                WebSocketFrame::new(WebSocketOpcode::Binary, copy_payload(&frame.payload), true),
            );
            (replies, false)
        },
        WebSocketOpcode::Close => {
            let empty: Vec<u8> = Vec::new();
            assert(empty@ =~= Seq::<u8>::empty());
            replies.push(WebSocketFrame::new(WebSocketOpcode::Close, empty, true));
            (replies, true)
        },
        WebSocketOpcode::Ping => {
            replies.push(
                WebSocketFrame::new(WebSocketOpcode::Pong, copy_payload(&frame.payload), true),
            );
            (replies, false)
        },
        WebSocketOpcode::Pong => (replies, false),
        WebSocketOpcode::Continuation => (replies, false),
    }
}

/// The answer to one HTTP/3 request: the accept digest for a WebSocket
/// upgrade, or nothing when the request is not an upgrade and gets the
/// static status page instead.
pub fn upgrade_accept(h: &UpgradeHeaders) -> (r: Option<String>)
    ensures
        r is Some <==> spec_is_upgrade_request(*h),
        r matches Some(k) ==> (h.sec_websocket_key matches Some(key) && k@ == accept_key_of(
            encode_utf8(key@),
        )),
{
    if !is_websocket_upgrade_request(h) {
        return None;
    }
    match &h.sec_websocket_key {
        Some(key) => Some(generate_websocket_accept(key.as_str())),
        None => None,
    }
}

/// The welcome text sent right after a successful upgrade.
pub fn welcome_message(server_name: &str) -> (r: String)
    ensures
        r@ == "Welcome to "@ + server_name@ + " (HTTP/3 WebSocket)!"@,
{
    String::from_str("Welcome to ").concat(server_name).concat(" (HTTP/3 WebSocket)!")
}

/// The static status page served to requests that are not upgrades.
pub fn status_page() -> (r: String)
    ensures
        r@
            == "<!DOCTYPE html><html><head><title>QUIC WebSocket Server (HTTP/3)</title></head><body><h1>QUIC WebSocket Server (HTTP/3)</h1><p>This server supports WebSocket over HTTP/3.</p><p>Use a compatible WebSocket client to connect.</p></body></html>"@,
{
    "<!DOCTYPE html><html><head><title>QUIC WebSocket Server (HTTP/3)</title></head><body><h1>QUIC WebSocket Server (HTTP/3)</h1><p>This server supports WebSocket over HTTP/3.</p><p>Use a compatible WebSocket client to connect.</p></body></html>".to_owned()
}

} // verus!
