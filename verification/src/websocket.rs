//! RFC 6455 WebSocket framing: a pure encoder and decoder for frames over
//! a byte buffer (7/16/64-bit length forms, masking, control frames), the
//! `Sec-WebSocket-Accept` digest, and the upgrade-request header check.

use vstd::prelude::*;
use vstd::utf8::encode_utf8;
use vstd::string::StringSliceAdditionalSpecFns;
use crate::bytes_be::{
    u16_be_bytes, u64_be_bytes, seq_u16_be, seq_u64_be, push_u16_be, push_u64_be, read_u16_be,
    read_u64_be, lemma_u16_be_round_trip, lemma_u64_be_round_trip,
};
use sha1::{Digest, Sha1};
use base64::Engine;

verus! {

/// RFC 6455 frame opcodes.
#[derive(Clone, Copy, PartialEq, Eq, Structural, Debug)]
pub enum WebSocketOpcode {
    Continuation,
    Text,
    Binary,
    Close,
    Ping,
    Pong,
}

/// The number an opcode stands for on the wire.
pub open spec fn opcode_value(op: WebSocketOpcode) -> u8 {
    match op {
        WebSocketOpcode::Continuation => 0x0,
        WebSocketOpcode::Text => 0x1,
        WebSocketOpcode::Binary => 0x2,
        WebSocketOpcode::Close => 0x8,
        WebSocketOpcode::Ping => 0x9,
        WebSocketOpcode::Pong => 0xA,
    }
}

/// The opcode read from a first header byte: its low nibble, with every
/// unassigned number falling back to `Close`.
pub open spec fn opcode_of(value: u8) -> WebSocketOpcode {
    let n = value & 0x0F;
    if n == 0x0 {
        WebSocketOpcode::Continuation
    } else if n == 0x1 {
        WebSocketOpcode::Text
    } else if n == 0x2 {
        WebSocketOpcode::Binary
    } else if n == 0x8 {
        WebSocketOpcode::Close
    } else if n == 0x9 {
        WebSocketOpcode::Ping
    } else if n == 0xA {
        WebSocketOpcode::Pong
    } else {
        WebSocketOpcode::Close
    }
}

impl From<u8> for WebSocketOpcode {
    fn from(value: u8) -> Self {
        let n = value & 0x0F;
        if n == 0x0 {
            WebSocketOpcode::Continuation
        } else if n == 0x1 {
            WebSocketOpcode::Text
        } else if n == 0x2 {
            WebSocketOpcode::Binary
        } else if n == 0x8 {
            WebSocketOpcode::Close
        } else if n == 0x9 {
            WebSocketOpcode::Ping
        } else if n == 0xA {
            WebSocketOpcode::Pong
        } else {
            WebSocketOpcode::Close
        }
    }
}

impl vstd::std_specs::convert::FromSpecImpl<u8> for WebSocketOpcode {
    open spec fn obeys_from_spec() -> bool {
        true
    }

    open spec fn from_spec(value: u8) -> Self {
        opcode_of(value)
    }
}

impl WebSocketOpcode {
    /// The wire number of this opcode.
    pub fn value(self) -> (r: u8)
        ensures
            r == opcode_value(self),
    {
        match self {
            WebSocketOpcode::Continuation => 0x0,
            WebSocketOpcode::Text => 0x1,
            WebSocketOpcode::Binary => 0x2,
            WebSocketOpcode::Close => 0x8,
            WebSocketOpcode::Ping => 0x9,
            WebSocketOpcode::Pong => 0xA,
        }
    }
}

/// Ghost model of a parsed frame.
pub struct WebSocketFrameV {
    pub fin: bool,
    pub opcode: WebSocketOpcode,
    pub mask: bool,
    pub payload: Seq<u8>,
}

/// One WebSocket frame. `mask` records whether the frame travels masked;
/// `masking_key` holds the 4-byte key of a masked frame; the payload is
/// always stored unmasked.
#[derive(Clone, Debug)]
pub struct WebSocketFrame {
    pub fin: bool,
    pub opcode: WebSocketOpcode,
    pub mask: bool,
    pub masking_key: Option<[u8; 4]>,
    pub payload: Vec<u8>,
}

impl View for WebSocketFrame {
    type V = WebSocketFrameV;

    open spec fn view(&self) -> WebSocketFrameV {
        WebSocketFrameV {
            fin: self.fin,
            opcode: self.opcode,
            mask: self.mask,
            payload: self.payload@,
        }
    }
}

/// A payload XOR-masked with a 4-byte key, byte `i` with `key[i % 4]`.
pub open spec fn mask_bytes(payload: Seq<u8>, key: Seq<u8>) -> Seq<u8> {
    Seq::new(payload.len(), |i: int| payload[i] ^ key[i % 4])
}

/// The frame header for a payload of `len` bytes: first byte carries the
/// fin bit and opcode, the second the mask bit and the short length, with
/// 16- or 64-bit big-endian extensions for longer payloads.
pub open spec fn ws_header(fin: bool, opcode: WebSocketOpcode, masked: bool, len: nat) -> Seq<u8> {
    let finbit = if fin {
        0x80u8
    } else {
        0x00u8
    };
    let b0 = (finbit | opcode_value(opcode)) as u8;
    let mbit = if masked {
        0x80u8
    } else {
        0x00u8
    };
    if len < 126 {
        seq![b0, (mbit | len as u8) as u8]
    } else if len < 65536 {
        seq![b0, (mbit | 126u8) as u8] + u16_be_bytes(len as u16)
    } else {
        seq![b0, (mbit | 127u8) as u8] + u64_be_bytes(len as u64)
    }
}

/// The canonical encoding of a frame: the header, then (when masked) the
/// key and the masked payload, else the payload itself.
pub open spec fn spec_ws_encode(
    fin: bool,
    opcode: WebSocketOpcode,
    payload: Seq<u8>,
    masked: bool,
    key: Seq<u8>,
) -> Seq<u8> {
    ws_header(fin, opcode, masked, payload.len()) + (if masked {
        key + mask_bytes(payload, key)
    } else {
        payload
    })
}

/// Parse past the header: read the key and payload and unmask if needed.
/// `cur` is the position after the length field, `plen` the payload length.
pub open spec fn spec_ws_parse_rest(
    data: Seq<u8>,
    fin: bool,
    opcode: WebSocketOpcode,
    masked: bool,
    plen: int,
    cur: int,
) -> Option<(WebSocketFrameV, int)> {
    if masked {
        if data.len() < cur + 4 {
            None
        } else {
            let key = data.subrange(cur, cur + 4);
            if data.len() < cur + 4 + plen {
                None
            } else {
                let raw = data.subrange(cur + 4, cur + 4 + plen);
                Some(
                    (
                        WebSocketFrameV { fin, opcode, mask: true, payload: mask_bytes(raw, key) },
                        cur + 4 + plen,
                    ),
                )
            }
        }
    } else {
        if data.len() < cur + plen {
            None
        } else {
            Some(
                (
                    WebSocketFrameV {
                        fin,
                        opcode,
                        mask: false,
                        payload: data.subrange(cur, cur + plen),
                    },
                    cur + plen,
                ),
            )
        }
    }
}

/// The frame parsed from the front of a buffer, with the bytes consumed,
/// or nothing when more data is needed.
pub open spec fn spec_ws_parse(data: Seq<u8>) -> Option<(WebSocketFrameV, int)> {
    if data.len() < 2 {
        None
    } else {
        let b0 = data[0];
        let b1 = data[1];
        let fin = (b0 & 0x80) != 0;
        let opcode = opcode_of(b0);
        let masked = (b1 & 0x80) != 0;
        let short = b1 & 0x7F;
        if short == 126 {
            if data.len() < 4 {
                None
            } else {
                spec_ws_parse_rest(data, fin, opcode, masked, seq_u16_be(data.skip(2)) as int, 4)
            }
        } else if short == 127 {
            if data.len() < 10 {
                None
            } else {
                spec_ws_parse_rest(data, fin, opcode, masked, seq_u64_be(data.skip(2)) as int, 10)
            }
        } else {
            spec_ws_parse_rest(data, fin, opcode, masked, short as int, 2)
        }
    }
}

impl WebSocketFrame {
    /// A new server-side frame: server frames are sent unmasked.
    pub fn new(opcode: WebSocketOpcode, payload: Vec<u8>, fin: bool) -> (r: WebSocketFrame)
        ensures
            r@.fin == fin,
            r@.opcode == opcode,
            r@.mask == false,
            r@.payload == payload@,
            r.masking_key is None,
    {
        WebSocketFrame { fin, opcode, mask: false, masking_key: None, payload }
    }

    /// A new client-side frame, to be masked with `key` on the wire.
    pub fn new_masked(opcode: WebSocketOpcode, payload: Vec<u8>, fin: bool, key: [u8; 4]) -> (r:
        WebSocketFrame)
        ensures
            r@.fin == fin,
            r@.opcode == opcode,
            r@.mask == true,
            r@.payload == payload@,
            r.masking_key == Some(key),
    {
        WebSocketFrame { fin, opcode, mask: true, masking_key: Some(key), payload }
    }

    /// Encode the frame for the wire. A frame with the mask flag and a key
    /// is emitted masked: the mask bit set, the key after the length, the
    /// payload XORed with it. Any other frame is emitted unmasked, as a
    /// server sends it.
    pub fn to_bytes(&self) -> (r: Vec<u8>)
        ensures
            (self.mask && self.masking_key is Some) ==> (self.masking_key matches Some(k) && r@
                == spec_ws_encode(self.fin, self.opcode, self.payload@, true, k@)),
            !(self.mask && self.masking_key is Some) ==> r@ == spec_ws_encode(
                self.fin,
                self.opcode,
                self.payload@,
                false,
                Seq::empty(),
            ),
    {
        let mut out: Vec<u8> = Vec::new();
        let finbit = if self.fin {
            0x80u8
        } else {
            0x00u8
        };
        let b0 = finbit | self.opcode.value();
        out.push(b0);
        let len = self.payload.len();
        if self.mask {
            match &self.masking_key {
                Some(key) => {
                    if len < 126 {
                        out.push(0x80u8 | (len as u8));
                    } else if len < 65536 {
                        out.push(0x80u8 | 126u8);
                        push_u16_be(&mut out, len as u16);
                    } else {
                        out.push(0x80u8 | 127u8);
                        push_u64_be(&mut out, len as u64);
                    }
                    assert(out@ =~= ws_header(self.fin, self.opcode, true, self.payload@.len()));
                    let ghost hdr = out@;
                    out.push(key[0]);
                    out.push(key[1]);
                    out.push(key[2]);
                    out.push(key[3]);
                    assert(key@.len() == 4);
                    assert(out@ =~= hdr + key@);
                    let ghost with_key = out@;
                    let mut i: usize = 0;
                    while i < len
                        invariant
                            len == self.payload@.len(),
                            i <= len,
                            key@.len() == 4,
                            out@ == with_key + mask_bytes(self.payload@, key@).take(i as int),
                        decreases len - i,
                    {
                        let b = self.payload[i] ^ key[i % 4];
                        assert(b == mask_bytes(self.payload@, key@)[i as int]);
                        out.push(b);
                        assert(out@ =~= with_key + mask_bytes(self.payload@, key@).take(
                            i as int + 1,
                        ));
                        i += 1;
                    }
                    assert(mask_bytes(self.payload@, key@).take(len as int) =~= mask_bytes(
                        self.payload@,
                        key@,
                    ));
                    assert(out@ =~= spec_ws_encode(
                        self.fin,
                        self.opcode,
                        self.payload@,
                        true,
                        key@,
                    ));
                    return out;
                },
                None => {},
            }
        }
        if len < 126 {
            out.push(0x00u8 | (len as u8));
        } else if len < 65536 {
            out.push(0x00u8 | 126u8);
            push_u16_be(&mut out, len as u16);
        } else {
            out.push(0x00u8 | 127u8);
            push_u64_be(&mut out, len as u64);
        }
        assert(out@ =~= ws_header(self.fin, self.opcode, false, self.payload@.len()));
        out.extend_from_slice(self.payload.as_slice());
        assert(out@ =~= spec_ws_encode(self.fin, self.opcode, self.payload@, false, Seq::empty()));
        out
    }

    /// Parse one frame from the front of `data`. Returns the frame, its
    /// payload unmasked, and the bytes consumed; or nothing when the
    /// buffer holds no complete frame yet. Never fails on truncation.
    pub fn parse(data: &[u8]) -> (r: Option<(WebSocketFrame, usize)>)
        ensures
            match r {
                Some(p) => spec_ws_parse(data@) == Some((p.0@, p.1 as int)) && p.1 <= data@.len()
                    && (p.0.mask <==> p.0.masking_key is Some) && (p.0.masking_key matches Some(k)
                    ==> mask_bytes(p.0.payload@, k@) == data@.subrange(
                    p.1 - p.0.payload@.len(),
                    p.1 as int,
                )),
                None => spec_ws_parse(data@) is None,
            },
    {
        let dlen = data.len();
        if dlen < 2 {
            return None;
        }
        let b0 = data[0];
        let b1 = data[1];
        let fin = (b0 & 0x80) != 0;
        let opcode = WebSocketOpcode::from(b0);
        let masked = (b1 & 0x80) != 0;
        let short = b1 & 0x7F;
        let plen: u64;
        let cur: usize;
        if short == 126 {
            if dlen < 4 {
                return None;
            }
            plen = read_u16_be(data, 2) as u64;
            cur = 4;
        } else if short == 127 {
            if dlen < 10 {
                return None;
            }
            plen = read_u64_be(data, 2);
            cur = 10;
        } else {
            plen = short as u64;
            cur = 2;
        }
        let ghost plen_g = plen as int;
        let ghost cur_g = cur as int;
        assert(spec_ws_parse(data@) == spec_ws_parse_rest(
            data@,
            fin,
            opcode,
            masked,
            plen_g,
            cur_g,
        ));
        if masked {
            if dlen - cur < 4 {
                return None;
            }
            let key0 = data[cur];
            let key1 = data[cur + 1];
            let key2 = data[cur + 2];
            let key3 = data[cur + 3];
            let after_key = cur + 4;
            if ((dlen - after_key) as u64) < plen {
                return None;
            }
            let n = plen as usize;
            let ghost key_g = data@.subrange(cur_g, cur_g + 4);
            assert(key_g[0] == data@[cur_g]);
            assert(key_g[1] == data@[cur_g + 1]);
            assert(key_g[2] == data@[cur_g + 2]);
            assert(key_g[3] == data@[cur_g + 3]);
            let mut payload: Vec<u8> = Vec::new();
            let mut i: usize = 0;
            while i < n
                invariant
                    i <= n,
                    after_key + n <= data@.len(),
                    after_key + n <= usize::MAX,
                    after_key == cur_g + 4,
                    key0 == key_g[0] && key1 == key_g[1] && key2 == key_g[2] && key3 == key_g[3],
                    key_g.len() == 4,
                    payload@ == mask_bytes(
                        data@.subrange(cur_g + 4, cur_g + 4 + n as int),
                        key_g,
                    ).take(i as int),
                decreases n - i,
            {
                let k = match i % 4 {
                    0 => key0,
                    1 => key1,
                    2 => key2,
                    _ => key3,
                };
                assert(k == key_g[(i % 4) as int]) by {
                    assert(i % 4 < 4);
                };
                let b = data[after_key + i] ^ k;
                payload.push(b);
                assert(data@.subrange(cur_g + 4, cur_g + 4 + n as int)[i as int] == data@[cur_g + 4
                    + i]);
                assert(payload@ =~= mask_bytes(
                    data@.subrange(cur_g + 4, cur_g + 4 + n as int),
                    key_g,
                ).take(i as int + 1));
                i += 1;
            }
            assert(payload@ =~= mask_bytes(data@.subrange(cur_g + 4, cur_g + 4 + n as int), key_g));
            let key_arr = [key0, key1, key2, key3];
            proof {
                assert(key_arr@.len() == 4);
                assert(key_arr@[0] == key0 && key_arr@[1] == key1 && key_arr@[2] == key2
                    && key_arr@[3] == key3);
                assert(key_arr@ =~= key_g);
                lemma_mask_involution(data@.subrange(cur_g + 4, cur_g + 4 + n as int), key_g);
            }
            Some(
                (
                    WebSocketFrame {
                        fin,
                        opcode,
                        mask: true,
                        masking_key: Some(key_arr),
                        payload,
                    },
                    after_key + n,
                ),
            )
        } else {
            if ((dlen - cur) as u64) < plen {
                return None;
            }
            let n = plen as usize;
            let sub = vstd::slice::slice_subrange(data, cur, cur + n);
            let payload = vstd::slice::slice_to_vec(sub);
            Some((WebSocketFrame { fin, opcode, mask: false, masking_key: None, payload }, cur + n))
        }
    }
}

// ---------------------------------------------------------------------------
// Round trip and partial-parse lemmas.
// ---------------------------------------------------------------------------

/// Masking twice with the same key gives the payload back.
proof fn lemma_mask_involution(payload: Seq<u8>, key: Seq<u8>)
    requires
        key.len() == 4,
    ensures
        mask_bytes(mask_bytes(payload, key), key) == payload,
{
    assert(forall|x: u8, y: u8| (x ^ y) ^ y == x) by (bit_vector);
    assert(mask_bytes(mask_bytes(payload, key), key) =~= payload);
}

/// The first header byte gives back the fin bit and the opcode.
proof fn lemma_ws_first_byte(fin: bool, opcode: WebSocketOpcode)
    ensures
        ({
            let finbit = if fin {
                0x80u8
            } else {
                0x00u8
            };
            let b0 = (finbit | opcode_value(opcode)) as u8;
            &&& ((b0 & 0x80) != 0) == fin
            &&& opcode_of(b0) == opcode
        }),
{
    let finbit = if fin {
        0x80u8
    } else {
        0x00u8
    };
    let v = opcode_value(opcode);
    let b0 = (finbit | v) as u8;
    assert(v <= 0x0F);
    assert((finbit == 0x80u8 || finbit == 0x00u8) && v <= 0x0F ==> (((finbit | v) as u8 & 0x80)
        != 0) == (finbit == 0x80u8) && ((finbit | v) as u8 & 0x0F) == v) by (bit_vector);
    assert((b0 & 0x0F) == v);
}

/// The second header byte gives back the mask bit and the short length.
proof fn lemma_ws_second_byte(masked: bool, s: u8)
    requires
        s <= 0x7F,
    ensures
        ({
            let mbit = if masked {
                0x80u8
            } else {
                0x00u8
            };
            let b1 = (mbit | s) as u8;
            &&& ((b1 & 0x80) != 0) == masked
            &&& (b1 & 0x7F) == s
        }),
{
    let mbit = if masked {
        0x80u8
    } else {
        0x00u8
    };
    assert((mbit == 0x80u8 || mbit == 0x00u8) && s <= 0x7F ==> (((mbit | s) as u8 & 0x80) != 0) == (
    mbit == 0x80u8) && ((mbit | s) as u8 & 0x7F) == s) by (bit_vector);
}

/// Parsing past a header consumes the key and payload exactly.
proof fn lemma_ws_parse_rest_enc(
    data: Seq<u8>,
    fin: bool,
    opcode: WebSocketOpcode,
    masked: bool,
    payload: Seq<u8>,
    key: Seq<u8>,
    cur: int,
)
    requires
        key.len() == 4,
        0 <= cur,
        data.len() == cur + (if masked {
            4 + payload.len()
        } else {
            payload.len()
        }),
        data.skip(cur) == (if masked {
            key + mask_bytes(payload, key)
        } else {
            payload
        }),
    ensures
        spec_ws_parse_rest(data, fin, opcode, masked, payload.len() as int, cur) == Some(
            (WebSocketFrameV { fin, opcode, mask: masked, payload }, data.len() as int),
        ),
{
    let plen = payload.len() as int;
    let bodylen: int = if masked {
        4 + plen
    } else {
        plen
    };
    assert(forall|i: int| 0 <= i < bodylen ==> data[cur + i] == data.skip(cur)[i]);
    if masked {
        assert forall|i: int| 0 <= i < 4 implies data[cur + i] == key[i] by {
            assert(data.skip(cur)[i] == (key + mask_bytes(payload, key))[i]);
        };
        assert(data.subrange(cur, cur + 4) =~= key);
        assert forall|i: int| 0 <= i < plen implies data[cur + 4 + i] == mask_bytes(
            payload,
            key,
        )[i] by {
            assert(data[cur + (4 + i)] == data.skip(cur)[4 + i]);
            assert(data.skip(cur)[4 + i] == (key + mask_bytes(payload, key))[4 + i]);
        };
        assert(data.subrange(cur + 4, cur + 4 + plen) =~= mask_bytes(payload, key));
        lemma_mask_involution(payload, key);
    } else {
        assert(data.subrange(cur, cur + plen) =~= payload);
    }
}

/// WebSocket codec round trip: parsing the encoding of any frame, masked
/// or not, yields a frame with the same fin, opcode, mask flag and payload,
/// consuming the whole encoding.
pub proof fn lemma_ws_round_trip(
    fin: bool,
    opcode: WebSocketOpcode,
    payload: Seq<u8>,
    masked: bool,
    key: Seq<u8>,
)
    requires
        key.len() == 4,
        payload.len() <= u64::MAX,
    ensures
        spec_ws_parse(spec_ws_encode(fin, opcode, payload, masked, key)) == Some(
            (
                WebSocketFrameV { fin, opcode, mask: masked, payload },
                spec_ws_encode(fin, opcode, payload, masked, key).len() as int,
            ),
        ),
{
    let hdr = ws_header(fin, opcode, masked, payload.len());
    let body = if masked {
        key + mask_bytes(payload, key)
    } else {
        payload
    };
    let b = spec_ws_encode(fin, opcode, payload, masked, key);
    assert(b == hdr + body);
    let len = payload.len();
    lemma_ws_first_byte(fin, opcode);
    let mbit = if masked {
        0x80u8
    } else {
        0x00u8
    };
    if len < 126 {
        lemma_ws_second_byte(masked, len as u8);
        assert(hdr.len() == 2);
        assert(b[0] == hdr[0] && b[1] == hdr[1]);
        assert((b[1] & 0x7F) == len as u8);
        assert((len as u8) as int == len);
        assert(len as u8 != 126 && len as u8 != 127);
        assert(b.skip(2) =~= body);
        lemma_ws_parse_rest_enc(b, fin, opcode, masked, payload, key, 2);
    } else if len < 65536 {
        lemma_ws_second_byte(masked, 126u8);
        assert(hdr.len() == 4);
        assert(b[0] == hdr[0] && b[1] == hdr[1]);
        assert((b[1] & 0x7F) == 126u8);
        lemma_u16_be_round_trip(len as u16);
        assert(forall|i: int| 0 <= i < 2 ==> b.skip(2)[i] == u16_be_bytes(len as u16)[i]);
        assert(seq_u16_be(b.skip(2)) == len as u16);
        assert((len as u16) as int == len);
        assert(b.skip(4) =~= body);
        lemma_ws_parse_rest_enc(b, fin, opcode, masked, payload, key, 4);
    } else {
        lemma_ws_second_byte(masked, 127u8);
        assert(hdr.len() == 10);
        assert(b[0] == hdr[0] && b[1] == hdr[1]);
        assert((b[1] & 0x7F) == 127u8);
        lemma_u64_be_round_trip(len as u64);
        assert(forall|i: int| 0 <= i < 8 ==> b.skip(2)[i] == u64_be_bytes(len as u64)[i]);
        assert(seq_u64_be(b.skip(2)) == len as u64);
        assert((len as u64) as int == len);
        assert(b.skip(10) =~= body);
        lemma_ws_parse_rest_enc(b, fin, opcode, masked, payload, key, 10);
    }
}

/// Partial parse: every strict prefix of an encoded frame parses to
/// "need more data", never to a frame.
pub proof fn lemma_ws_parse_prefix(
    fin: bool,
    opcode: WebSocketOpcode,
    payload: Seq<u8>,
    masked: bool,
    key: Seq<u8>,
    k: int,
)
    requires
        key.len() == 4,
        payload.len() <= u64::MAX,
        0 <= k < spec_ws_encode(fin, opcode, payload, masked, key).len(),
    ensures
        spec_ws_parse(spec_ws_encode(fin, opcode, payload, masked, key).take(k)) is None,
{
    let b = spec_ws_encode(fin, opcode, payload, masked, key);
    let p = b.take(k);
    let hdr = ws_header(fin, opcode, masked, payload.len());
    let len = payload.len();
    let bodylen: int = if masked {
        4 + len as int
    } else {
        len as int
    };
    assert(b.len() == hdr.len() + bodylen);
    if k < 2 {
    } else {
        assert(p[0] == b[0] && p[1] == b[1]);
        let mbit = if masked {
            0x80u8
        } else {
            0x00u8
        };
        if len < 126 {
            lemma_ws_second_byte(masked, len as u8);
            assert(hdr.len() == 2);
            assert((p[1] & 0x7F) == len as u8 && len as u8 != 126 && len as u8 != 127);
            assert(p.len() < 2 + bodylen);
        } else if len < 65536 {
            lemma_ws_second_byte(masked, 126u8);
            assert(hdr.len() == 4);
            assert((p[1] & 0x7F) == 126u8);
            if k >= 4 {
                assert(forall|i: int| 0 <= i < 2 ==> p.skip(2)[i] == u16_be_bytes(len as u16)[i]);
                lemma_u16_be_round_trip(len as u16);
                assert(seq_u16_be(p.skip(2)) == len as u16);
                assert(p.len() < 4 + bodylen);
            }
        } else {
            lemma_ws_second_byte(masked, 127u8);
            assert(hdr.len() == 10);
            assert((p[1] & 0x7F) == 127u8);
            if k >= 10 {
                assert(forall|i: int| 0 <= i < 8 ==> p.skip(2)[i] == u64_be_bytes(len as u64)[i]);
                lemma_u64_be_round_trip(len as u64);
                assert(seq_u64_be(p.skip(2)) == len as u64);
                assert(p.len() < 10 + bodylen);
            }
        }
    }
}

// ---------------------------------------------------------------------------
// Sec-WebSocket-Accept digest.
// ---------------------------------------------------------------------------

/// The SHA-1 digest of a byte sequence, a function of the bytes alone.
pub uninterp spec fn sha1_of(data: Seq<u8>) -> Seq<u8>;

/// The standard-alphabet base64 rendering of a byte sequence, a function
/// of the bytes alone.
pub uninterp spec fn base64_std_of(data: Seq<u8>) -> Seq<char>;

/// Relies on the `sha1` crate's `Sha1` (`new`, `update`, `finalize`): the
/// digest is a function of the input bytes alone and is 20 bytes long.
#[verifier::external_body]
fn sha1_digest(data: &[u8]) -> (r: Vec<u8>)
    ensures
        r@ == sha1_of(data@),
        r@.len() == 20,
{
    let mut hasher = Sha1::new();
    hasher.update(data);
    hasher.finalize().to_vec()
}

/// Relies on `base64`'s `general_purpose::STANDARD` engine: `encode` is a
/// function of the input bytes alone, and the padded standard encoding is
/// four characters for every started group of three bytes.
#[verifier::external_body]
fn base64_encode(data: &[u8]) -> (r: String)
    ensures
        r@ == base64_std_of(data@),
        r@.len() == 4 * ((data@.len() + 2) / 3),
{
    base64::engine::general_purpose::STANDARD.encode(data)
}

/// The accept digest a server returns for a client key: base64 of the
/// SHA-1 of the key bytes followed by the RFC 6455 magic string.
pub open spec fn accept_key_of(key: Seq<u8>) -> Seq<char> {
    base64_std_of(sha1_of(key + encode_utf8("258EAFA5-E914-47DA-95CA-C5AB0DC85B11"@)))
}

/// Compute the `Sec-WebSocket-Accept` value for a client's key: 28
/// characters of base64 over the 20-byte digest.
pub fn generate_websocket_accept(key: &str) -> (r: String)
    ensures
        r@ == accept_key_of(key.spec_bytes()),
        r@.len() == 28,
{
    let mut input: Vec<u8> = Vec::new();
    input.extend_from_slice(key.as_bytes());
    input.extend_from_slice("258EAFA5-E914-47DA-95CA-C5AB0DC85B11".as_bytes());
    assert(input@ =~= key.spec_bytes() + encode_utf8(
        "258EAFA5-E914-47DA-95CA-C5AB0DC85B11"@,
    ));
    let hash = sha1_digest(input.as_slice());
    base64_encode(hash.as_slice())
}

// ---------------------------------------------------------------------------
// Upgrade-request check.
// ---------------------------------------------------------------------------

/// The request headers the upgrade check reads, as plain optional strings.
/// A `None` field stands for a missing header.
#[derive(Clone, Debug)]
pub struct UpgradeHeaders {
    pub upgrade: Option<String>,
    pub connection: Option<String>,
    pub sec_websocket_version: Option<String>,
    pub sec_websocket_key: Option<String>,
}

/// An ASCII byte lowered: letters `A`..`Z` gain 32, all else unchanged.
pub open spec fn lower_byte(b: u8) -> u8 {
    if 65 <= b && b <= 90 {
        (b + 32) as u8
    } else {
        b
    }
}

/// A byte sequence lowered byte by byte.
pub open spec fn lower_bytes(s: Seq<u8>) -> Seq<u8> {
    s.map_values(|b: u8| lower_byte(b))
}

/// `n` occurs in `h` starting at `i`.
pub open spec fn occurs_at(h: Seq<u8>, n: Seq<u8>, i: int) -> bool {
    0 <= i && i + n.len() <= h.len() && h.subrange(i, i + n.len()) == n
}

/// `n` occurs somewhere in `h`.
pub open spec fn contains_seq(h: Seq<u8>, n: Seq<u8>) -> bool {
    exists|i: int| occurs_at(h, n, i)
}

/// The headers form a WebSocket upgrade request: `Upgrade: websocket`
/// (case-insensitive), `Connection` containing `upgrade`
/// (case-insensitive), `Sec-WebSocket-Version: 13`, and a key present.
pub open spec fn spec_is_upgrade_request(h: UpgradeHeaders) -> bool {
    &&& match h.upgrade {
        Some(u) => lower_bytes(encode_utf8(u@)) == encode_utf8("websocket"@),
        None => false,
    }
    &&& match h.connection {
        Some(c) => contains_seq(lower_bytes(encode_utf8(c@)), encode_utf8("upgrade"@)),
        None => false,
    }
    &&& match h.sec_websocket_version {
        Some(v) => encode_utf8(v@) == encode_utf8("13"@),
        None => false,
    }
    &&& h.sec_websocket_key is Some
}

fn lower_u8(b: u8) -> (r: u8)
    ensures
        r == lower_byte(b),
{
    if 65 <= b && b <= 90 {
        b + 32
    } else {
        b
    }
}

fn bytes_eq(a: &[u8], b: &[u8]) -> (r: bool)
    ensures
        r == (a@ == b@),
{
    if a.len() != b.len() {
        assert(a@.len() != b@.len());
        return false;
    }
    let n = a.len();
    let mut i: usize = 0;
    while i < n
        invariant
            n == a@.len() == b@.len(),
            i <= n,
            forall|j: int| 0 <= j < i ==> a@[j] == b@[j],
        decreases n - i,
    {
        if a[i] != b[i] {
            return false;
        }
        i += 1;
    }
    assert(a@ =~= b@);
    true
}

fn lower_eq(value: &[u8], target: &[u8]) -> (r: bool)
    ensures
        r == (lower_bytes(value@) == target@),
{
    if value.len() != target.len() {
        assert(lower_bytes(value@).len() != target@.len());
        return false;
    }
    let n = value.len();
    let mut i: usize = 0;
    while i < n
        invariant
            n == value@.len() == target@.len(),
            i <= n,
            forall|j: int| 0 <= j < i ==> lower_bytes(value@)[j] == target@[j],
        decreases n - i,
    {
        if lower_u8(value[i]) != target[i] {
            assert(lower_bytes(value@)[i as int] != target@[i as int]);
            return false;
        }
        i += 1;
    }
    assert(lower_bytes(value@) =~= target@);
    true
}

fn lower_contains(hay: &[u8], needle: &[u8]) -> (r: bool)
    ensures
        r == contains_seq(lower_bytes(hay@), needle@),
{
    let hn = hay.len();
    let nn = needle.len();
    let ghost lh = lower_bytes(hay@);
    if nn > hn {
        assert(forall|i: int| !occurs_at(lh, needle@, i));
        return false;
    }
    if nn == 0 {
        assert(lh.subrange(0, 0) =~= needle@);
        assert(occurs_at(lh, needle@, 0));
        return true;
    }
    let mut i: usize = 0;
    while i <= hn - nn
        invariant
            1 <= nn,
            nn <= hn,
            hn == hay@.len(),
            nn == needle@.len(),
            lh == lower_bytes(hay@),
            i <= hn - nn + 1,
            forall|j: int| 0 <= j < i ==> !occurs_at(lh, needle@, j),
        decreases hn - nn + 1 - i,
    {
        let mut j: usize = 0;
        let mut found = true;
        while j < nn
            invariant
                nn <= hn,
                hn == hay@.len(),
                nn == needle@.len(),
                lh == lower_bytes(hay@),
                i + nn <= hn,
                j <= nn,
                found ==> forall|t: int| 0 <= t < j ==> lh[i + t] == needle@[t],
                !found ==> !occurs_at(lh, needle@, i as int),
            decreases nn - j,
        {
            if lower_u8(hay[i + j]) != needle[j] {
                assert(lh[i + j] != needle@[j as int]);
                assert(!occurs_at(lh, needle@, i as int)) by {
                    if occurs_at(lh, needle@, i as int) {
                        assert(lh.subrange(i as int, i + nn)[j as int] == lh[i + j]);
                    }
                };
                found = false;
                j = nn;
            } else {
                j += 1;
            }
        }
        if found {
            assert(lh.subrange(i as int, i + nn) =~= needle@);
            assert(occurs_at(lh, needle@, i as int));
            return true;
        }
        i += 1;
    }
    assert forall|j: int| !occurs_at(lh, needle@, j) by {
        if j >= i as int {
            assert(j + needle@.len() > lh.len());
        }
    };
    false
}

/// Check whether the headers form a valid WebSocket upgrade request.
pub fn is_websocket_upgrade_request(h: &UpgradeHeaders) -> (r: bool)
    ensures
        r == spec_is_upgrade_request(*h),
{
    let up_ok = match &h.upgrade {
        Some(u) => lower_eq(u.as_str().as_bytes(), "websocket".as_bytes()),
        None => false,
    };
    let conn_ok = match &h.connection {
        Some(c) => lower_contains(c.as_str().as_bytes(), "upgrade".as_bytes()),
        None => false,
    };
    let ver_ok = match &h.sec_websocket_version {
        Some(v) => bytes_eq(v.as_str().as_bytes(), "13".as_bytes()),
        None => false,
    };
    let key_ok = h.sec_websocket_key.is_some();
    up_ok && conn_ok && ver_ok && key_ok
}

/// Lifecycle states of an HTTP/3 WebSocket connection.
#[derive(Debug, Clone, Copy, PartialEq, Eq, Structural)]
pub enum WebSocketState {
    Connecting,
    Open,
    Closing,
    Closed,
}


} // verus!
