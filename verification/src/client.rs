//! The session registry: per-client records with lifecycle state, topic
//! subscriptions and liveness marks, and the manager that admits, looks
//! up, mutates and reaps them and prepares outbound wire bytes.

use vstd::prelude::*;
use crate::message::{ClientId, ClientInfo, ClientInfoV, MessageFrame, opt_string_view, strings_view};
use crate::codec::{wf_frame, enc_frame, wire_bytes};
use crate::message::client_infos_view;
use crate::text::contains_topic;
use vstd::pervasive::VecAdditionalExecFns;

verus! {

/// Lifecycle states of a native-mode session. A session only ever moves
/// forward through this order; `Closed` is terminal.
#[derive(Debug, Clone, Copy, PartialEq, Eq, Structural)]
pub enum ClientState {
    Connecting,
    Connected,
    Closing,
    Closed,
}

/// The position of a state in the lifecycle order.
pub open spec fn state_rank(s: ClientState) -> int {
    match s {
        ClientState::Connecting => 0,
        ClientState::Connected => 1,
        ClientState::Closing => 2,
        ClientState::Closed => 3,
    }
}

/// `a` precedes or equals `b` in the lifecycle order.
pub open spec fn state_le(a: ClientState, b: ClientState) -> bool {
    state_rank(a) <= state_rank(b)
}

fn state_rank_exec(s: ClientState) -> (r: u8)
    ensures
        r == state_rank(s),
{
    match s {
        ClientState::Connecting => 0,
        ClientState::Connected => 1,
        ClientState::Closing => 2,
        ClientState::Closed => 3,
    }
}

/// Ghost model of a [`ClientConnection`].
pub struct ClientConnectionV {
    pub id: u128,
    pub name: Option<Seq<char>>,
    pub conn_handle: u64,
    pub state: ClientState,
    pub connected_at: u64,
    pub last_seen: u64,
    pub message_count: u64,
    pub subscriptions: Seq<Seq<char>>,
    pub dead: bool,
}

/// One admitted client: plain session data plus an opaque handle number
/// that the embedding maps to the underlying QUIC connection. `dead` is
/// set when the connection has reported a close reason, and makes the
/// reaper evict the record.
#[derive(Debug)]
pub struct ClientConnection {
    pub id: ClientId,
    pub name: Option<String>,
    pub conn_handle: u64,
    pub state: ClientState,
    pub connected_at: u64,
    pub last_seen: u64,
    pub message_count: u64,
    pub subscriptions: Vec<String>,
    pub dead: bool,
}

impl View for ClientConnection {
    type V = ClientConnectionV;

    open spec fn view(&self) -> ClientConnectionV {
        ClientConnectionV {
            id: self.id.value,
            name: opt_string_view(self.name),
            conn_handle: self.conn_handle,
            state: self.state,
            connected_at: self.connected_at,
            last_seen: self.last_seen,
            message_count: self.message_count,
            subscriptions: strings_view(self.subscriptions@),
            dead: self.dead,
        }
    }
}

/// The set of topics a session subscribes to.
pub open spec fn topic_set(c: ClientConnectionV) -> Set<Seq<char>> {
    c.subscriptions.to_set()
}

/// A record is well-formed: its topic list holds no duplicates.
pub open spec fn wf_client(c: ClientConnectionV) -> bool {
    c.subscriptions.no_duplicates()
}

/// The public info of a session record.
pub open spec fn info_of(c: ClientConnectionV) -> ClientInfoV {
    ClientInfoV { id: c.id, name: c.name, connected_at: c.connected_at, last_seen: c.last_seen }
}

impl ClientConnection {
    /// A fresh record for an admitted connection, in state `Connecting`.
    pub fn new(id: ClientId, conn_handle: u64, now: u64) -> (r: ClientConnection)
        ensures
            r@ == (ClientConnectionV {
                id: id.value,
                name: None,
                conn_handle,
                state: ClientState::Connecting,
                connected_at: now,
                last_seen: now,
                message_count: 0,
                subscriptions: Seq::empty(),
                dead: false,
            }),
            wf_client(r@),
    {
        let r = ClientConnection {
            id,
            name: None,
            conn_handle,
            state: ClientState::Connecting,
            connected_at: now,
            last_seen: now,
            message_count: 0,
            subscriptions: Vec::new(),
            dead: false,
        };
        assert(strings_view(r.subscriptions@) =~= Seq::<Seq<char>>::empty());
        r
    }

    /// A deep copy whose view equals this record's.
    pub fn duplicate(&self) -> (r: ClientConnection)
        ensures
            r@ == self@,
    {
        let name = match &self.name {
            Some(n) => Some(n.clone()),
            None => None,
        };
        let mut subscriptions: Vec<String> = Vec::new();
        let mut i: usize = 0;
        while i < self.subscriptions.len()
            invariant
                i <= self.subscriptions@.len(),
                subscriptions@ == self.subscriptions@.take(i as int),
            decreases self.subscriptions@.len() - i,
        {
            let cl = self.subscriptions[i].clone();
            subscriptions.push(cl);
            assert(subscriptions@ =~= self.subscriptions@.take(i as int + 1));
            i += 1;
        }
        assert(subscriptions@ =~= self.subscriptions@);
        let r = ClientConnection {
            id: self.id,
            name,
            conn_handle: self.conn_handle,
            state: self.state,
            connected_at: self.connected_at,
            last_seen: self.last_seen,
            message_count: self.message_count,
            subscriptions,
            dead: self.dead,
        };
        r
    }

    /// Record inbound activity now.
    pub fn update_last_seen(&mut self, now: u64)
        ensures
            final(self)@ == (ClientConnectionV { last_seen: now, ..old(self)@ }),
    {
        self.last_seen = now;
    }

    /// Count one more inbound message; the counter pins at its maximum.
    pub fn increment_message_count(&mut self)
        ensures
            final(self)@ == (ClientConnectionV {
                message_count: if old(self)@.message_count < u64::MAX {
                    (old(self)@.message_count + 1) as u64
                } else {
                    old(self)@.message_count
                },
                ..old(self)@
            }),
    {
        if self.message_count < u64::MAX {
            self.message_count = self.message_count + 1;
        }
    }

    /// The wire bytes that send this frame to the client: the length
    /// prefix and the encoded frame. Nothing when the frame cannot be
    /// encoded.
    pub fn send_message(&self, frame: &MessageFrame) -> (r: Option<Vec<u8>>)
        ensures
            r is Some <==> wf_frame(frame@) && enc_frame(frame@).len() <= u32::MAX,
            r matches Some(b) ==> b@ == wire_bytes(frame@),
    {
        frame.to_wire_bytes()
    }

    /// The public info of this session.
    pub fn get_info(&self) -> (r: ClientInfo)
        ensures
            r@ == info_of(self@),
    {
        let name = match &self.name {
            Some(n) => Some(n.clone()),
            None => None,
        };
        ClientInfo {
            id: self.id,
            name,
            connected_at: self.connected_at,
            last_seen: self.last_seen,
        }
    }
}

// ---------------------------------------------------------------------------
// Registry-level spec functions and lemmas.
// ---------------------------------------------------------------------------

/// Session ids are pairwise distinct.
pub open spec fn unique_ids(ss: Seq<ClientConnectionV>) -> bool {
    forall|i: int, j: int| 0 <= i < j < ss.len() ==> ss[i].id != ss[j].id
}

/// Every record is well-formed.
pub open spec fn all_wf(ss: Seq<ClientConnectionV>) -> bool {
    forall|i: int| 0 <= i < ss.len() ==> wf_client(#[trigger] ss[i])
}

/// Some record carries this id.
pub open spec fn seq_has_id(ss: Seq<ClientConnectionV>, id: u128) -> bool {
    exists|i: int| 0 <= i < ss.len() && ss[i].id == id
}

/// The records whose connection has not reported a close reason.
pub open spec fn live_sessions(ss: Seq<ClientConnectionV>) -> Seq<ClientConnectionV> {
    ss.filter(|c: ClientConnectionV| !c.dead)
}

/// The records in state `Connected`: the broadcast fan-out targets.
pub open spec fn connected_targets(ss: Seq<ClientConnectionV>) -> Seq<ClientConnectionV> {
    ss.filter(|c: ClientConnectionV| c.state == ClientState::Connected)
}

/// The connected records subscribed to a topic: the push targets.
pub open spec fn topic_targets(ss: Seq<ClientConnectionV>, t: Seq<char>) -> Seq<ClientConnectionV> {
    ss.filter(|c: ClientConnectionV| c.state == ClientState::Connected && c.subscriptions.contains(t))
}

/// The record a fresh admission inserts.
pub open spec fn fresh_session(id: u128, conn_handle: u64, now: u64) -> ClientConnectionV {
    ClientConnectionV {
        id,
        name: None,
        conn_handle,
        state: ClientState::Connecting,
        connected_at: now,
        last_seen: now,
        message_count: 0,
        subscriptions: Seq::empty(),
        dead: false,
    }
}

proof fn lemma_filter_take_snoc<A>(s: Seq<A>, pred: spec_fn(A) -> bool, j: int)
    requires
        0 <= j < s.len(),
    ensures
        s.take(j + 1).filter(pred) == s.take(j).filter(pred) + (if pred(s[j]) {
            seq![s[j]]
        } else {
            Seq::<A>::empty()
        }),
{
    reveal_with_fuel(Seq::filter, 2);
    assert(s.take(j + 1) =~= s.take(j) + seq![s[j]]);
    Seq::filter_distributes_over_add(s.take(j), seq![s[j]], pred);
    assert(seq![s[j]].drop_last() =~= Seq::<A>::empty());
    assert(Seq::<A>::empty().filter(pred) =~= Seq::<A>::empty());
    assert(seq![s[j]].filter(pred) =~= (if pred(s[j]) {
        seq![s[j]]
    } else {
        Seq::<A>::empty()
    }));
}

proof fn lemma_filter_all_keep<A>(s: Seq<A>, pred: spec_fn(A) -> bool)
    requires
        forall|i: int| 0 <= i < s.len() ==> pred(#[trigger] s[i]),
    ensures
        s.filter(pred) == s,
    decreases s.len(),
{
    reveal_with_fuel(Seq::filter, 2);
    if s.len() == 0 {
        assert(s.filter(pred) =~= s);
    } else {
        lemma_filter_all_keep(s.drop_last(), pred);
        assert(s.filter(pred) =~= s);
    }
}

/// Reaper idempotence: one pass leaves only live records, so a second
/// pass over the result removes nothing.
pub proof fn lemma_reap_idempotent(ss: Seq<ClientConnectionV>)
    ensures
        live_sessions(live_sessions(ss)) == live_sessions(ss),
{
    let pred = |c: ClientConnectionV| !c.dead;
    assert(forall|i: int|
        0 <= i < live_sessions(ss).len() ==> pred(#[trigger] live_sessions(ss)[i])) by {
        ss.filter_lemma(pred);
    };
    lemma_filter_all_keep(live_sessions(ss), pred);
}

proof fn lemma_push_to_set(s: Seq<Seq<char>>, x: Seq<char>)
    ensures
        s.push(x).to_set() == s.to_set().insert(x),
{
    assert forall|y: Seq<char>| s.push(x).to_set().contains(y) implies s.to_set().insert(
        x,
    ).contains(y) by {
        let i = choose|i: int| 0 <= i < s.push(x).len() && s.push(x)[i] == y;
        if i < s.len() {
            assert(s[i] == y);
        }
    };
    assert forall|y: Seq<char>| s.to_set().insert(x).contains(y) implies s.push(x).to_set().contains(
        y,
    ) by {
        if y == x {
            assert(s.push(x)[s.len() as int] == y);
        } else {
            let i = choose|i: int| 0 <= i < s.len() && s[i] == y;
            assert(s.push(x)[i] == y);
        }
    };
    assert(s.push(x).to_set() =~= s.to_set().insert(x));
}

proof fn lemma_take_snoc_to_set(s: Seq<Seq<char>>, k: int)
    requires
        0 <= k < s.len(),
    ensures
        s.take(k + 1).to_set() == s.take(k).to_set().insert(s[k]),
{
    assert(s.take(k + 1) =~= s.take(k).push(s[k]));
    lemma_push_to_set(s.take(k), s[k]);
}

// ---------------------------------------------------------------------------
// The broadcast side channel, kept behind trusted items.
// ---------------------------------------------------------------------------

#[verifier::external_type_specification]
#[verifier::external_body]
#[verifier::reject_recursive_types(T)]
pub struct ExBroadcastSender<T>(tokio::sync::broadcast::Sender<T>);

#[verifier::external_type_specification]
#[verifier::external_body]
#[verifier::reject_recursive_types(T)]
pub struct ExBroadcastReceiver<T>(tokio::sync::broadcast::Receiver<T>);

/// Relies on `tokio::sync::broadcast::channel` to build the bounded
/// fan-out side channel with capacity 1000 (a fixed, valid capacity);
/// nothing is assumed of the endpoints it returns.
#[verifier::external_body]
fn new_broadcast_channel() -> (tokio::sync::broadcast::Sender<MessageFrame>, tokio::sync::broadcast::Receiver<MessageFrame>) {
    tokio::sync::broadcast::channel(1000)
}

/// Relies on `tokio::sync::broadcast::Sender::send`: the frame goes to the
/// side channel; an error (no receivers) is discarded, matching the
/// best-effort contract of the bus.
#[verifier::external_body]
fn publish_frame(tx: &tokio::sync::broadcast::Sender<MessageFrame>, frame: &MessageFrame) {
    let _ = tx.send(frame.clone());
}

// ---------------------------------------------------------------------------
// Outbound messages.
// ---------------------------------------------------------------------------

/// Wire bytes the caller must write on a fresh unidirectional stream of
/// the connection `conn_handle` stands for.
#[derive(Debug)]
pub struct OutboundMessage {
    pub to: ClientId,
    pub conn_handle: u64,
    pub bytes: Vec<u8>,
}

fn clone_bytes(b: &Vec<u8>) -> (r: Vec<u8>)
    ensures
        r@ == b@,
{
    let mut out: Vec<u8> = Vec::new();
    out.extend_from_slice(b.as_slice());
    assert(out@ =~= b@);
    out
}

// ---------------------------------------------------------------------------
// The registry.
// ---------------------------------------------------------------------------

/// The session registry: the authoritative mapping from session id to
/// session record, capped at `max_clients` admitted sessions, with the
/// broadcast side channel's sending end.
pub struct ClientManager {
    pub clients: Vec<ClientConnection>,
    pub broadcast_tx: tokio::sync::broadcast::Sender<MessageFrame>,
    pub max_clients: usize,
}

impl ClientManager {
    /// The registry content as a sequence of session models, in admission
    /// order.
    pub open spec fn sessions(&self) -> Seq<ClientConnectionV> {
        self.clients@.map_values(|c: ClientConnection| c@)
    }

    /// The admission cap.
    pub open spec fn capacity(&self) -> usize {
        self.max_clients
    }

    /// Registry invariant: ids unique, every record well-formed.
    pub open spec fn wf(&self) -> bool {
        unique_ids(self.sessions()) && all_wf(self.sessions())
    }

    /// Some session carries this id.
    pub open spec fn has_id(&self, id: u128) -> bool {
        seq_has_id(self.sessions(), id)
    }

    /// A new, empty registry with the receiving end of its broadcast side
    /// channel.
    pub fn new(max_clients: usize) -> (r: (
        ClientManager,
        tokio::sync::broadcast::Receiver<MessageFrame>,
    ))
        ensures
            r.0.wf(),
            r.0.sessions().len() == 0,
            r.0.capacity() == max_clients,
    {
        let (tx, rx) = new_broadcast_channel();
        let m = ClientManager { clients: Vec::new(), broadcast_tx: tx, max_clients };
        assert(m.sessions() =~= Seq::<ClientConnectionV>::empty());
        (m, rx)
    }

    /// A clone of the broadcast side channel's sending end.
    /// Relies on `tokio::sync::broadcast::Sender::clone`.
    #[verifier::external_body]
    pub fn get_broadcast_sender(&self) -> tokio::sync::broadcast::Sender<MessageFrame> {
        self.broadcast_tx.clone()
    }

    fn find_index(&self, id: &ClientId) -> (r: Option<usize>)
        ensures
            match r {
                Some(i) => i < self.sessions().len() && self.sessions()[i as int].id == id.value,
                None => !self.has_id(id.value),
            },
    {
        let n = self.clients.len();
        let mut i: usize = 0;
        while i < n
            invariant
                n == self.sessions().len(),
                i <= n,
                forall|j: int| 0 <= j < i ==> self.sessions()[j].id != id.value,
            decreases n - i,
        {
            if self.clients[i].id.value == id.value {
                return Some(i);
            }
            i += 1;
        }
        None
    }

    /// The number of admitted sessions.
    pub fn client_count(&self) -> (r: usize)
        ensures
            r == self.sessions().len(),
    {
        self.clients.len()
    }

    /// Admission. Refuses and changes nothing when the registry is full;
    /// otherwise inserts a fresh `Connecting` record (replacing the record
    /// of the same id if one exists) and accepts.
    pub fn add_client(&mut self, id: ClientId, conn_handle: u64, now: u64) -> (r: bool)
        requires
            old(self).wf(),
        ensures
            final(self).wf(),
            final(self).capacity() == old(self).capacity(),
            old(self).sessions().len() >= old(self).capacity() ==> r == false && final(self).sessions() == old(self).sessions(),
            old(self).sessions().len() < old(self).capacity() && !old(self).has_id(id.value)
                ==> r == true && final(self).sessions() == old(self).sessions().push(
                fresh_session(id.value, conn_handle, now),
            ),
            old(self).sessions().len() < old(self).capacity() && old(self).has_id(id.value) ==> r
                == true && final(self).sessions().len() == old(self).sessions().len() && (forall|j: int|
                0 <= j < old(self).sessions().len() ==> final(self).sessions()[j] == (if old(self).sessions()[j].id == id.value {
                    fresh_session(id.value, conn_handle, now)
                } else {
                    old(self).sessions()[j]
                })),
    {
        if self.clients.len() >= self.max_clients {
            return false;
        }
        match self.find_index(&id) {
            Some(i) => {
                self.clients.set(i, ClientConnection::new(id, conn_handle, now));
                proof {
                    assert forall|j: int|
                        0 <= j < old(self).sessions().len() implies self.sessions()[j] == (if old(self).sessions()[j].id == id.value {
                        fresh_session(id.value, conn_handle, now)
                    } else {
                        old(self).sessions()[j]
                    }) by {
                        if j != i {
                            assert(old(self).sessions()[j].id != id.value);
                        }
                    };
                }
                true
            },
            None => {
                self.clients.push(ClientConnection::new(id, conn_handle, now));
                assert(self.sessions() =~= old(self).sessions().push(
                    fresh_session(id.value, conn_handle, now),
                ));
                true
            },
        }
    }

    /// Evict a session. Returns the removed record; the registry keeps
    /// the other records in order. No record with the id remains.
    pub fn remove_client(&mut self, id: &ClientId) -> (r: Option<ClientConnection>)
        requires
            old(self).wf(),
        ensures
            final(self).wf(),
            final(self).capacity() == old(self).capacity(),
            !final(self).has_id(id.value),
            match r {
                Some(c) => old(self).has_id(id.value) && c@.id == id.value && exists|i: int|
                    0 <= i < old(self).sessions().len() && old(self).sessions()[i] == c@ && final(self).sessions() == old(self).sessions().remove(i),
                None => !old(self).has_id(id.value) && final(self).sessions() == old(self).sessions(),
            },
    {
        match self.find_index(id) {
            Some(i) => {
                let ghost oldss = self.sessions();
                let c = self.clients.remove(i);
                assert(self.sessions() =~= oldss.remove(i as int));
                proof {
                    assert forall|a: int, b: int|
                        0 <= a < b < self.sessions().len() implies self.sessions()[a].id
                        != self.sessions()[b].id by {
                        let sa: int = if a < i {
                            a
                        } else {
                            a + 1
                        };
                        let sb: int = if b < i {
                            b
                        } else {
                            b + 1
                        };
                        assert(self.sessions()[a] == oldss[sa]);
                        assert(self.sessions()[b] == oldss[sb]);
                    };
                    assert forall|a: int| 0 <= a < self.sessions().len() implies wf_client(
                        #[trigger] self.sessions()[a],
                    ) by {
                        let sa: int = if a < i {
                            a
                        } else {
                            a + 1
                        };
                        assert(self.sessions()[a] == oldss[sa]);
                    };
                    assert forall|a: int|
                        0 <= a < self.sessions().len() implies self.sessions()[a].id
                        != id.value by {
                        let sa: int = if a < i {
                            a
                        } else {
                            a + 1
                        };
                        assert(self.sessions()[a] == oldss[sa]);
                        if sa != i {
                            assert(oldss[sa].id != oldss[i as int].id);
                        }
                    };
                }
                Some(c)
            },
            None => None,
        }
    }

    /// The lifecycle state of a session, if present.
    pub fn state_of(&self, id: &ClientId) -> (r: Option<ClientState>)
        ensures
            match r {
                Some(st) => exists|i: int|
                    0 <= i < self.sessions().len() && self.sessions()[i].id == id.value && (
                    #[trigger] self.sessions()[i]).state == st,
                None => !self.has_id(id.value),
            },
    {
        match self.find_index(id) {
            None => None,
            Some(i) => Some(self.clients[i].state),
        }
    }

    /// How many sessions are in state `Connected`.
    pub fn connected_count(&self) -> (r: usize)
        ensures
            r == connected_targets(self.sessions()).len(),
    {
        let ghost ss = self.sessions();
        let ghost pred = |c: ClientConnectionV| c.state == ClientState::Connected;
        let n = self.clients.len();
        let mut count: usize = 0;
        let mut j: usize = 0;
        while j < n
            invariant
                n == ss.len(),
                ss == self.sessions(),
                pred == (|c: ClientConnectionV| c.state == ClientState::Connected),
                j <= n,
                count == ss.take(j as int).filter(pred).len(),
                count <= j,
            decreases n - j,
        {
            proof {
                lemma_filter_take_snoc(ss, pred, j as int);
            }
            if self.clients[j].state == ClientState::Connected {
                count += 1;
            }
            j += 1;
        }
        assert(ss.take(n as int) =~= ss);
        count
    }

    /// Look a session up; the returned record is a copy.
    pub fn get_client(&self, id: &ClientId) -> (r: Option<ClientConnection>)
        ensures
            match r {
                Some(c) => self.has_id(id.value) && self.sessions().contains(c@) && c@.id
                    == id.value,
                None => !self.has_id(id.value),
            },
    {
        match self.find_index(id) {
            Some(i) => {
                let c = self.clients[i].duplicate();
                assert(self.sessions()[i as int] == c@);
                Some(c)
            },
            None => None,
        }
    }
}

// ---------------------------------------------------------------------------
// Record mutation, fan-out and the reaper.
// ---------------------------------------------------------------------------

/// The records carrying this id (under the registry invariant: at most one).
pub open spec fn sessions_with_id(ss: Seq<ClientConnectionV>, idv: u128) -> Seq<ClientConnectionV> {
    ss.filter(|c: ClientConnectionV| c.id == idv)
}

pub(crate) proof fn lemma_sessions_with_id_singleton(ss: Seq<ClientConnectionV>, idv: u128, i: int)
    requires
        unique_ids(ss),
        all_wf(ss),
        0 <= i < ss.len(),
        ss[i].id == idv,
    ensures
        sessions_with_id(ss, idv) == seq![ss[i]],
{
    let pred = |c: ClientConnectionV| c.id == idv;
    lemma_filter_keeps_wf(ss, pred);
    ss.filter_lemma(pred);
    let f = ss.filter(pred);
    assert(f.contains(ss[i]));
    assert(f.len() >= 1);
    if f.len() >= 2 {
        assert(pred(f[0]) && pred(f[1]));
        assert(f[0].id != f[1].id);
        assert(false);
    }
    assert(f.contains(f[0]));
    assert(ss.contains(f[0]));
    let w = choose|w: int| 0 <= w < ss.len() && ss[w] == f[0];
    assert(pred(f[0]));
    assert(ss[w].id == idv);
    if w != i {
        assert(ss[w].id != ss[i].id);
    }
    assert(f[0] == ss[i]);
    assert(f =~= seq![ss[i]]);
}

/// The `Connected` records carrying this id (under the registry
/// invariant: at most one).
pub open spec fn connected_with_id(ss: Seq<ClientConnectionV>, idv: u128) -> Seq<
    ClientConnectionV,
> {
    ss.filter(|c: ClientConnectionV| c.id == idv && c.state == ClientState::Connected)
}

pub(crate) proof fn lemma_connected_with_id_singleton(ss: Seq<ClientConnectionV>, idv: u128, i: int)
    requires
        unique_ids(ss),
        all_wf(ss),
        0 <= i < ss.len(),
        ss[i].id == idv,
        ss[i].state == ClientState::Connected,
    ensures
        connected_with_id(ss, idv) == seq![ss[i]],
{
    let pred = |c: ClientConnectionV| c.id == idv && c.state == ClientState::Connected;
    lemma_filter_keeps_wf(ss, pred);
    ss.filter_lemma(pred);
    let f = ss.filter(pred);
    assert(f.contains(ss[i]));
    assert(f.len() >= 1);
    if f.len() >= 2 {
        assert(pred(f[0]) && pred(f[1]));
        assert(f[0].id != f[1].id);
        assert(false);
    }
    assert(f.contains(f[0]));
    assert(ss.contains(f[0]));
    let w = choose|w: int| 0 <= w < ss.len() && ss[w] == f[0];
    assert(pred(f[0]));
    assert(ss[w].id == idv);
    if w != i {
        assert(ss[w].id != ss[i].id);
    }
    assert(f[0] == ss[i]);
    assert(f =~= seq![ss[i]]);
}

pub(crate) proof fn lemma_connected_with_id_empty(ss: Seq<ClientConnectionV>, idv: u128)
    requires
        unique_ids(ss),
        all_wf(ss),
        !id_connected(ss, idv),
    ensures
        connected_with_id(ss, idv) == Seq::<ClientConnectionV>::empty(),
{
    let pred = |c: ClientConnectionV| c.id == idv && c.state == ClientState::Connected;
    lemma_filter_keeps_wf(ss, pred);
    ss.filter_lemma(pred);
    let f = ss.filter(pred);
    if f.len() > 0 {
        assert(pred(f[0]));
        assert(f.contains(f[0]));
        assert(ss.contains(f[0]));
        let w = choose|w: int| 0 <= w < ss.len() && ss[w] == f[0];
        assert(0 <= w < ss.len() && ss[w].id == idv && ss[w].state == ClientState::Connected);
        assert(false);
    }
    assert(f =~= Seq::<ClientConnectionV>::empty());
}

pub(crate) proof fn lemma_sessions_with_id_empty(ss: Seq<ClientConnectionV>, idv: u128)
    requires
        unique_ids(ss),
        all_wf(ss),
        !seq_has_id(ss, idv),
    ensures
        sessions_with_id(ss, idv) == Seq::<ClientConnectionV>::empty(),
{
    let pred = |c: ClientConnectionV| c.id == idv;
    lemma_filter_keeps_wf(ss, pred);
    ss.filter_lemma(pred);
    let f = ss.filter(pred);
    if f.len() > 0 {
        assert(pred(f[0]));
        assert(f.contains(f[0]));
        assert(ss.contains(f[0]));
        let w = choose|w: int| 0 <= w < ss.len() && ss[w] == f[0];
        assert(0 <= w < ss.len() && ss[w].id == idv);
        assert(false);
    }
    assert(f =~= Seq::<ClientConnectionV>::empty());
}

/// Some record carries this id and is in state `Connected`.
pub open spec fn id_connected(ss: Seq<ClientConnectionV>, id: u128) -> bool {
    exists|i: int| 0 <= i < ss.len() && ss[i].id == id && ss[i].state == ClientState::Connected
}

/// The info records of all sessions, in registry order.
pub open spec fn infos_of(ss: Seq<ClientConnectionV>) -> Seq<ClientInfoV> {
    ss.map_values(|c: ClientConnectionV| info_of(c))
}

/// Subscription round trip: adding fresh topics and then removing the
/// same topics restores the previous subscription set. (The law asks the
/// added topics to be fresh: removing a topic that was already subscribed
/// beforehand would drop it from the prior set as well.)
pub proof fn lemma_subscribe_unsubscribe(s: Set<Seq<char>>, t: Set<Seq<char>>)
    requires
        s.disjoint(t),
    ensures
        s.union(t).difference(t) == s,
{
    assert(s.union(t).difference(t) =~= s);
}

impl ClientManager {
    /// Move a session's state forward and record activity. The state only
    /// ever advances: a request to move backwards leaves it unchanged.
    pub fn update_client_state(&mut self, id: &ClientId, state: ClientState, now: u64) -> (r: bool)
        requires
            old(self).wf(),
        ensures
            final(self).wf(),
            final(self).capacity() == old(self).capacity(),
            final(self).sessions().len() == old(self).sessions().len(),
            r == old(self).has_id(id.value),
            forall|j: int|
                0 <= j < old(self).sessions().len() && old(self).sessions()[j].id != id.value
                    ==> final(self).sessions()[j] == old(self).sessions()[j],
            forall|j: int|
                0 <= j < old(self).sessions().len() && old(self).sessions()[j].id == id.value
                    ==> final(self).sessions()[j] == (ClientConnectionV {
                    state: if state_le(old(self).sessions()[j].state, state) {
                        state
                    } else {
                        old(self).sessions()[j].state
                    },
                    last_seen: now,
                    ..old(self).sessions()[j]
                }),
            forall|j: int|
                0 <= j < old(self).sessions().len() ==> state_le(
                    #[trigger] old(self).sessions()[j].state,
                    final(self).sessions()[j].state,
                ),
    {
        match self.find_index(id) {
            None => false,
            Some(i) => {
                let mut c = self.clients[i].duplicate();
                if state_rank_exec(c.state) <= state_rank_exec(state) {
                    c.state = state;
                }
                c.last_seen = now;
                self.clients.set(i, c);
                proof {
                    assert(self.sessions()[i as int].subscriptions == old(self).sessions()[
                        i as int
                    ].subscriptions);
                    self.lemma_after_update(old(self), i as int, id.value);
                }
                true
            },
        }
    }

    /// Set a session's display name and record activity.
    pub fn set_client_name(&mut self, id: &ClientId, name: String, now: u64) -> (r: bool)
        requires
            old(self).wf(),
        ensures
            final(self).wf(),
            final(self).capacity() == old(self).capacity(),
            final(self).sessions().len() == old(self).sessions().len(),
            r == old(self).has_id(id.value),
            forall|j: int|
                0 <= j < old(self).sessions().len() && old(self).sessions()[j].id != id.value
                    ==> final(self).sessions()[j] == old(self).sessions()[j],
            forall|j: int|
                0 <= j < old(self).sessions().len() && old(self).sessions()[j].id == id.value
                    ==> final(self).sessions()[j] == (ClientConnectionV {
                    name: Some(name@),
                    last_seen: now,
                    ..old(self).sessions()[j]
                }),
            forall|j: int|
                0 <= j < old(self).sessions().len() ==> state_le(
                    #[trigger] old(self).sessions()[j].state,
                    final(self).sessions()[j].state,
                ),
    {
        match self.find_index(id) {
            None => false,
            Some(i) => {
                let mut c = self.clients[i].duplicate();
                c.name = Some(name);
                c.last_seen = now;
                self.clients.set(i, c);
                proof {
                    assert(self.sessions()[i as int].subscriptions == old(self).sessions()[
                        i as int
                    ].subscriptions);
                    self.lemma_after_update(old(self), i as int, id.value);
                }
                true
            },
        }
    }

    /// Record inbound activity on a session: refresh `last_seen` and count
    /// the message.
    pub fn touch_client(&mut self, id: &ClientId, now: u64) -> (r: bool)
        requires
            old(self).wf(),
        ensures
            final(self).wf(),
            final(self).capacity() == old(self).capacity(),
            final(self).sessions().len() == old(self).sessions().len(),
            r == old(self).has_id(id.value),
            forall|j: int|
                0 <= j < old(self).sessions().len() && old(self).sessions()[j].id != id.value
                    ==> final(self).sessions()[j] == old(self).sessions()[j],
            forall|j: int|
                0 <= j < old(self).sessions().len() && old(self).sessions()[j].id == id.value
                    ==> final(self).sessions()[j] == (ClientConnectionV {
                    last_seen: now,
                    message_count: if old(self).sessions()[j].message_count < u64::MAX {
                        (old(self).sessions()[j].message_count + 1) as u64
                    } else {
                        old(self).sessions()[j].message_count
                    },
                    ..old(self).sessions()[j]
                }),
            forall|j: int|
                0 <= j < old(self).sessions().len() ==> state_le(
                    #[trigger] old(self).sessions()[j].state,
                    final(self).sessions()[j].state,
                ),
    {
        match self.find_index(id) {
            None => false,
            Some(i) => {
                let mut c = self.clients[i].duplicate();
                c.update_last_seen(now);
                c.increment_message_count();
                self.clients.set(i, c);
                proof {
                    assert(self.sessions()[i as int].subscriptions == old(self).sessions()[
                        i as int
                    ].subscriptions);
                    self.lemma_after_update(old(self), i as int, id.value);
                }
                true
            },
        }
    }

    /// Mark a session whose connection has reported a close reason; the
    /// next reaper pass evicts it.
    pub fn mark_disconnected(&mut self, id: &ClientId, ) -> (r: bool)
        requires
            old(self).wf(),
        ensures
            final(self).wf(),
            final(self).capacity() == old(self).capacity(),
            final(self).sessions().len() == old(self).sessions().len(),
            r == old(self).has_id(id.value),
            forall|j: int|
                0 <= j < old(self).sessions().len() && old(self).sessions()[j].id != id.value
                    ==> final(self).sessions()[j] == old(self).sessions()[j],
            forall|j: int|
                0 <= j < old(self).sessions().len() && old(self).sessions()[j].id == id.value
                    ==> final(self).sessions()[j] == (ClientConnectionV {
                    dead: true,
                    ..old(self).sessions()[j]
                }),
            forall|j: int|
                0 <= j < old(self).sessions().len() ==> state_le(
                    #[trigger] old(self).sessions()[j].state,
                    final(self).sessions()[j].state,
                ),
    {
        match self.find_index(id) {
            None => false,
            Some(i) => {
                let mut c = self.clients[i].duplicate();
                c.dead = true;
                self.clients.set(i, c);
                proof {
                    assert(self.sessions()[i as int].subscriptions == old(self).sessions()[
                        i as int
                    ].subscriptions);
                    self.lemma_after_update(old(self), i as int, id.value);
                }
                true
            },
        }
    }

    /// After an in-place update at `i` that keeps the id, the subscription
    /// list and every other record: ids stay unique and records stay
    /// well-formed; a session with the updated id sits only at `i`.
    proof fn lemma_after_update(&self, prev: &ClientManager, i: int, idv: u128)
        requires
            prev.wf(),
            0 <= i < prev.sessions().len(),
            self.sessions().len() == prev.sessions().len(),
            prev.sessions()[i].id == idv,
            self.sessions()[i].id == prev.sessions()[i].id,
            wf_client(self.sessions()[i]),
            forall|j: int|
                0 <= j < prev.sessions().len() && j != i ==> self.sessions()[j] == prev.sessions()[j],
        ensures
            self.wf(),
            forall|j: int|
                0 <= j < prev.sessions().len() && prev.sessions()[j].id == idv ==> j == i,
    {
        assert forall|a: int, b: int|
            0 <= a < b < self.sessions().len() implies self.sessions()[a].id != self.sessions()[b].id by {
            assert(self.sessions()[a].id == prev.sessions()[a].id);
            assert(self.sessions()[b].id == prev.sessions()[b].id);
        };
        assert forall|a: int| 0 <= a < self.sessions().len() implies wf_client(
            #[trigger] self.sessions()[a],
        ) by {
            if a != i {
                assert(self.sessions()[a] == prev.sessions()[a]);
            }
        };
        assert forall|j: int|
            0 <= j < prev.sessions().len() && prev.sessions()[j].id == idv implies j == i by {
            if j != i {
                assert(prev.sessions()[j].id != prev.sessions()[i].id);
            }
        };
    }

    /// The outbound message that delivers `frame` to the session, if the
    /// session exists in state `Connected` and the frame can be encoded.
    /// A `Connecting` or `Closing` target yields nothing; callers must
    /// tolerate the absence.
    pub fn send_to_client(&self, id: &ClientId, frame: &MessageFrame) -> (r: Option<
        OutboundMessage,
    >)
        requires
            self.wf(),
        ensures
            match r {
                Some(o) => id_connected(self.sessions(), id.value) && wf_frame(frame@) && enc_frame(
                    frame@,
                ).len() <= u32::MAX && o.to == *id && o.bytes@ == wire_bytes(frame@) && exists|
                    i: int,
                |
                    0 <= i < self.sessions().len() && self.sessions()[i].id == id.value
                        && self.sessions()[i].state == ClientState::Connected && o.conn_handle
                        == self.sessions()[i].conn_handle,
                None => !id_connected(self.sessions(), id.value) || !wf_frame(frame@) || enc_frame(
                    frame@,
                ).len() > u32::MAX,
            },
    {
        match self.find_index(id) {
            None => {
                assert(!id_connected(self.sessions(), id.value));
                None
            },
            Some(i) => {
                if !(self.clients[i].state == ClientState::Connected) {
                    proof {
                        assert forall|k: int|
                            0 <= k < self.sessions().len() && self.sessions()[k].id == id.value
                                implies k == i as int by {
                            if k != i as int {
                                assert(self.sessions()[k].id != self.sessions()[i as int].id);
                            }
                        };
                        assert(!id_connected(self.sessions(), id.value));
                    }
                    return None;
                }
                match frame.to_wire_bytes() {
                    None => None,
                    Some(bytes) => {
                        let o = OutboundMessage {
                            to: ClientId { value: id.value },
                            conn_handle: self.clients[i].conn_handle,
                            bytes,
                        };
                        assert(self.sessions()[i as int].conn_handle == o.conn_handle);
                        Some(o)
                    },
                }
            },
        }
    }

    /// The outbound message that answers the session directly on its own
    /// connection, whatever its lifecycle state: the handshake response
    /// must reach a session that is still `Connecting`.
    pub fn reply_to_client(&self, id: &ClientId, frame: &MessageFrame) -> (r: Option<
        OutboundMessage,
    >)
        ensures
            match r {
                Some(o) => self.has_id(id.value) && wf_frame(frame@) && enc_frame(frame@).len()
                    <= u32::MAX && o.to == *id && o.bytes@ == wire_bytes(frame@) && exists|i: int|
                    0 <= i < self.sessions().len() && self.sessions()[i].id == id.value
                        && o.conn_handle == self.sessions()[i].conn_handle,
                None => !self.has_id(id.value) || !wf_frame(frame@) || enc_frame(frame@).len()
                    > u32::MAX,
            },
    {
        match self.find_index(id) {
            None => None,
            Some(i) => match frame.to_wire_bytes() {
                None => None,
                Some(bytes) => {
                    let o = OutboundMessage {
                        to: ClientId { value: id.value },
                        conn_handle: self.clients[i].conn_handle,
                        bytes,
                    };
                    assert(self.sessions()[i as int].conn_handle == o.conn_handle);
                    Some(o)
                },
            },
        }
    }

    /// The outbound messages that deliver `frame` to every `Connected`
    /// session, in registry order; the frame also goes to the broadcast
    /// side channel. An unencodable frame yields no messages.
    pub fn broadcast_message(&self, frame: &MessageFrame) -> (r: Vec<OutboundMessage>)
        ensures
            wf_frame(frame@) && enc_frame(frame@).len() <= u32::MAX ==> ({
                let targets = connected_targets(self.sessions());
                &&& r@.len() == targets.len()
                &&& forall|k: int|
                    0 <= k < targets.len() ==> (#[trigger] r@[k]).to.value == targets[k].id && r@[k].conn_handle == targets[k].conn_handle && r@[k].bytes@ == wire_bytes(frame@)
            }),
            !(wf_frame(frame@) && enc_frame(frame@).len() <= u32::MAX) ==> r@.len() == 0,
    {
        let ghost ss = self.sessions();
        let ghost pred = |c: ClientConnectionV| c.state == ClientState::Connected;
        let mut out: Vec<OutboundMessage> = Vec::new();
        match frame.to_wire_bytes() {
            None => {
                publish_frame(&self.broadcast_tx, frame);
                out
            },
            Some(bytes) => {
                let n = self.clients.len();
                let mut j: usize = 0;
                while j < n
                    invariant
                        n == ss.len(),
                        ss == self.sessions(),
                        pred == (|c: ClientConnectionV| c.state == ClientState::Connected),
                        j <= n,
                        bytes@ == wire_bytes(frame@),
                        out@.len() == ss.take(j as int).filter(pred).len(),
                        forall|k: int|
                            0 <= k < out@.len() ==> (#[trigger] out@[k]).to.value == ss.take(
                                j as int,
                            ).filter(pred)[k].id && out@[k].conn_handle == ss.take(j as int).filter(
                                pred,
                            )[k].conn_handle && out@[k].bytes@ == wire_bytes(frame@),
                    decreases n - j,
                {
                    proof {
                        lemma_filter_take_snoc(ss, pred, j as int);
                    }
                    if self.clients[j].state == ClientState::Connected {
                        let o = OutboundMessage {
                            to: self.clients[j].id,
                            conn_handle: self.clients[j].conn_handle,
                            bytes: clone_bytes(&bytes),
                        };
                        out.push(o);
                        assert(pred(ss[j as int]));
                        assert(ss.take(j as int + 1).filter(pred) == ss.take(j as int).filter(pred)
                            + seq![ss[j as int]]);
                    } else {
                        assert(!pred(ss[j as int]));
                        assert(ss.take(j as int + 1).filter(pred) =~= ss.take(j as int).filter(
                            pred,
                        ));
                    }
                    j += 1;
                }
                assert(ss.take(n as int) =~= ss);
                publish_frame(&self.broadcast_tx, frame);
                out
            },
        }
    }

    /// The outbound messages that deliver `frame` to every `Connected`
    /// session subscribed to `topic`, in registry order.
    pub fn push_to_subscribers(&self, topic: &str, frame: &MessageFrame) -> (r: Vec<
        OutboundMessage,
    >)
        ensures
            wf_frame(frame@) && enc_frame(frame@).len() <= u32::MAX ==> ({
                let targets = topic_targets(self.sessions(), topic@);
                &&& r@.len() == targets.len()
                &&& forall|k: int|
                    0 <= k < targets.len() ==> (#[trigger] r@[k]).to.value == targets[k].id && r@[k].conn_handle == targets[k].conn_handle && r@[k].bytes@ == wire_bytes(frame@)
            }),
            !(wf_frame(frame@) && enc_frame(frame@).len() <= u32::MAX) ==> r@.len() == 0,
    {
        let ghost ss = self.sessions();
        let ghost tv = topic@;
        let ghost pred = |c: ClientConnectionV|
            c.state == ClientState::Connected && c.subscriptions.contains(tv);
        let mut out: Vec<OutboundMessage> = Vec::new();
        match frame.to_wire_bytes() {
            None => out,
            Some(bytes) => {
                let n = self.clients.len();
                let mut j: usize = 0;
                while j < n
                    invariant
                        n == ss.len(),
                        ss == self.sessions(),
                        tv == topic@,
                        pred == (|c: ClientConnectionV|
                            c.state == ClientState::Connected && c.subscriptions.contains(tv)),
                        j <= n,
                        bytes@ == wire_bytes(frame@),
                        out@.len() == ss.take(j as int).filter(pred).len(),
                        forall|k: int|
                            0 <= k < out@.len() ==> (#[trigger] out@[k]).to.value == ss.take(
                                j as int,
                            ).filter(pred)[k].id && out@[k].conn_handle == ss.take(j as int).filter(
                                pred,
                            )[k].conn_handle && out@[k].bytes@ == wire_bytes(frame@),
                    decreases n - j,
                {
                    proof {
                        lemma_filter_take_snoc(ss, pred, j as int);
                    }
                    let is_target = self.clients[j].state == ClientState::Connected
                        && contains_topic(&self.clients[j].subscriptions, topic);
                    if is_target {
                        let o = OutboundMessage {
                            to: self.clients[j].id,
                            conn_handle: self.clients[j].conn_handle,
                            bytes: clone_bytes(&bytes),
                        };
                        out.push(o);
                        assert(pred(ss[j as int]));
                        assert(ss.take(j as int + 1).filter(pred) == ss.take(j as int).filter(pred)
                            + seq![ss[j as int]]);
                    } else {
                        assert(!pred(ss[j as int]));
                        assert(ss.take(j as int + 1).filter(pred) =~= ss.take(j as int).filter(
                            pred,
                        ));
                    }
                    j += 1;
                }
                assert(ss.take(n as int) =~= ss);
                out
            },
        }
    }

    /// The public info of every session, in registry order.
    pub fn get_all_clients(&self) -> (r: Vec<ClientInfo>)
        ensures
            r@.len() == self.sessions().len(),
            forall|k: int|
                0 <= k < r@.len() ==> (#[trigger] r@[k])@ == info_of(self.sessions()[k]),
    {
        let ghost ss = self.sessions();
        let mut out: Vec<ClientInfo> = Vec::new();
        let n = self.clients.len();
        let mut j: usize = 0;
        while j < n
            invariant
                n == ss.len(),
                ss == self.sessions(),
                j <= n,
                out@.len() == j,
                forall|k: int| 0 <= k < j ==> (#[trigger] out@[k])@ == info_of(ss[k]),
            decreases n - j,
        {
            let info = self.clients[j].get_info();
            out.push(info);
            j += 1;
        }
        out
    }

    /// Add topics to a session's subscriptions. Subscriptions can only be
    /// mutated while the session is `Connected`; otherwise nothing changes.
    pub fn subscribe_topics(&mut self, id: &ClientId, topics: &Vec<String>) -> (r: bool)
        requires
            old(self).wf(),
        ensures
            final(self).wf(),
            final(self).capacity() == old(self).capacity(),
            final(self).sessions().len() == old(self).sessions().len(),
            r == id_connected(old(self).sessions(), id.value),
            !r ==> final(self).sessions() == old(self).sessions(),
            forall|j: int|
                0 <= j < old(self).sessions().len() && old(self).sessions()[j].id != id.value
                    ==> final(self).sessions()[j] == old(self).sessions()[j],
            r ==> forall|j: int|
                0 <= j < old(self).sessions().len() && old(self).sessions()[j].id == id.value
                    ==> final(self).sessions()[j] == (ClientConnectionV {
                    subscriptions: final(self).sessions()[j].subscriptions,
                    ..old(self).sessions()[j]
                }) && topic_set(final(self).sessions()[j]) == topic_set(
                    old(self).sessions()[j],
                ).union(strings_view(topics@).to_set()),
            forall|j: int|
                0 <= j < old(self).sessions().len() ==> state_le(
                    #[trigger] old(self).sessions()[j].state,
                    final(self).sessions()[j].state,
                ),
    {
        let ghost tviews = strings_view(topics@);
        match self.find_index(id) {
            None => {
                proof {
                    assert(!id_connected(old(self).sessions(), id.value));
                }
                false
            },
            Some(i) => {
                if !(self.clients[i].state == ClientState::Connected) {
                    proof {
                        assert forall|k: int|
                            0 <= k < self.sessions().len() && self.sessions()[k].id == id.value
                                implies k == i as int by {
                            if k != i as int {
                                assert(self.sessions()[k].id != self.sessions()[i as int].id);
                            }
                        };
                        assert(!id_connected(self.sessions(), id.value));
                    }
                    return false;
                }
                let ghost orig = self.sessions()[i as int];
                let mut c = self.clients[i].duplicate();
                let n = topics.len();
                let mut k: usize = 0;
                while k < n
                    invariant
                        n == tviews.len(),
                        tviews == strings_view(topics@),
                        k <= n,
                        c@ == (ClientConnectionV { subscriptions: c@.subscriptions, ..orig }),
                        c@.subscriptions.no_duplicates(),
                        topic_set(c@) == topic_set(orig).union(tviews.take(k as int).to_set()),
                    decreases n - k,
                {
                    proof {
                        lemma_take_snoc_to_set(tviews, k as int);
                    }
                    let present = contains_topic(&c.subscriptions, topics[k].as_str());
                    if !present {
                        let ghost presubs = c@.subscriptions;
                        let t = topics[k].clone();
                        c.subscriptions.push(t);
                        proof {
                            assert(c@.subscriptions =~= presubs.push(tviews[k as int]));
                            lemma_push_to_set(presubs, tviews[k as int]);
                            assert forall|a: int, b: int|
                                0 <= a < b < c@.subscriptions.len() implies c@.subscriptions[a]
                                != c@.subscriptions[b] by {
                                if b == c@.subscriptions.len() - 1 {
                                    assert(!presubs.contains(tviews[k as int]));
                                    assert(c@.subscriptions[a] == presubs[a]);
                                }
                            };
                            assert(topic_set(c@) =~= topic_set(orig).union(
                                tviews.take(k as int + 1).to_set(),
                            ));
                        }
                    } else {
                        proof {
                            assert(topic_set(c@).contains(tviews[k as int]));
                            assert(topic_set(c@) =~= topic_set(orig).union(
                                tviews.take(k as int + 1).to_set(),
                            ));
                        }
                    }
                    k += 1;
                }
                proof {
                    assert(tviews.take(n as int) =~= tviews);
                }
                self.clients.set(i, c);
                proof {
                    assert(wf_client(self.sessions()[i as int]));
                    self.lemma_after_update(old(self), i as int, id.value);
                    assert(id_connected(old(self).sessions(), id.value));
                }
                true
            },
        }
    }

    /// Remove topics from a session's subscriptions. Subscriptions can
    /// only be mutated while the session is `Connected`.
    pub fn unsubscribe_topics(&mut self, id: &ClientId, topics: &Vec<String>) -> (r: bool)
        requires
            old(self).wf(),
        ensures
            final(self).wf(),
            final(self).capacity() == old(self).capacity(),
            final(self).sessions().len() == old(self).sessions().len(),
            r == id_connected(old(self).sessions(), id.value),
            !r ==> final(self).sessions() == old(self).sessions(),
            forall|j: int|
                0 <= j < old(self).sessions().len() && old(self).sessions()[j].id != id.value
                    ==> final(self).sessions()[j] == old(self).sessions()[j],
            r ==> forall|j: int|
                0 <= j < old(self).sessions().len() && old(self).sessions()[j].id == id.value
                    ==> final(self).sessions()[j] == (ClientConnectionV {
                    subscriptions: final(self).sessions()[j].subscriptions,
                    ..old(self).sessions()[j]
                }) && topic_set(final(self).sessions()[j]) == topic_set(
                    old(self).sessions()[j],
                ).difference(strings_view(topics@).to_set()),
            forall|j: int|
                0 <= j < old(self).sessions().len() ==> state_le(
                    #[trigger] old(self).sessions()[j].state,
                    final(self).sessions()[j].state,
                ),
    {
        let ghost tset = strings_view(topics@).to_set();
        match self.find_index(id) {
            None => {
                proof {
                    assert(!id_connected(old(self).sessions(), id.value));
                }
                false
            },
            Some(i) => {
                if !(self.clients[i].state == ClientState::Connected) {
                    proof {
                        assert forall|k: int|
                            0 <= k < self.sessions().len() && self.sessions()[k].id == id.value
                                implies k == i as int by {
                            if k != i as int {
                                assert(self.sessions()[k].id != self.sessions()[i as int].id);
                            }
                        };
                        assert(!id_connected(self.sessions(), id.value));
                    }
                    return false;
                }
                let ghost orig = self.sessions()[i as int];
                let mut c = self.clients[i].duplicate();
                let ghost osubs = c@.subscriptions;
                let mut kept: Vec<String> = Vec::new();
                let n = c.subscriptions.len();
                let mut j: usize = 0;
                while j < n
                    invariant
                        n == osubs.len(),
                        osubs == strings_view(c.subscriptions@),
                        osubs.no_duplicates(),
                        tset == strings_view(topics@).to_set(),
                        j <= n,
                        strings_view(kept@).no_duplicates(),
                        strings_view(kept@).to_set() == osubs.take(j as int).to_set().difference(
                            tset,
                        ),
                        forall|a: int|
                            0 <= a < strings_view(kept@).len() ==> osubs.take(j as int).contains(
                                #[trigger] strings_view(kept@)[a],
                            ),
                    decreases n - j,
                {
                    proof {
                        lemma_take_snoc_to_set(osubs, j as int);
                    }
                    let in_removed = contains_topic(topics, c.subscriptions[j].as_str());
                    if !in_removed {
                        let ghost prekept = strings_view(kept@);
                        kept.push(c.subscriptions[j].clone());
                        proof {
                            assert(strings_view(kept@) =~= prekept.push(osubs[j as int]));
                            lemma_push_to_set(prekept, osubs[j as int]);
                            assert(!osubs.take(j as int).contains(osubs[j as int]));
                            assert(!prekept.contains(osubs[j as int]));
                            assert forall|a: int, b: int|
                                0 <= a < b < strings_view(kept@).len() implies strings_view(
                                kept@,
                            )[a] != strings_view(kept@)[b] by {
                                if b == strings_view(kept@).len() - 1 {
                                    assert(strings_view(kept@)[a] == prekept[a]);
                                }
                            };
                            assert(strings_view(kept@).to_set() =~= osubs.take(
                                j as int + 1,
                            ).to_set().difference(tset));
                            assert forall|a: int|
                                0 <= a < strings_view(kept@).len() implies osubs.take(
                                j as int + 1,
                            ).contains(#[trigger] strings_view(kept@)[a]) by {
                                if a < strings_view(kept@).len() - 1 {
                                    let w = choose|w: int|
                                        0 <= w < j && osubs.take(j as int)[w] == prekept[a];
                                    assert(osubs.take(j as int + 1)[w] == prekept[a]);
                                } else {
                                    assert(osubs.take(j as int + 1)[j as int] == osubs[j as int]);
                                }
                            };
                        }
                    } else {
                        proof {
                            assert(tset.contains(osubs[j as int]));
                            assert(strings_view(kept@).to_set() =~= osubs.take(
                                j as int + 1,
                            ).to_set().difference(tset));
                            assert forall|a: int|
                                0 <= a < strings_view(kept@).len() implies osubs.take(
                                j as int + 1,
                            ).contains(#[trigger] strings_view(kept@)[a]) by {
                                let w = choose|w: int|
                                    0 <= w < j && osubs.take(j as int)[w] == strings_view(
                                        kept@,
                                    )[a];
                                assert(osubs.take(j as int + 1)[w] == strings_view(kept@)[a]);
                            };
                        }
                    }
                    j += 1;
                }
                proof {
                    assert(osubs.take(n as int) =~= osubs);
                }
                c.subscriptions = kept;
                self.clients.set(i, c);
                proof {
                    assert(wf_client(self.sessions()[i as int]));
                    self.lemma_after_update(old(self), i as int, id.value);
                    assert(id_connected(old(self).sessions(), id.value));
                }
                true
            },
        }
    }

    /// Evict every session whose connection has reported a close reason.
    /// Returns how many were evicted; afterwards no dead session remains.
    pub fn cleanup_disconnected_clients(&mut self) -> (r: usize)
        requires
            old(self).wf(),
        ensures
            final(self).wf(),
            final(self).capacity() == old(self).capacity(),
            final(self).sessions() == live_sessions(old(self).sessions()),
            r == old(self).sessions().len() - final(self).sessions().len(),
            live_sessions(final(self).sessions()) == final(self).sessions(),
    {
        let ghost oldss = self.sessions();
        let ghost pred = |c: ClientConnectionV| !c.dead;
        let mut kept: Vec<ClientConnection> = Vec::new();
        let n = self.clients.len();
        let mut idx: usize = 0;
        assert(kept@.map_values(|c: ClientConnection| c@) =~= oldss.take(0).filter(pred)) by {
            reveal_with_fuel(Seq::filter, 1);
            assert(oldss.take(0) =~= Seq::<ClientConnectionV>::empty());
        };
        while idx < n
            invariant
                n == oldss.len(),
                oldss == self.sessions(),
                pred == (|c: ClientConnectionV| !c.dead),
                idx <= n,
                kept@.map_values(|c: ClientConnection| c@) == oldss.take(idx as int).filter(pred),
                kept@.len() <= idx,
            decreases n - idx,
        {
            proof {
                lemma_filter_take_snoc(oldss, pred, idx as int);
            }
            if !self.clients[idx].dead {
                let ghost pre = kept@.map_values(|c: ClientConnection| c@);
                let c = self.clients[idx].duplicate();
                kept.push(c);
                assert(kept@.map_values(|c: ClientConnection| c@) =~= pre.push(
                    oldss[idx as int],
                ));
                assert(kept@.map_values(|c: ClientConnection| c@) =~= oldss.take(
                    idx as int + 1,
                ).filter(pred));
            } else {
                assert(oldss.take(idx as int + 1).filter(pred) =~= oldss.take(idx as int).filter(
                    pred,
                ));
            }
            idx += 1;
        }
        assert(oldss.take(n as int) =~= oldss);
        let removed = n - kept.len();
        proof {
            oldss.lemma_filter_len(pred);
        }
        self.clients = kept;
        proof {
            lemma_filter_keeps_wf(oldss, pred);
            lemma_reap_idempotent(oldss);
        }
        removed
    }
}

pub(crate) proof fn lemma_filter_keeps_wf(ss: Seq<ClientConnectionV>, pred: spec_fn(ClientConnectionV) -> bool)
    requires
        unique_ids(ss),
        all_wf(ss),
    ensures
        unique_ids(ss.filter(pred)),
        all_wf(ss.filter(pred)),
        forall|x: ClientConnectionV| ss.filter(pred).contains(x) ==> ss.contains(x),
    decreases ss.len(),
{
    reveal_with_fuel(Seq::filter, 1);
    if ss.len() == 0 {
    } else {
        let head = ss.drop_last();
        let last = ss.last();
        assert(unique_ids(head));
        assert(all_wf(head));
        lemma_filter_keeps_wf(head, pred);
        let f = head.filter(pred);
        let out = ss.filter(pred);
        assert forall|x: ClientConnectionV| head.contains(x) implies ss.contains(x) by {
            let w = choose|w: int| 0 <= w < head.len() && head[w] == x;
            assert(ss[w] == x);
        };
        if pred(last) {
            assert(out == f.push(last));
            assert forall|x: ClientConnectionV| out.contains(x) implies ss.contains(x) by {
                let w = choose|w: int| 0 <= w < out.len() && out[w] == x;
                if w < f.len() {
                    assert(f.contains(f[w]));
                } else {
                    assert(ss[ss.len() - 1] == x);
                }
            };
            assert forall|a: int, b: int| 0 <= a < b < out.len() implies out[a].id != out[b].id by {
                if b == out.len() - 1 {
                    assert(f.contains(f[a]));
                    assert(head.contains(f[a]));
                    let w = choose|w: int| 0 <= w < head.len() && head[w] == f[a];
                    assert(ss[w] == f[a]);
                    assert(ss[w].id != ss[ss.len() - 1].id);
                } else {
                    assert(out[a] == f[a] && out[b] == f[b]);
                }
            };
            assert forall|a: int| 0 <= a < out.len() implies wf_client(#[trigger] out[a]) by {
                if a < out.len() - 1 {
                    assert(out[a] == f[a]);
                } else {
                    assert(out[a] == last);
                    assert(wf_client(ss[ss.len() - 1]));
                }
            };
        } else {
            assert(out == f);
        }
    }
}

} // verus!
