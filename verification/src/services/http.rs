//! The HTTP module: its configuration, the registry of websocket sessions
//! kept by the chat server, and the decisions each websocket session takes
//! on the frames it receives and on its heartbeat.

use vstd::prelude::*;
use std::collections::HashMap;
use crate::config::ParamMap;
use crate::text::{decimal_int, i64_to_decimal, parse_i32, parse_i32_spec, lemma_parse_render_i32};
use super::ServiceModule;

verus! {

broadcast use vstd::std_specs::hash::group_hash_axioms;

/// The parameter that holds the listening port.
pub open spec fn port_key() -> Seq<char> {
    seq!['p', 'o', 'r', 't']
}

/// The port used when the configured one does not parse.
pub const DEFAULT_PORT: i32 = 80;

/// The port an HTTP module listens on for a configured port text: the
/// text read as an `i32`, or the default port when it does not parse.
pub open spec fn port_from(text: Seq<char>) -> i32 {
    match parse_i32_spec(text) {
        Some(p) => p,
        None => DEFAULT_PORT,
    }
}

/// The address the HTTP server binds: every interface, at `port`.
pub open spec fn bind_address_spec(port: i32) -> Seq<char> {
    seq!['0', '.', '0', '.', '0', '.', '0', ':'] + decimal_int(port as int)
}

/// The name the HTTP module is registered under.
pub open spec fn http_name() -> Seq<char> {
    seq!['h', 't', 't', 'p']
}

/// The HTTP module. `A` is the address by which the chat server reaches
/// a connected websocket session.
pub struct Http<A> {
    m_port: i32,
    m_server: WsChatServer<A>,
}

impl<A> Http<A> {
    /// Makes the module from its parameters; the `port` parameter must be
    /// present.
    pub fn new(_param: &ParamMap) -> (res: Http<A>)
        requires
            _param@.contains_key(port_key()),
        ensures
            res.port() == port_from(_param@[port_key()]),
            res.server().sessions() == Map::<i64, A>::empty(),
            res.server().next_id() == 0,
    {
        proof {
            reveal_strlit("port");
            assert("port"@ =~= port_key());
        }
        let text = _param.get("port").unwrap();
        let _port = match parse_i32(text.as_str()) {
            Some(p) => p,
            None => DEFAULT_PORT,
        };
        Http { m_port: _port, m_server: WsChatServer::new() }
    }

    pub closed spec fn port(&self) -> i32 {
        self.m_port
    }

    pub closed spec fn server(&self) -> WsChatServer<A> {
        self.m_server
    }

    /// The port this module listens on.
    pub fn listen_port(&self) -> (res: i32)
        ensures
            res == self.port(),
    {
        self.m_port
    }

    /// The address the HTTP server binds.
    pub fn bind_address(&self) -> (res: String)
        ensures
            res@ == bind_address_spec(self.port()),
    {
        proof {
            reveal_strlit("0.0.0.0:");
        }
        let digits = i64_to_decimal(self.m_port as i64);
        let res = String::from_str("0.0.0.0:").concat(digits.as_str());
        assert(res@ =~= bind_address_spec(self.port()));
        res
    }
}

impl<A> ServiceModule for Http<A> {
    fn get_name(&self) -> (res: &'static str)
        ensures
            res@ == http_name(),
    {
        proof {
            reveal_strlit("http");
            assert("http"@ =~= http_name());
        }
        "http"
    }
}

/// A port written in decimal is read back as itself: configuring the text
/// of a port makes the module listen on that port, and the bind address
/// carries that same text.
pub proof fn lemma_port_text_round_trip(p: i32)
    ensures
        port_from(decimal_int(p as int)) == p,
        bind_address_spec(port_from(decimal_int(p as int))) == seq!['0', '.', '0', '.', '0', '.', '0', ':']
            + decimal_int(p as int),
{
    lemma_parse_render_i32(p);
}

/// What a websocket connection carries to or from a session.
pub enum WsPayloadData {
    Text(String),
    Binary(Vec<u8>),
}

/// A payload the chat server hands to a session for its client.
pub struct WsMessage(pub WsPayloadData);

/// A session asks the chat server for an id, giving its address.
pub struct WsConnect<A> {
    pub addr: A,
}

/// A session tells the chat server that it is gone.
pub struct WsDisconnect {
    pub id: i64,
}

/// A binary frame a client sent, forwarded to the chat server.
pub struct WsBinaryMessage {
    pub id: i64,
    pub msg: Vec<u8>,
}

/// A text frame a client sent, forwarded to the chat server.
pub struct WsStringMessage {
    pub id: i64,
    pub msg: String,
}

/// The id the chat server hands out after `id`: the next integer, wrapping
/// around at the end of the range as an atomic `fetch_add` does.
pub open spec fn next_after(id: i64) -> i64 {
    if id == i64::MAX {
        i64::MIN
    } else {
        (id + 1) as i64
    }
}

/// The chat server: gives each connecting session an id and keeps the
/// address of every session that is connected.
pub struct WsChatServer<A> {
    m_inc: i64,
    m_sessions: HashMap<i64, A>,
}

impl<A> WsChatServer<A> {
    /// The connected sessions, by id.
    pub closed spec fn sessions(&self) -> Map<i64, A> {
        self.m_sessions@
    }

    /// The id the next connecting session gets.
    pub closed spec fn next_id(&self) -> i64 {
        self.m_inc
    }

    /// Every connected session has an id below the next one to be handed
    /// out, and ids are handed out from zero upwards.
    pub open spec fn ids_fresh(&self) -> bool {
        &&& 0 <= self.next_id()
        &&& forall|id: i64| #[trigger] self.sessions().contains_key(id) ==> 0 <= id < self.next_id()
    }

    /// A server with no sessions that hands out ids from zero.
    pub fn new() -> (res: WsChatServer<A>)
        ensures
            res.sessions() == Map::<i64, A>::empty(),
            res.next_id() == 0,
    {
        WsChatServer { m_inc: 0, m_sessions: HashMap::new() }
    }

    /// Registers a session and returns the id it was given.
    pub fn connect(&mut self, addr: A) -> (id: i64)
        ensures
            id == old(self).next_id(),
            final(self).next_id() == next_after(old(self).next_id()),
            final(self).sessions() == old(self).sessions().insert(id, addr),
    {
        let id = self.m_inc;
        self.m_inc = if self.m_inc == i64::MAX {
            i64::MIN
        } else {
            self.m_inc + 1
        };
        self.m_sessions.insert(id, addr);
        id
    }

    /// Forgets the session with id `id`.
    pub fn disconnect(&mut self, id: i64)
        ensures
            final(self).next_id() == old(self).next_id(),
            final(self).sessions() == old(self).sessions().remove(id),
    {
        self.m_sessions.remove(&id);
    }

    /// The address of the session with id `dest_id`, to send it a message,
    /// if that session is connected.
    pub fn recipient(&self, dest_id: i64) -> (res: Option<&A>)
        ensures
            match res {
                Some(a) => self.sessions().contains_key(dest_id) && self.sessions()[dest_id] == *a,
                None => !self.sessions().contains_key(dest_id),
            },
    {
        self.m_sessions.get(&dest_id)
    }
}

/// Connecting hands out an id no connected session holds, and keeps ids
/// fresh, as long as the counter has not reached the end of its range.
pub proof fn lemma_connect_fresh<A>(before: WsChatServer<A>, after: WsChatServer<A>, id: i64, addr: A)
    requires
        before.ids_fresh(),
        before.next_id() < i64::MAX,
        id == before.next_id(),
        after.next_id() == next_after(before.next_id()),
        after.sessions() == before.sessions().insert(id, addr),
    ensures
        !before.sessions().contains_key(id),
        after.ids_fresh(),
        after.sessions()[id] == addr,
{
}

/// A message the chat server handles, as far as its registry is concerned.
pub enum ChatOp<A> {
    /// A session connects with this address.
    Connect(A),
    /// The session with this id goes away.
    Disconnect(i64),
    /// A text or binary message from a session, which leaves the registry
    /// as it is.
    Forward,
}

/// `after` and `returned` are what handling `op` in `before` gives, as
/// `connect` and `disconnect` state it.
pub open spec fn chat_step<A>(
    before: WsChatServer<A>,
    op: ChatOp<A>,
    after: WsChatServer<A>,
    returned: Option<i64>,
) -> bool {
    match op {
        ChatOp::Connect(addr) => {
            &&& returned == Some(before.next_id())
            &&& after.next_id() == next_after(before.next_id())
            &&& after.sessions() == before.sessions().insert(before.next_id(), addr)
        },
        ChatOp::Disconnect(id) => {
            &&& returned is None
            &&& after.next_id() == before.next_id()
            &&& after.sessions() == before.sessions().remove(id)
        },
        ChatOp::Forward => returned is None && after == before,
    }
}

impl<A> WsChatServer<A> {
    /// Handles a message from a session: a connect registers the session
    /// and returns its id, a disconnect forgets it, and a text or binary
    /// message leaves the registry as it is.
    pub fn handle(&mut self, op: ChatOp<A>) -> (res: Option<i64>)
        ensures
            chat_step(*old(self), op, *final(self), res),
    {
        match op {
            ChatOp::Connect(addr) => Some(self.connect(addr)),
            ChatOp::Disconnect(id) => {
                self.disconnect(id);
                None
            },
            ChatOp::Forward => None,
        }
    }
}

/// Handling a disconnect forgets exactly that session: every other
/// session stays registered under its id with the same address, no id is
/// returned, and the next id to hand out does not change.
pub proof fn lemma_handle_disconnect_forgets_only_it<A>(
    before: WsChatServer<A>,
    id: i64,
    after: WsChatServer<A>,
    returned: Option<i64>,
)
    requires
        chat_step(before, ChatOp::Disconnect(id), after, returned),
    ensures
        returned is None,
        after.next_id() == before.next_id(),
        !after.sessions().contains_key(id),
        forall|other: i64|
            other != id ==> (#[trigger] after.sessions().contains_key(other)
                <==> before.sessions().contains_key(other)),
        forall|other: i64|
            other != id && before.sessions().contains_key(other) ==> #[trigger] after.sessions()[other]
                == before.sessions()[other],
        after.sessions().dom().len() == if before.sessions().contains_key(id) {
            before.sessions().dom().len() - 1
        } else {
            before.sessions().dom().len() as int
        },
{
}

/// Handling a connect registers the new session under the id it returns,
/// with its address, and leaves every session already there as it was.
pub proof fn lemma_handle_connect_keeps_others<A>(
    before: WsChatServer<A>,
    addr: A,
    after: WsChatServer<A>,
    returned: Option<i64>,
)
    requires
        chat_step(before, ChatOp::Connect(addr), after, returned),
    ensures
        returned == Some(before.next_id()),
        after.sessions().contains_key(before.next_id()),
        after.sessions()[before.next_id()] == addr,
        forall|other: i64|
            other != before.next_id() ==> (#[trigger] after.sessions().contains_key(other)
                <==> before.sessions().contains_key(other)),
        forall|other: i64|
            other != before.next_id() && before.sessions().contains_key(other)
                ==> #[trigger] after.sessions()[other] == before.sessions()[other],
{
}

/// A text or binary message leaves the registry and the id counter as they
/// were.
pub proof fn lemma_handle_forward_changes_nothing<A>(
    before: WsChatServer<A>,
    after: WsChatServer<A>,
    returned: Option<i64>,
)
    requires
        chat_step(before, ChatOp::Forward, after, returned),
    ensures
        returned is None,
        after.sessions() == before.sessions(),
        after.next_id() == before.next_id(),
{
}

/// How many of `ops` are connects.
pub open spec fn connects_in<A>(ops: Seq<ChatOp<A>>) -> int
    decreases ops.len(),
{
    if ops.len() == 0 {
        0
    } else {
        connects_in(ops.drop_last()) + if ops.last() is Connect {
            1int
        } else {
            0int
        }
    }
}

/// Over any run from a new chat server, the k-th connect gets id k - 1:
/// ids are handed out as 0, 1, 2, ... whatever disconnects and messages
/// come in between, so no two connects get the same id and no connect gets
/// the id of a session that is still connected. This holds while the
/// number of connects stays within the range of `i64`.
pub proof fn lemma_ids_over_run<A>(
    states: Seq<WsChatServer<A>>,
    ops: Seq<ChatOp<A>>,
    rets: Seq<Option<i64>>,
)
    requires
        states.len() == ops.len() + 1,
        rets.len() == ops.len(),
        states[0].next_id() == 0,
        states[0].sessions() == Map::<i64, A>::empty(),
        forall|i: int| 0 <= i < ops.len() ==> chat_step(states[i], #[trigger] ops[i], states[i + 1], rets[i]),
        connects_in(ops) <= i64::MAX,
    ensures
        forall|i: int|
            0 <= i < ops.len() && #[trigger] ops[i] is Connect ==> rets[i] == Some(
                connects_in(ops.take(i)) as i64,
            ) && !states[i].sessions().contains_key(connects_in(ops.take(i)) as i64),
        forall|i: int| 0 <= i < states.len() ==> (#[trigger] states[i]).ids_fresh(),
    decreases ops.len(),
{
    if ops.len() > 0 {
        let n = ops.len() - 1;
        let ops0 = ops.drop_last();
        lemma_connects_in_prefix_mono(ops, n);
        assert(ops.take(n) =~= ops0);
        lemma_ids_over_run(states.drop_last(), ops0, rets.drop_last());
        assert forall|i: int| 0 <= i < n implies ops0.take(i) =~= ops.take(i) by {}
        lemma_next_id_counts(states, ops, rets, n);
        assert(states.drop_last()[n] == states[n]);
        assert(states[n].ids_fresh());
        assert(chat_step(states[n], ops[n], states[n + 1], rets[n]));
        assert(states[n + 1].ids_fresh());
        assert forall|i: int|
            0 <= i < ops.len() && #[trigger] ops[i] is Connect implies rets[i] == Some(
                connects_in(ops.take(i)) as i64,
            ) && !states[i].sessions().contains_key(connects_in(ops.take(i)) as i64) by {
            if i < n {
                assert(ops0[i] == ops[i]);
                assert(states.drop_last()[i] == states[i]);
                assert(rets.drop_last()[i] == rets[i]);
                assert(ops0.take(i) =~= ops.take(i));
            }
        }
        assert forall|i: int| 0 <= i < states.len() implies (#[trigger] states[i]).ids_fresh() by {
            if i < states.len() - 1 {
                assert(states.drop_last()[i] == states[i]);
            }
        }
    } else {
        assert(states[0].ids_fresh());
    }
}

/// Counting connects over a longer run never gives fewer.
proof fn lemma_connects_in_prefix_mono<A>(ops: Seq<ChatOp<A>>, i: int)
    requires
        0 <= i <= ops.len(),
    ensures
        0 <= connects_in(ops.take(i)) <= connects_in(ops),
    decreases ops.len() - i,
{
    if i < ops.len() {
        lemma_connects_in_prefix_mono(ops.drop_last(), i);
        assert(ops.drop_last().take(i) =~= ops.take(i));
    } else {
        assert(ops.take(i) =~= ops);
        lemma_connects_in_nonneg(ops);
    }
}

proof fn lemma_connects_in_nonneg<A>(ops: Seq<ChatOp<A>>)
    ensures
        connects_in(ops) >= 0,
    decreases ops.len(),
{
    if ops.len() > 0 {
        lemma_connects_in_nonneg(ops.drop_last());
    }
}

/// Along a run from a new server, the next id is the number of connects so
/// far.
proof fn lemma_next_id_counts<A>(
    states: Seq<WsChatServer<A>>,
    ops: Seq<ChatOp<A>>,
    rets: Seq<Option<i64>>,
    k: int,
)
    requires
        states.len() == ops.len() + 1,
        rets.len() == ops.len(),
        states[0].next_id() == 0,
        forall|i: int| 0 <= i < ops.len() ==> chat_step(states[i], #[trigger] ops[i], states[i + 1], rets[i]),
        connects_in(ops) <= i64::MAX,
        0 <= k <= ops.len(),
    ensures
        states[k].next_id() == connects_in(ops.take(k)),
    decreases k,
{
    if k > 0 {
        lemma_next_id_counts(states, ops, rets, k - 1);
        assert(ops.take(k).drop_last() =~= ops.take(k - 1));
        assert(ops.take(k).last() == ops[k - 1]);
        lemma_connects_in_prefix_mono(ops, k);
        assert(chat_step(states[k - 1], ops[k - 1], states[k], rets[k - 1]));
    } else {
        assert(ops.take(0) =~= Seq::<ChatOp<A>>::empty());
    }
}

/// Disconnecting keeps ids fresh and leaves the other sessions as they were.
pub proof fn lemma_disconnect_keeps_others<A>(before: WsChatServer<A>, after: WsChatServer<A>, id: i64)
    requires
        before.ids_fresh(),
        after.next_id() == before.next_id(),
        after.sessions() == before.sessions().remove(id),
    ensures
        after.ids_fresh(),
        !after.sessions().contains_key(id),
        forall|other: i64|
            other != id ==> (#[trigger] after.sessions().contains_key(other)
                == before.sessions().contains_key(other)),
{
}

/// How often a session pings its client, in nanoseconds.
pub const HEARTBEAT_INTERVAL_NANOS: u128 = 5_000_000_000;

/// How long a session waits for a sign of life from its client before it
/// gives up, in nanoseconds.
pub const CLIENT_TIMEOUT_NANOS: u128 = 10_000_000_000;

/// Why a client closed its connection.
pub struct CloseReason {
    pub code: u16,
    pub description: Option<String>,
}

/// What a session receives from its client's stream: a frame, or a
/// protocol error.
pub enum WsEvent {
    ProtocolError,
    Ping(Vec<u8>),
    Pong(Vec<u8>),
    Text(String),
    Binary(Vec<u8>),
    Close(Option<CloseReason>),
    Continuation,
    Nop,
}

/// What a session does about an event from its client.
pub enum SessionAction {
    /// Stop the session.
    Stop,
    /// Answer the client with a pong carrying these bytes.
    Pong(Vec<u8>),
    /// Nothing to do.
    Ignore,
    /// Hand the client's text to the chat server.
    ForwardText(WsStringMessage),
    /// Hand the client's bytes to the chat server.
    ForwardBinary(WsBinaryMessage),
    /// Close the connection with this reason, then stop the session.
    CloseAndStop(Option<CloseReason>),
}

/// What a session does when its heartbeat timer fires.
pub enum HeartbeatAction {
    /// The client has been silent too long: tell the chat server the
    /// session is gone, then stop.
    Disconnect(WsDisconnect),
    /// Ping the client.
    Ping,
}

/// How a session with id `id` reacts to `event`.
pub open spec fn session_reaction(id: i64, event: WsEvent) -> SessionAction {
    match event {
        WsEvent::ProtocolError => SessionAction::Stop,
        WsEvent::Ping(bytes) => SessionAction::Pong(bytes),
        WsEvent::Pong(_) => SessionAction::Ignore,
        WsEvent::Text(text) => SessionAction::ForwardText(WsStringMessage { id, msg: text }),
        WsEvent::Binary(bytes) => SessionAction::ForwardBinary(WsBinaryMessage { id, msg: bytes }),
        WsEvent::Close(reason) => SessionAction::CloseAndStop(reason),
        WsEvent::Continuation => SessionAction::Stop,
        WsEvent::Nop => SessionAction::Ignore,
    }
}

/// Every ping is answered with a pong that echoes its payload, whatever
/// its length, and every close frame, with or without a reason, is answered
/// by closing with that same reason and then stopping; a frame from the
/// client never leaves these unanswered.
pub proof fn lemma_ping_and_close_answered(id: i64, payload: Vec<u8>, reason: Option<CloseReason>)
    ensures
        session_reaction(id, WsEvent::Ping(payload)) matches SessionAction::Pong(p) && p == payload
            && p@ == payload@,
        session_reaction(id, WsEvent::Close(reason)) matches SessionAction::CloseAndStop(r) && r
            == reason,
        session_reaction(id, WsEvent::Ping(payload)) !is Ignore,
        session_reaction(id, WsEvent::Close(reason)) !is Stop,
{
}

/// Text and binary frames are handed on with the session's own id and the
/// client's text or bytes unchanged.
pub proof fn lemma_frames_forwarded_as_sent(id: i64, text: String, bytes: Vec<u8>)
    ensures
        session_reaction(id, WsEvent::Text(text)) matches SessionAction::ForwardText(m) && m.id == id
            && m.msg@ == text@,
        session_reaction(id, WsEvent::Binary(bytes)) matches SessionAction::ForwardBinary(m) && m.id
            == id && m.msg@ == bytes@,
{
}

/// A protocol error or a continuation frame stops the session, and a pong
/// or an empty event needs no answer: only pings and closes are answered,
/// and only text and binary frames reach the chat server.
pub proof fn lemma_other_events(id: i64, payload: Vec<u8>)
    ensures
        session_reaction(id, WsEvent::ProtocolError) is Stop,
        session_reaction(id, WsEvent::Continuation) is Stop,
        session_reaction(id, WsEvent::Pong(payload)) is Ignore,
        session_reaction(id, WsEvent::Nop) is Ignore,
        forall|e: WsEvent| (#[trigger] session_reaction(id, e) is Pong) <==> e is Ping,
        forall|e: WsEvent| (#[trigger] session_reaction(id, e) is CloseAndStop) <==> e is Close,
        forall|e: WsEvent|
            (#[trigger] session_reaction(id, e) is ForwardText || session_reaction(id, e) is ForwardBinary)
                <==> (e is Text || e is Binary),
{
}

/// Time since the last heartbeat at `hb`, seen at `now`; zero when the
/// clock reads earlier than `hb`.
pub open spec fn elapsed_since(hb: u128, now: u128) -> int {
    if now >= hb {
        now - hb
    } else {
        0
    }
}

/// The client last heard of at `hb` has been silent too long at `now`.
pub open spec fn timed_out(hb: u128, now: u128) -> bool {
    elapsed_since(hb, now) > CLIENT_TIMEOUT_NANOS
}

/// One client's websocket session: the id the chat server gave it and when
/// its client last showed a sign of life (a clock reading in nanoseconds).
pub struct WsChatSession {
    id: i64,
    hb: u128,
}

impl WsChatSession {
    pub closed spec fn id(&self) -> i64 {
        self.id
    }

    pub closed spec fn last_heartbeat(&self) -> u128 {
        self.hb
    }

    /// A session that has no id from the server yet, heard of at `now`.
    pub fn new(now: u128) -> (res: WsChatSession)
        ensures
            res.id() == 0,
            res.last_heartbeat() == now,
    {
        WsChatSession { id: 0, hb: now }
    }

    /// The id the chat server gave this session.
    pub fn session_id(&self) -> (res: i64)
        ensures
            res == self.id(),
    {
        self.id
    }

    /// Takes in an event from the client at time `now`. Any frame counts
    /// as a sign of life; a protocol error does not.
    pub fn handle(&mut self, event: WsEvent, now: u128) -> (res: SessionAction)
        ensures
            res == session_reaction(old(self).id(), event),
            final(self).id() == old(self).id(),
            final(self).last_heartbeat() == (if event is ProtocolError {
                old(self).last_heartbeat()
            } else {
                now
            }),
    {
        match event {
            WsEvent::ProtocolError => SessionAction::Stop,
            WsEvent::Ping(bytes) => {
                self.hb = now;
                SessionAction::Pong(bytes)
            },
            WsEvent::Pong(_) => {
                self.hb = now;
                SessionAction::Ignore
            },
            WsEvent::Text(text) => {
                self.hb = now;
                SessionAction::ForwardText(WsStringMessage { id: self.id, msg: text })
            },
            WsEvent::Binary(bytes) => {
                self.hb = now;
                SessionAction::ForwardBinary(WsBinaryMessage { id: self.id, msg: bytes })
            },
            WsEvent::Close(reason) => {
                self.hb = now;
                SessionAction::CloseAndStop(reason)
            },
            WsEvent::Continuation => {
                self.hb = now;
                SessionAction::Stop
            },
            WsEvent::Nop => {
                self.hb = now;
                SessionAction::Ignore
            },
        }
    }

    /// What to do when the heartbeat timer fires at `now`.
    pub fn check_heartbeat(&self, now: u128) -> (res: HeartbeatAction)
        ensures
            timed_out(self.last_heartbeat(), now) ==> res == HeartbeatAction::Disconnect(
                WsDisconnect { id: self.id() },
            ),
            !timed_out(self.last_heartbeat(), now) ==> res is Ping,
    {
        let elapsed: u128 = if now >= self.hb {
            now - self.hb
        } else {
            0
        };
        if elapsed > CLIENT_TIMEOUT_NANOS {
            HeartbeatAction::Disconnect(WsDisconnect { id: self.id })
        } else {
            HeartbeatAction::Ping
        }
    }

    /// Takes in the chat server's answer to the session's request for an
    /// id. Returns whether the session keeps running.
    pub fn on_connected(&mut self, assigned: Option<i64>) -> (keep_running: bool)
        ensures
            keep_running == assigned is Some,
            final(self).id() == (match assigned {
                Some(id) => id,
                None => old(self).id(),
            }),
            final(self).last_heartbeat() == old(self).last_heartbeat(),
    {
        match assigned {
            Some(id) => {
                self.id = id;
                true
            },
            None => false,
        }
    }

    /// The notice the session sends the chat server as it stops.
    pub fn stopping(&self) -> (res: WsDisconnect)
        ensures
            res == (WsDisconnect { id: self.id() }),
    {
        WsDisconnect { id: self.id }
    }
}

/// A session is dropped at a heartbeat check exactly when the clock reads
/// more than the timeout past its last sign of life; a clock that reads
/// earlier than that sign of life never drops it.
pub proof fn lemma_timeout_exactly(s: WsChatSession, now: u128)
    ensures
        timed_out(s.last_heartbeat(), now) <==> now > s.last_heartbeat() + CLIENT_TIMEOUT_NANOS,
{
}

} // verus!
