//! The per-connection protocol engine. It does no I/O: the event loop hands
//! it the bytes that arrived, asks it what to write, tells it how much was
//! written, and registers the interest that it reports.
use crate::bytes_be::{be_bytes, be_value, read_be_u16, write_be_u16};
use crate::frame::{
    append, decode, frame_bytes, Decoded, Frame, FrameReader, FrameSpec, OpCode, ReadResult,
    MAX_CONTROL_PAYLOAD,
};
use crate::handshake::{bad_request, HandshakeError, HeaderMap};
use vstd::prelude::*;
use vstd::slice::slice_to_vec;
use vstd::string::StringSliceAdditionalSpecFns;
use vstd::utf8::{decode_utf8, encode_utf8, valid_utf8};

verus! {

/// Identifies a connection; the event loop issues it.
#[derive(Clone, Copy, Debug, PartialEq, Eq, Structural, Hash)]
pub struct Token(pub usize);

/// Status code of a normal closure.
pub const NORMAL_CLOSURE: u16 = 1000;

/// Status code of a protocol error.
pub const PROTOCOL_ERROR: u16 = 1002;

/// Status code reported when a peer's close frame had no status.
pub const NO_STATUS: u16 = 1005;

/// Status code reported when the connection ended without a close frame.
pub const ABNORMAL_CLOSURE: u16 = 1006;

/// Status code of a payload that does not match its type (text that is not
/// UTF-8).
pub const INVALID_PAYLOAD: u16 = 1007;

/// What the engine reports to the host, and what the host asks it to send.
#[derive(Clone, Debug, PartialEq, Eq)]
pub enum WebSocketEvent {
    Connect(Token),
    Close(Token, u16),
    Ping(Token, Vec<u8>),
    Pong(Token, Vec<u8>),
    TextMessage(Token, String),
    BinaryMessage(Token, Vec<u8>),
}

pub enum EventSpec {
    Connect(Token),
    Close(Token, u16),
    Ping(Token, Seq<u8>),
    Pong(Token, Seq<u8>),
    TextMessage(Token, Seq<char>),
    BinaryMessage(Token, Seq<u8>),
}

impl View for WebSocketEvent {
    type V = EventSpec;

    open spec fn view(&self) -> EventSpec {
        match self {
            WebSocketEvent::Connect(t) => EventSpec::Connect(*t),
            WebSocketEvent::Close(t, c) => EventSpec::Close(*t, *c),
            WebSocketEvent::Ping(t, p) => EventSpec::Ping(*t, p@),
            WebSocketEvent::Pong(t, p) => EventSpec::Pong(*t, p@),
            WebSocketEvent::TextMessage(t, s) => EventSpec::TextMessage(*t, s@),
            WebSocketEvent::BinaryMessage(t, b) => EventSpec::BinaryMessage(*t, b@),
        }
    }
}

pub open spec fn event_views(v: Seq<WebSocketEvent>) -> Seq<EventSpec> {
    v.map_values(|e: WebSocketEvent| e@)
}

/// Relies on `std::str::from_utf8`: it succeeds exactly on valid UTF-8, and
/// the string then holds the characters that the bytes encode.
#[verifier::external_body]
fn utf8_text(b: &[u8]) -> (r: Option<String>)
    ensures
        r is Some <==> valid_utf8(b@),
        r matches Some(s) ==> s@ == decode_utf8(b@),
{
    match std::str::from_utf8(b) {
        Ok(s) => Some(s.to_owned()),
        Err(_) => None,
    }
}

#[derive(Clone, Copy, Debug, PartialEq, Eq, Structural)]
pub enum ClientState {
    /// Reading the request of the opening handshake.
    AwaitingHandshake,
    /// Writing the answer to the handshake.
    HandshakeResponse,
    /// Exchanging frames.
    Connected,
    /// Writing what is queued; the last thing queued closes the connection.
    Closing,
    /// Nothing more to read or write.
    Closed,
}

/// The readiness that the event loop should wait for on the socket.
#[derive(Clone, Copy, Debug, PartialEq, Eq, Structural)]
pub struct Interest {
    pub readable: bool,
    pub writable: bool,
    pub hup: bool,
}

/// Why a message could not be queued.
#[derive(Clone, Copy, Debug, PartialEq, Eq, Structural)]
pub enum SendError {
    /// Only text, binary, ping and close can be sent.
    WrongMessageType,
    /// The connection is not (or no longer) open for messages.
    NotConnected,
    /// A ping payload over 125 bytes.
    ControlTooLong,
}

pub struct ClientView {
    pub token: Token,
    pub state: ClientState,
    pub headers: Seq<(Seq<u8>, Seq<u8>)>,
    /// Bytes of the buffer being written that have not been written yet.
    pub out: Seq<u8>,
    /// Frames waiting for the buffer to be drained.
    pub queued: Seq<FrameSpec>,
    /// Bytes of an inbound frame in progress.
    pub pending: Seq<u8>,
    /// The opcode and the payload so far of a fragmented message.
    pub fragment: Option<(OpCode, Seq<u8>)>,
}

/// Per-connection state: handshake, then frames.
pub struct WebSocketClient {
    token: Token,
    state: ClientState,
    headers: HeaderMap,
    outgoing: Vec<Frame>,
    outgoing_bytes: Vec<u8>,
    written: usize,
    frame_reader: FrameReader,
    fragment: Option<(OpCode, Vec<u8>)>,
}

impl View for WebSocketClient {
    type V = ClientView;

    closed spec fn view(&self) -> ClientView {
        ClientView {
            token: self.token,
            state: self.state,
            headers: self.headers@,
            out: self.outgoing_bytes@.skip(self.written as int),
            queued: self.outgoing@.map_values(|f: Frame| f@),
            pending: self.frame_reader@.pending,
            fragment: match self.fragment {
                Some((op, p)) => Some((op, p@)),
                None => None,
            },
        }
    }
}

pub open spec fn close_frame_with(payload: Seq<u8>) -> FrameSpec {
    FrameSpec { fin: true, opcode: OpCode::Close, payload }
}

/// A close frame with status `code`.
pub open spec fn close_frame(code: u16) -> FrameSpec {
    close_frame_with(be_bytes(code as nat, 2))
}

/// `v` after queueing the close frame `f`: nothing more is read or queued.
pub open spec fn closing(v: ClientView, f: FrameSpec) -> ClientView {
    ClientView { state: ClientState::Closing, queued: v.queued.push(f), fragment: None, ..v }
}

/// Closing on an error: the close frame carries `code`, and so does the
/// event that tells the host.
pub open spec fn fail(v: ClientView, code: u16) -> (ClientView, Seq<EventSpec>) {
    (closing(v, close_frame(code)), seq![EventSpec::Close(v.token, code)])
}

/// A complete message of type `op`.
pub open spec fn deliver(v: ClientView, op: OpCode, payload: Seq<u8>) -> (ClientView, Seq<EventSpec>) {
    if op == OpCode::Text {
        if valid_utf8(payload) {
            (v, seq![EventSpec::TextMessage(v.token, decode_utf8(payload))])
        } else {
            fail(v, 1007)
        }
    } else {
        (v, seq![EventSpec::BinaryMessage(v.token, payload)])
    }
}

/// The peer's close frame with payload `p`: the host learns the status (1005
/// if there is none) and the same status goes back.
pub open spec fn close_received(v: ClientView, p: Seq<u8>) -> (ClientView, Seq<EventSpec>) {
    if p.len() == 0 {
        (closing(v, close_frame_with(Seq::empty())), seq![EventSpec::Close(v.token, 1005)])
    } else if p.len() == 1 {
        fail(v, 1002)
    } else if !valid_utf8(p.skip(2)) {
        fail(v, 1007)
    } else {
        (
            closing(v, close_frame_with(p.subrange(0, 2))),
            seq![EventSpec::Close(v.token, be_value(p.subrange(0, 2)) as u16)],
        )
    }
}

/// What a connected engine does with one inbound frame.
pub open spec fn on_frame(v: ClientView, f: FrameSpec) -> (ClientView, Seq<EventSpec>) {
    match f.opcode {
        OpCode::Text | OpCode::Binary => {
            if v.fragment is Some {
                fail(v, 1002)
            } else if f.fin {
                deliver(v, f.opcode, f.payload)
            } else {
                (ClientView { fragment: Some((f.opcode, f.payload)), ..v }, Seq::empty())
            }
        },
        OpCode::Continuation => match v.fragment {
            None => fail(v, 1002),
            Some((op, acc)) => {
                if f.fin {
                    deliver(ClientView { fragment: None, ..v }, op, acc + f.payload)
                } else {
                    (ClientView { fragment: Some((op, acc + f.payload)), ..v }, Seq::empty())
                }
            },
        },
        OpCode::Ping => (
            ClientView {
                queued: v.queued.push(FrameSpec { fin: true, opcode: OpCode::Pong, payload: f.payload }),
                ..v
            },
            seq![EventSpec::Ping(v.token, f.payload)],
        ),
        OpCode::Pong => (v, seq![EventSpec::Pong(v.token, f.payload)]),
        OpCode::Close => close_received(v, f.payload),
    }
}

/// What a connected engine does with the inbound bytes `s` (the bytes of a
/// frame in progress included): frame after frame, in order, until the
/// bytes run out or the connection starts closing. Bytes that cannot be a
/// frame close it with 1002.
pub open spec fn absorb(v: ClientView, s: Seq<u8>) -> (ClientView, Seq<EventSpec>)
    decreases s.len(),
{
    if v.state != ClientState::Connected {
        (v, Seq::empty())
    } else {
        match decode(s, true) {
            Decoded::Incomplete => (ClientView { pending: s, ..v }, Seq::empty()),
            Decoded::Failed(_) => fail(ClientView { pending: Seq::empty(), ..v }, 1002),
            Decoded::Done(f, n) => {
                if 0 < n <= s.len() {
                    let a = on_frame(ClientView { pending: Seq::empty(), ..v }, f);
                    let b = absorb(a.0, s.skip(n as int));
                    (b.0, a.1 + b.1)
                } else {
                    (v, Seq::empty())
                }
            },
        }
    }
}

/// The readiness that a connection in the view `v` needs: to write while
/// anything is left to write, to read while it is in the handshake or
/// connected and has nothing to write, and only hang-up once it is closed.
pub open spec fn interest_of(v: ClientView) -> Interest {
    Interest {
        readable: (v.state == ClientState::AwaitingHandshake || v.state == ClientState::Connected)
            && v.out.len() == 0 && v.queued.len() == 0,
        writable: v.out.len() > 0 || v.queued.len() > 0,
        hup: v.state == ClientState::Closed,
    }
}

/// The bytes of frames one after another.
pub open spec fn frames_bytes(fs: Seq<FrameSpec>) -> Seq<u8>
    decreases fs.len(),
{
    if fs.len() == 0 {
        Seq::empty()
    } else {
        frames_bytes(fs.drop_last()) + frame_bytes(fs.last())
    }
}

/// What queueing the message `m` does, or why it cannot be queued.
pub open spec fn queue_message(v: ClientView, m: EventSpec) -> Result<ClientView, SendError> {
    match m {
        EventSpec::Connect(_) | EventSpec::Pong(_, _) => Err(SendError::WrongMessageType),
        _ => {
            if v.state != ClientState::Connected {
                Err(SendError::NotConnected)
            } else {
                match m {
                    EventSpec::TextMessage(_, s) => Ok(
                        ClientView {
                            queued: v.queued.push(
                                FrameSpec { fin: true, opcode: OpCode::Text, payload: encode_utf8(s) },
                            ),
                            ..v
                        },
                    ),
                    EventSpec::BinaryMessage(_, b) => Ok(
                        ClientView {
                            queued: v.queued.push(
                                FrameSpec { fin: true, opcode: OpCode::Binary, payload: b },
                            ),
                            ..v
                        },
                    ),
                    EventSpec::Ping(_, p) => {
                        if p.len() > 125 {
                            Err(SendError::ControlTooLong)
                        } else {
                            Ok(
                                ClientView {
                                    queued: v.queued.push(
                                        FrameSpec { fin: true, opcode: OpCode::Ping, payload: p },
                                    ),
                                    ..v
                                },
                            )
                        }
                    },
                    EventSpec::Close(_, code) => Ok(closing(v, close_frame(code))),
                    _ => Err(SendError::WrongMessageType),
                }
            }
        },
    }
}

} // verus!

verus! {

/// A connection that has just been accepted.
pub open spec fn fresh_client(token: Token) -> ClientView {
    ClientView {
        token,
        state: ClientState::AwaitingHandshake,
        headers: Seq::empty(),
        out: Seq::empty(),
        queued: Seq::empty(),
        pending: Seq::empty(),
        fragment: None,
    }
}

impl WebSocketClient {
    pub closed spec fn wf(&self) -> bool {
        &&& self.headers.wf()
        &&& self.frame_reader.wf()
        &&& self.frame_reader@.masked
        &&& self.written < self.outgoing_bytes@.len() || (self.written == 0
            && self.outgoing_bytes@.len() == 0)
        &&& self.state == ClientState::AwaitingHandshake ==> self@.out.len() == 0
            && self@.queued.len() == 0
        &&& self.state == ClientState::HandshakeResponse ==> self@.out.len() > 0
            && self@.queued.len() == 0
        &&& self.state == ClientState::Closing ==> self@.out.len() > 0 || self@.queued.len() > 0
        &&& self.state == ClientState::Closed ==> self@.out.len() == 0 && self@.queued.len() == 0
    }

    /// A connection that waits for the request of the opening handshake.
    pub fn new(token: Token) -> (r: WebSocketClient)
        ensures
            r.wf(),
            r@ == fresh_client(token),
    {
        let r = WebSocketClient {
            token,
            state: ClientState::AwaitingHandshake,
            headers: HeaderMap::new(),
            outgoing: Vec::new(),
            outgoing_bytes: Vec::new(),
            written: 0,
            frame_reader: FrameReader::new(),
            fragment: None,
        };
        assert(r@.out =~= Seq::<u8>::empty());
        assert(r@.queued =~= Seq::<FrameSpec>::empty());
        assert(r@.headers =~= Seq::<(Seq<u8>, Seq<u8>)>::empty());
        assert(r@.pending =~= Seq::<u8>::empty());
        r
    }

    pub fn token(&self) -> (r: Token)
        ensures
            r == self@.token,
    {
        self.token
    }

    pub fn state(&self) -> (r: ClientState)
        ensures
            r == self@.state,
    {
        self.state
    }

    /// The readiness to register for.
    pub fn interest(&self) -> (r: Interest)
        requires
            self.wf(),
        ensures
            r == interest_of(self@),
            r.writable <==> self@.out.len() > 0 || self@.queued.len() > 0,
            r.readable <==> (self@.state == ClientState::AwaitingHandshake || self@.state
                == ClientState::Connected) && !r.writable,
            r.hup <==> self@.state == ClientState::Closed,
            !(r.readable && r.writable),
    {
        let writable = self.outgoing_bytes.len() > 0 || self.outgoing.len() > 0;
        let open = match self.state {
            ClientState::AwaitingHandshake | ClientState::Connected => true,
            _ => false,
        };
        Interest {
            readable: open && !writable,
            writable,
            hup: self.state == ClientState::Closed,
        }
    }

    /// Whether the connection is done with and can be torn down.
    pub fn is_terminal(&self) -> (r: bool)
        ensures
            r == (self@.state == ClientState::Closed),
    {
        self.state == ClientState::Closed
    }

    fn push_frame(&mut self, f: Frame)
        ensures
            final(self)@ == (ClientView { queued: old(self)@.queued.push(f@), ..old(self)@ }),
            final(self).state == old(self).state,
            final(self).wf() <== old(self).wf() && (old(self).state == ClientState::Connected
                || old(self).state == ClientState::Closing),
    {
        self.outgoing.push(f);
        assert(self@.queued =~= old(self)@.queued.push(f@));
    }

    /// Starts closing: `f` is the last frame queued.
    fn start_closing(&mut self, f: Frame)
        requires
            old(self).wf(),
            old(self).state == ClientState::Connected,
        ensures
            final(self).wf(),
            final(self)@ == closing(old(self)@, f@),
    {
        self.push_frame(f);
        self.state = ClientState::Closing;
        self.fragment = None;
    }

    fn fail(&mut self, code: u16, events: &mut Vec<WebSocketEvent>)
        requires
            old(self).wf(),
            old(self).state == ClientState::Connected,
        ensures
            final(self).wf(),
            final(self)@ == fail(old(self)@, code).0,
            event_views(final(events)@) == event_views(old(events)@) + fail(old(self)@, code).1,
    {
        let payload = write_be_u16(code);
        self.start_closing(Frame { fin: true, opcode: OpCode::Close, payload });
        events.push(WebSocketEvent::Close(self.token, code));
        assert(event_views(events@) =~= event_views(old(events)@) + fail(old(self)@, code).1);
    }

    fn deliver(&mut self, op: OpCode, payload: Vec<u8>, events: &mut Vec<WebSocketEvent>)
        requires
            old(self).wf(),
            old(self).state == ClientState::Connected,
        ensures
            final(self).wf(),
            final(self)@ == deliver(old(self)@, op, payload@).0,
            event_views(final(events)@) == event_views(old(events)@) + deliver(
                old(self)@,
                op,
                payload@,
            ).1,
    {
        if op == OpCode::Text {
            match utf8_text(payload.as_slice()) {
                Some(s) => {
                    events.push(WebSocketEvent::TextMessage(self.token, s));
                },
                None => {
                    self.fail(INVALID_PAYLOAD, events);
                    return ;
                },
            }
        } else {
            events.push(WebSocketEvent::BinaryMessage(self.token, payload));
        }
        assert(event_views(events@) =~= event_views(old(events)@) + deliver(old(self)@, op, payload@).1);
    }

    fn close_received(&mut self, p: Vec<u8>, events: &mut Vec<WebSocketEvent>)
        requires
            old(self).wf(),
            old(self).state == ClientState::Connected,
        ensures
            final(self).wf(),
            final(self)@ == close_received(old(self)@, p@).0,
            event_views(final(events)@) == event_views(old(events)@) + close_received(
                old(self)@,
                p@,
            ).1,
    {
        if p.len() == 0 {
            let empty: Vec<u8> = Vec::new();
            assert(empty@ =~= Seq::<u8>::empty());
            self.start_closing(Frame { fin: true, opcode: OpCode::Close, payload: empty });
            events.push(WebSocketEvent::Close(self.token, NO_STATUS));
        } else if p.len() == 1 {
            self.fail(PROTOCOL_ERROR, events);
            return ;
        } else {
            let mut reason: Vec<u8> = Vec::new();
            let mut i: usize = 2;
            while i < p.len()
                invariant
                    2 <= i <= p@.len(),
                    reason@ == p@.subrange(2, i as int),
                decreases p@.len() - i,
            {
                reason.push(p[i]);
                i = i + 1;
                assert(reason@ =~= p@.subrange(2, i as int));
            }
            assert(reason@ =~= p@.skip(2));
            if utf8_text(reason.as_slice()).is_none() {
                self.fail(INVALID_PAYLOAD, events);
                return ;
            }
            let code = read_be_u16(p.as_slice(), 0);
            let status = vec![p[0], p[1]];
            assert(status@ =~= p@.subrange(0, 2));
            self.start_closing(Frame { fin: true, opcode: OpCode::Close, payload: status });
            events.push(WebSocketEvent::Close(self.token, code));
        }
        assert(event_views(events@) =~= event_views(old(events)@) + close_received(old(self)@, p@).1);
    }
}

} // verus!

verus! {

/// One frame of the inbound bytes, then the rest.
proof fn lemma_absorb_frame(v: ClientView, s: Seq<u8>, f: FrameSpec, n: nat)
    requires
        v.state == ClientState::Connected,
        decode(s, true) == Decoded::Done(f, n),
        0 < n <= s.len(),
    ensures
        ({
            let a = on_frame(ClientView { pending: Seq::empty(), ..v }, f);
            let b = absorb(a.0, s.skip(n as int));
            absorb(v, s) == (b.0, a.1 + b.1)
        }),
{
}

impl WebSocketClient {
    fn on_frame(&mut self, f: Frame, events: &mut Vec<WebSocketEvent>)
        requires
            old(self).wf(),
            old(self).state == ClientState::Connected,
        ensures
            final(self).wf(),
            final(self)@ == on_frame(old(self)@, f@).0,
            event_views(final(events)@) == event_views(old(events)@) + on_frame(old(self)@, f@).1,
    {
        match f.opcode {
            OpCode::Text | OpCode::Binary => {
                if self.fragment.is_some() {
                    self.fail(PROTOCOL_ERROR, events);
                } else if f.fin {
                    self.deliver(f.opcode, f.payload, events);
                } else {
                    self.fragment = Some((f.opcode, f.payload));
                    assert(event_views(events@) =~= event_views(old(events)@) + on_frame(old(self)@, f@).1);
                }
            },
            OpCode::Continuation => {
                match self.fragment.take() {
                    None => {
                        self.fail(PROTOCOL_ERROR, events);
                    },
                    Some((op, acc)) => {
                        let mut acc = acc;
                        append(&mut acc, f.payload.as_slice());
                        if f.fin {
                            self.deliver(op, acc, events);
                        } else {
                            self.fragment = Some((op, acc));
                            assert(event_views(events@) =~= event_views(old(events)@) + on_frame(old(self)@, f@).1);
                        }
                    },
                }
            },
            OpCode::Ping => {
                let copy = slice_to_vec(f.payload.as_slice());
                events.push(WebSocketEvent::Ping(self.token, copy));
                self.push_frame(Frame { fin: true, opcode: OpCode::Pong, payload: f.payload });
                assert(event_views(events@) =~= event_views(old(events)@) + on_frame(old(self)@, f@).1);
            },
            OpCode::Pong => {
                events.push(WebSocketEvent::Pong(self.token, f.payload));
                assert(event_views(events@) =~= event_views(old(events)@) + on_frame(old(self)@, f@).1);
            },
            OpCode::Close => {
                self.close_received(f.payload, events);
            },
        }
    }

    /// Takes the bytes that arrived on a connected socket and returns the
    /// events they make, in the order of the bytes. Frames after one that
    /// starts closing the connection are not read.
    pub fn read(&mut self, data: &[u8]) -> (r: Vec<WebSocketEvent>)
        requires
            old(self).wf(),
        ensures
            final(self).wf(),
            ({
                let x = absorb(old(self)@, old(self)@.pending + data@);
                final(self)@ == x.0 && event_views(r@) == x.1
            }),
    {
        let mut events: Vec<WebSocketEvent> = Vec::new();
        if self.state != ClientState::Connected {
            assert(event_views(events@) =~= Seq::<EventSpec>::empty());
            return events;
        }
        let ghost v0 = self@;
        let ghost all = old(self)@.pending + data@;
        let mut pos: usize = 0;
        assert(data@.subrange(0, data@.len() as int) =~= data@);
        loop
            invariant
                self.wf(),
                v0 == old(self)@,
                self@.token == v0.token,
                all == v0.pending + data@,
                pos <= data@.len(),
                ({
                    let rest = absorb(self@, self@.pending + data@.subrange(pos as int, data@.len() as int));
                    let x = absorb(v0, all);
                    x.0 == rest.0 && x.1 == event_views(events@) + rest.1
                }),
            decreases data@.len() - pos,
        {
            if self.state != ClientState::Connected {
                assert(event_views(events@) + Seq::<EventSpec>::empty() =~= event_views(events@));
                return events;
            }
            let ghost before = self@;
            let ghost cur = self@.pending + data@.subrange(pos as int, data@.len() as int);
            let (res, next) = self.frame_reader.read(data, pos);
            let ghost taken = before.pending + data@.subrange(pos as int, next as int);
            let ghost after = data@.subrange(next as int, data@.len() as int);
            assert(cur =~= taken + after);
            match res {
                ReadResult::NeedMore => {
                    assert(after =~= Seq::<u8>::empty());
                    assert(taken + after =~= taken);
                    assert(self@ == (ClientView { pending: cur, ..before }));
                    assert(event_views(events@) + Seq::<EventSpec>::empty() =~= event_views(events@));
                    return events;
                },
                ReadResult::Error(_) => {
                    proof {
                        crate::frame::lemma_decode_extend(taken, after, true);
                    }
                    self.frame_reader = FrameReader::new();
                    let ghost mid = self@;
                    assert(mid == (ClientView { pending: Seq::empty(), ..before }));
                    let ghost evs = event_views(events@);
                    self.fail(PROTOCOL_ERROR, &mut events);
                    assert(event_views(events@) =~= evs + fail(mid, 1002).1);
                    return events;
                },
                ReadResult::Frame(f) => {
                    proof {
                        crate::frame::lemma_decode_extend(taken, after, true);
                        assert(cur.skip(taken.len() as int) =~= after);
                        lemma_absorb_frame(before, cur, f@, taken.len());
                    }
                    let ghost mid = self@;
                    assert(mid == (ClientView { pending: Seq::empty(), ..before }));
                    let ghost evs = event_views(events@);
                    self.on_frame(f, &mut events);
                    proof {
                        assert(self@.pending + after =~= after);
                        assert(evs + (on_frame(mid, f@).1 + absorb(self@, after).1) =~= (evs
                            + on_frame(mid, f@).1) + absorb(self@, after).1);
                    }
                    pos = next;
                },
            }
        }
    }
}

} // verus!

verus! {

proof fn lemma_switching_head_nonempty()
    ensures
        crate::handshake::SWITCHING_HEAD.spec_bytes().len() > 0,
{
    reveal_strlit(
        "HTTP/1.1 101 Switching Protocols\r\nUpgrade: websocket\r\nConnection: Upgrade\r\nSec-WebSocket-Accept: ",
    );
    let c = crate::handshake::SWITCHING_HEAD@;
    assert(c.len() > 0);
    assert(encode_utf8(c) == vstd::utf8::encode_scalar(c[0] as u32) + encode_utf8(c.drop_first()));
}

impl WebSocketClient {
    /// Records a header of the handshake request; ignored once the request
    /// is complete.
    pub fn add_header(&mut self, name: &[u8], value: &[u8])
        requires
            old(self).wf(),
        ensures
            final(self).wf(),
            final(self)@ == if old(self)@.state == ClientState::AwaitingHandshake {
                ClientView { headers: crate::handshake::added(old(self)@.headers, name@, value@), ..old(self)@ }
            } else {
                old(self)@
            },
    {
        if self.state == ClientState::AwaitingHandshake {
            self.headers.add(name, value);
        }
    }

    /// Answers a request that is not a valid upgrade with `400 Bad Request`,
    /// then closes.
    pub fn refuse_handshake(&mut self)
        requires
            old(self).wf(),
        ensures
            final(self).wf(),
            final(self)@ == if old(self)@.state == ClientState::AwaitingHandshake {
                ClientView {
                    state: ClientState::Closing,
                    out: crate::handshake::BAD_REQUEST.spec_bytes(),
                    ..old(self)@
                }
            } else {
                old(self)@
            },
    {
        if self.state == ClientState::AwaitingHandshake {
            self.outgoing_bytes = bad_request();
            self.written = 0;
            self.state = ClientState::Closing;
            proof {
                reveal_strlit("HTTP/1.1 400 Bad Request\r\nContent-Length: 0\r\n\r\n");
                vstd::utf8::is_ascii_chars_encode_utf8(crate::handshake::BAD_REQUEST@);
            }
            assert(self@.out =~= crate::handshake::BAD_REQUEST.spec_bytes());
        }
    }

    /// The request's headers are all in: answers with `101 Switching
    /// Protocols` if the request is a valid upgrade, else refuses it.
    pub fn headers_complete(&mut self) -> (r: Result<(), HandshakeError>)
        requires
            old(self).wf(),
        ensures
            final(self).wf(),
            old(self)@.state != ClientState::AwaitingHandshake ==> final(self)@ == old(self)@ && r
                is Ok,
            old(self)@.state == ClientState::AwaitingHandshake ==> match crate::handshake::request_key(
                old(self)@.headers,
            ) {
                Ok(k) => r is Ok && final(self)@ == (ClientView {
                    state: ClientState::HandshakeResponse,
                    out: crate::handshake::switching_response(k),
                    ..old(self)@
                }),
                Err(e) => r == Err::<(), HandshakeError>(e) && final(self)@ == (ClientView {
                    state: ClientState::Closing,
                    out: crate::handshake::BAD_REQUEST.spec_bytes(),
                    ..old(self)@
                }),
            },
    {
        if self.state != ClientState::AwaitingHandshake {
            return Ok(());
        }
        match self.headers.response() {
            Ok(bytes) => {
                proof {
                    lemma_switching_head_nonempty();
                }
                assert(bytes@.len() > 0);
                self.outgoing_bytes = bytes;
                self.written = 0;
                self.state = ClientState::HandshakeResponse;
                assert(self@.out =~= bytes@);
                Ok(())
            },
            Err(e) => {
                self.refuse_handshake();
                Err(e)
            },
        }
    }

    /// Queues a message for the peer. Only text, binary, ping and close can be
    /// sent, and only on an open connection; a close is the last thing sent.
    pub fn send_message(&mut self, msg: WebSocketEvent) -> (r: Result<(), SendError>)
        requires
            old(self).wf(),
        ensures
            final(self).wf(),
            match queue_message(old(self)@, msg@) {
                Ok(v) => r is Ok && final(self)@ == v,
                Err(e) => r == Err::<(), SendError>(e) && final(self)@ == old(self)@,
            },
    {
        match msg {
            WebSocketEvent::Connect(_) | WebSocketEvent::Pong(_, _) => {
                return Err(SendError::WrongMessageType);
            },
            _ => {},
        }
        if self.state != ClientState::Connected {
            return Err(SendError::NotConnected);
        }
        match msg {
            WebSocketEvent::TextMessage(_, s) => {
                let payload = slice_to_vec(s.as_str().as_bytes());
                self.push_frame(Frame { fin: true, opcode: OpCode::Text, payload });
            },
            WebSocketEvent::BinaryMessage(_, b) => {
                self.push_frame(Frame { fin: true, opcode: OpCode::Binary, payload: b });
            },
            WebSocketEvent::Ping(_, p) => {
                if p.len() > MAX_CONTROL_PAYLOAD {
                    return Err(SendError::ControlTooLong);
                }
                self.push_frame(Frame { fin: true, opcode: OpCode::Ping, payload: p });
            },
            WebSocketEvent::Close(_, code) => {
                let payload = write_be_u16(code);
                self.start_closing(Frame { fin: true, opcode: OpCode::Close, payload });
            },
            _ => {
                return Err(SendError::WrongMessageType);
            },
        }
        Ok(())
    }

    /// The bytes to write now. When the buffer being written is drained,
    /// every queued frame is serialized into a fresh one.
    pub fn output(&mut self) -> (r: Vec<u8>)
        requires
            old(self).wf(),
        ensures
            final(self).wf(),
            r@ == final(self)@.out,
            old(self)@.out.len() > 0 ==> final(self)@ == old(self)@,
            old(self)@.out.len() == 0 ==> final(self)@ == (ClientView {
                out: frames_bytes(old(self)@.queued),
                queued: Seq::empty(),
                ..old(self)@
            }),
    {
        if self.outgoing_bytes.len() == 0 && self.outgoing.len() > 0 {
            let mut buf: Vec<u8> = Vec::new();
            let mut i: usize = 0;
            let ghost q = self@.queued;
            while i < self.outgoing.len()
                invariant
                    i <= self.outgoing@.len(),
                    q == self.outgoing@.map_values(|f: Frame| f@),
                    buf@ == frames_bytes(q.subrange(0, i as int)),
                    buf@.len() >= i * 2,
                decreases self.outgoing@.len() - i,
            {
                let ghost before = buf@;
                self.outgoing[i].write_to(&mut buf);
                i = i + 1;
                assert(q.subrange(0, i as int).drop_last() =~= q.subrange(0, i - 1));
            }
            assert(q.subrange(0, i as int) =~= q);
            self.outgoing_bytes = buf;
            self.written = 0;
            self.outgoing = Vec::new();
            assert(self@.out =~= frames_bytes(q));
            assert(self@.queued =~= Seq::<FrameSpec>::empty());
        } else if self.outgoing_bytes.len() == 0 {
            assert(old(self)@.queued =~= Seq::<FrameSpec>::empty());
            assert(frames_bytes(old(self)@.queued) =~= old(self)@.out);
        }
        let mut r: Vec<u8> = Vec::new();
        let mut i = self.written;
        while i < self.outgoing_bytes.len()
            invariant
                self.written <= i <= self.outgoing_bytes@.len(),
                r@ == self.outgoing_bytes@.subrange(self.written as int, i as int),
            decreases self.outgoing_bytes@.len() - i,
        {
            r.push(self.outgoing_bytes[i]);
            i = i + 1;
            assert(r@ =~= self.outgoing_bytes@.subrange(self.written as int, i as int));
        }
        r
    }

    /// Records that the first `n` bytes of the output went out. When all is
    /// written: the answer to the handshake opens the connection (the host
    /// learns of it), and a closing connection is closed.
    pub fn write(&mut self, n: usize) -> (r: Option<WebSocketEvent>)
        requires
            old(self).wf(),
            n <= old(self)@.out.len(),
        ensures
            final(self).wf(),
            ({
                let v = ClientView { out: old(self)@.out.skip(n as int), ..old(self)@ };
                let done = v.out.len() == 0 && v.queued.len() == 0;
                if done && v.state == ClientState::HandshakeResponse {
                    final(self)@ == (ClientView { state: ClientState::Connected, ..v })
                        && (r matches Some(e) && e@ == EventSpec::Connect(v.token))
                } else if done && v.state == ClientState::Closing {
                    final(self)@ == (ClientView { state: ClientState::Closed, ..v }) && r is None
                } else {
                    final(self)@ == v && r is None
                }
            }),
    {
        let ghost v = ClientView { out: old(self)@.out.skip(n as int), ..old(self)@ };
        let len = self.outgoing_bytes.len();
        assert(old(self)@.out.len() == len - self.written);
        self.written = self.written + n;
        if self.written == self.outgoing_bytes.len() {
            self.outgoing_bytes = Vec::new();
            self.written = 0;
        }
        assert(self@.out =~= v.out);
        if self.outgoing_bytes.len() == 0 && self.outgoing.len() == 0 {
            if self.state == ClientState::HandshakeResponse {
                self.state = ClientState::Connected;
                return Some(WebSocketEvent::Connect(self.token));
            } else if self.state == ClientState::Closing {
                self.state = ClientState::Closed;
            }
        }
        None
    }

    /// The socket hung up or failed: the connection is closed at once. A host
    /// that saw it open learns of it with status 1006.
    pub fn hang_up(&mut self) -> (r: Option<WebSocketEvent>)
        requires
            old(self).wf(),
        ensures
            final(self).wf(),
            final(self)@ == (ClientView {
                state: ClientState::Closed,
                out: Seq::empty(),
                queued: Seq::empty(),
                ..old(self)@
            }),
            old(self)@.state == ClientState::Connected ==> (r matches Some(e) && e@ == EventSpec::Close(
                old(self)@.token,
                ABNORMAL_CLOSURE,
            )),
            old(self)@.state != ClientState::Connected ==> r is None,
    {
        let was_connected = self.state == ClientState::Connected;
        self.state = ClientState::Closed;
        self.outgoing_bytes = Vec::new();
        self.written = 0;
        self.outgoing = Vec::new();
        assert(self@.out =~= Seq::<u8>::empty());
        assert(self@.queued =~= Seq::<FrameSpec>::empty());
        if was_connected {
            Some(WebSocketEvent::Close(self.token, ABNORMAL_CLOSURE))
        } else {
            None
        }
    }
}

} // verus!

verus! {

/// A connected engine's reading does not depend on the bytes it held before
/// the new ones were appended: it replaces them.
proof fn lemma_absorb_ignores_pending(v: ClientView, p: Seq<u8>, s: Seq<u8>)
    requires
        v.state == ClientState::Connected,
    ensures
        absorb(ClientView { pending: p, ..v }, s) == absorb(v, s),
{
    let w = ClientView { pending: p, ..v };
    assert(ClientView { pending: Seq::<u8>::empty(), ..w } == ClientView {
        pending: Seq::<u8>::empty(),
        ..v
    });
    assert(ClientView { pending: s, ..w } == ClientView { pending: s, ..v });
}

/// Events follow the order in which bytes arrive, however the bytes are cut:
/// reading `s` and then `b` leaves the engine as reading `s + b` at once
/// does, and reports the same events in the same order.
pub proof fn lemma_read_in_order(v: ClientView, s: Seq<u8>, b: Seq<u8>)
    ensures
        ({
            let x = absorb(v, s);
            let y = absorb(x.0, x.0.pending + b);
            absorb(v, s + b) == (y.0, x.1 + y.1)
        }),
    decreases s.len(),
{
    let x = absorb(v, s);
    if v.state != ClientState::Connected {
        assert(x.1 + Seq::<EventSpec>::empty() =~= x.1);
    } else {
        match decode(s, true) {
            Decoded::Incomplete => {
                lemma_absorb_ignores_pending(v, s, s + b);
                assert(Seq::<EventSpec>::empty() + absorb(v, s + b).1 =~= absorb(v, s + b).1);
            },
            Decoded::Failed(_) => {
                crate::frame::lemma_decode_extend(s, b, true);
                assert(x.1 + Seq::<EventSpec>::empty() =~= x.1);
            },
            Decoded::Done(f, n) => {
                crate::frame::lemma_decode_extend(s, b, true);
                if 0 < n <= s.len() {
                    let a = on_frame(ClientView { pending: Seq::empty(), ..v }, f);
                    assert((s + b).skip(n as int) =~= s.skip(n as int) + b);
                    lemma_read_in_order(a.0, s.skip(n as int), b);
                    let x2 = absorb(a.0, s.skip(n as int));
                    let y = absorb(x2.0, x2.0.pending + b);
                    assert(a.1 + (x2.1 + y.1) =~= (a.1 + x2.1) + y.1);
                }
            },
        }
    }
}

/// `on_frame` keeps the bytes held of a frame in progress.
proof fn lemma_on_frame_keeps_pending(v: ClientView, f: FrameSpec)
    ensures
        on_frame(v, f).0.pending == v.pending,
        on_frame(v, f).0.token == v.token,
{
}

/// A connected engine that reads exactly one valid frame from a client does
/// what `on_frame` says, and holds no partial frame afterwards.
pub proof fn lemma_read_one_frame(v: ClientView, f: FrameSpec, key: Seq<u8>)
    requires
        v.state == ClientState::Connected,
        v.pending.len() == 0,
        crate::frame::valid_frame(f),
        key.len() == 4,
    ensures
        absorb(v, crate::frame::masked_frame_bytes(f, key)) == on_frame(v, f),
{
    let w = crate::frame::masked_frame_bytes(f, key);
    crate::frame::lemma_decode_wire(f, true, key, Seq::empty());
    assert(w + Seq::<u8>::empty() =~= w);
    assert(v.pending =~= Seq::<u8>::empty());
    assert(ClientView { pending: Seq::<u8>::empty(), ..v } == v);
    let a = on_frame(v, f);
    lemma_on_frame_keeps_pending(v, f);
    assert(w.skip(w.len() as int) =~= Seq::<u8>::empty());
    assert(a.0.pending =~= Seq::<u8>::empty());
    assert(ClientView { pending: Seq::<u8>::empty(), ..a.0 } == a.0);
    assert(absorb(a.0, Seq::<u8>::empty()) == (a.0, Seq::<EventSpec>::empty()));
    assert(a.1 + Seq::<EventSpec>::empty() =~= a.1);
}

/// A text message `m` (valid UTF-8) from the peer reaches the host as the
/// characters it encodes; sent back, it is queued as a text frame with the
/// very same bytes.
pub proof fn lemma_echo(v: ClientView, m: Seq<u8>, key: Seq<u8>)
    requires
        v.state == ClientState::Connected,
        v.pending.len() == 0,
        v.fragment is None,
        valid_utf8(m),
        m.len() < 0x8000_0000_0000_0000,
        key.len() == 4,
    ensures
        ({
            let text = FrameSpec { fin: true, opcode: OpCode::Text, payload: m };
            let x = absorb(v, crate::frame::masked_frame_bytes(text, key));
            &&& x.1 == seq![EventSpec::TextMessage(v.token, decode_utf8(m))]
            &&& queue_message(x.0, x.1[0]) == Ok::<ClientView, SendError>(
                ClientView { queued: x.0.queued.push(text), ..x.0 },
            )
        }),
{
    let text = FrameSpec { fin: true, opcode: OpCode::Text, payload: m };
    crate::frame::lemma_pow256_values();
    lemma_read_one_frame(v, text, key);
    vstd::utf8::decode_utf8_encode_utf8(m);
}

/// A ping of up to 125 bytes reaches the host and is answered with a pong
/// that carries the same payload.
pub proof fn lemma_ping_answered(v: ClientView, p: Seq<u8>, key: Seq<u8>)
    requires
        v.state == ClientState::Connected,
        v.pending.len() == 0,
        p.len() <= 125,
        key.len() == 4,
    ensures
        absorb(v, crate::frame::masked_frame_bytes(FrameSpec { fin: true, opcode: OpCode::Ping, payload: p }, key))
            == (ClientView {
            queued: v.queued.push(FrameSpec { fin: true, opcode: OpCode::Pong, payload: p }),
            ..v
        }, seq![EventSpec::Ping(v.token, p)]),
{
    crate::frame::lemma_pow256_values();
    lemma_read_one_frame(v, FrameSpec { fin: true, opcode: OpCode::Ping, payload: p }, key);
}

/// A ping of more than 125 bytes is a protocol error: the connection starts
/// closing with 1002.
pub proof fn lemma_long_ping_refused(v: ClientView, p: Seq<u8>, key: Seq<u8>, rest: Seq<u8>)
    requires
        v.state == ClientState::Connected,
        p.len() > 125,
        key.len() == 4,
    ensures
        absorb(
            v,
            crate::frame::masked_frame_bytes(FrameSpec { fin: true, opcode: OpCode::Ping, payload: p }, key)
                + rest,
        ) == fail(ClientView { pending: Seq::empty(), ..v }, 1002),
{
    let s = crate::frame::masked_frame_bytes(FrameSpec { fin: true, opcode: OpCode::Ping, payload: p }, key) + rest;
    assert(s[0] == 137);
    assert(s[1] % 128 == 126 || s[1] % 128 == 127);
}

/// A close frame without payload reaches the host as status 1005 and is
/// answered with an empty close frame.
pub proof fn lemma_empty_close(v: ClientView, key: Seq<u8>)
    requires
        v.state == ClientState::Connected,
        v.pending.len() == 0,
        key.len() == 4,
    ensures
        ({
            let x = absorb(v, crate::frame::masked_frame_bytes(close_frame_with(Seq::empty()), key));
            &&& x.1 == seq![EventSpec::Close(v.token, 1005)]
            &&& x.0 == closing(v, close_frame_with(Seq::empty()))
        }),
{
    crate::frame::lemma_pow256_values();
    lemma_read_one_frame(v, close_frame_with(Seq::empty()), key);
}

/// A close frame with a single byte of payload is malformed: the answer is a
/// close frame with 1002.
pub proof fn lemma_short_close(v: ClientView, b: u8, key: Seq<u8>)
    requires
        v.state == ClientState::Connected,
        v.pending.len() == 0,
        key.len() == 4,
    ensures
        ({
            let x = absorb(v, crate::frame::masked_frame_bytes(close_frame_with(seq![b]), key));
            &&& x.0 == closing(v, close_frame(1002))
            &&& x.1 == seq![EventSpec::Close(v.token, 1002)]
        }),
{
    crate::frame::lemma_pow256_values();
    lemma_read_one_frame(v, close_frame_with(seq![b]), key);
}

} // verus!
