//! One peer connection's wire protocol, as a state machine.
//!
//! The machine never touches a socket. An outside event loop reports what
//! happened (bytes arrived, a flush finished, a deadline passed) and carries
//! out the [`Step`] it gets back: consume bytes from its input buffer, write
//! bytes, then wait for the expectation with the deadline given, or close.

use vstd::prelude::*;
use crate::codec::compare_bytes;

verus! {

/// How a connection came to be.
#[derive(Debug, PartialEq, Eq, Clone, Copy, Structural)]
pub enum Seed {
    /// Accepted from a peer that connected to us.
    Listen,
    /// Opened by us.
    Connect,
}

/// Whether this side still owes its own handshake once the peer's is valid.
#[derive(Debug, PartialEq, Eq, Clone, Copy, Structural)]
pub enum Reply {
    Yes,
    No,
}

#[derive(Debug, PartialEq, Eq, Clone, Copy, Structural)]
pub enum State {
    /// Outbound: waiting until our handshake can be written.
    SendHandshake,
    /// Waiting for the first byte of the peer's handshake, the length of
    /// its protocol string. The byte is looked at, not consumed.
    AwaitPeerStrLen(Reply),
    /// Waiting for the whole handshake, length byte included, of the given
    /// length.
    AwaitHandshakeBody(Reply, usize),
    /// Inbound: the peer's handshake was valid; our reply is to be written.
    SendReply,
    /// Waiting for a message's 4-byte length.
    AwaitMessageHeader,
    /// Waiting for a message of the given length: its id and body.
    AwaitMessageBody(usize),
    Closed,
}

#[derive(Debug, PartialEq, Eq, Clone, Copy, Structural)]
pub enum Expect {
    /// At least this many bytes in the input buffer.
    Bytes(usize),
    /// All written bytes sent.
    Flush,
}

#[derive(Debug, PartialEq, Eq, Clone, Copy, Structural)]
pub enum Decision {
    Continue { expect: Expect, deadline_secs: u64 },
    Close,
}

/// A message of the core protocol, as received.
#[derive(Debug, PartialEq)]
pub enum Message {
    Choke,
    Unchoke,
    Interested,
    NotInterested,
    Have(u32),
    Bitfield(Vec<u8>),
    Request { index: u32, begin: u32, length: u32 },
    Piece { index: u32, begin: u32, block: Vec<u8> },
    Cancel { index: u32, begin: u32, length: u32 },
    Port(u16),
}

/// What to do after an event.
#[derive(Debug, PartialEq)]
pub struct Step {
    pub decision: Decision,
    /// Bytes to drop from the front of the input buffer.
    pub consumed: usize,
    /// Bytes to write.
    pub output: Vec<u8>,
    /// A message received, for the owner of the connection.
    pub event: Option<Message>,
}

/// One side's stance toward the other.
#[derive(Debug, PartialEq, Eq, Clone, Copy, Structural)]
pub struct StatePerSide {
    /// This side refuses to send pieces to the other.
    pub choked: bool,
    /// This side wants pieces the other has.
    pub interested: bool,
}

impl StatePerSide {
    pub fn new() -> (r: StatePerSide)
        ensures
            r.choked && !r.interested,
    {
        StatePerSide { choked: true, interested: false }
    }
}

/// A connection's session state.
#[derive(Debug)]
pub struct Connection {
    pub state: State,
    /// The torrent's info hash, which the peer must name.
    pub info_hash: Vec<u8>,
    /// Our own peer id.
    pub my_peer_id: Vec<u8>,
    /// The peer's id, once its handshake was accepted.
    pub peer_id: Option<Vec<u8>>,
    /// Our stance toward the peer.
    pub local: StatePerSide,
    /// The peer's stance toward us, as its messages announce it.
    pub remote: StatePerSide,
    /// Seconds allowed for each expectation.
    pub timeout_secs: u64,
}

/// Bytes of a handshake besides its protocol string.
pub const HANDSHAKE_REST_SIZE: usize = 49;

/// Seconds a connection usually allows for each expectation.
pub const DEFAULT_TIMEOUT_SECS: u64 = 10;

/// "BitTorrent protocol"
pub open spec fn protocol_name() -> Seq<u8> {
    seq![66u8, 105, 116, 84, 111, 114, 114, 101, 110, 116, 32, 112, 114, 111, 116, 111, 99, 111, 108]
}

/// Our handshake: the protocol string with its length, eight reserved
/// zero bytes, the info hash and our peer id.
pub open spec fn handshake(info_hash: Seq<u8>, peer_id: Seq<u8>) -> Seq<u8> {
    seq![19u8] + protocol_name() + seq![0u8, 0, 0, 0, 0, 0, 0, 0] + info_hash + peer_id
}

/// A peer's handshake that names the protocol and the expected torrent.
pub open spec fn handshake_ok(h: Seq<u8>, info_hash: Seq<u8>) -> bool {
    &&& h.len() == 68
    &&& h[0] == 19
    &&& h.subrange(1, 20) == protocol_name()
    &&& h.subrange(28, 48) == info_hash
}

/// Big-endian number in the four bytes of `b` from `at`.
pub open spec fn be32(b: Seq<u8>, at: int) -> int {
    b[at] * 16777216 + b[at + 1] * 65536 + b[at + 2] * 256 + b[at + 3]
}

/// `m` is the message whose id and body are `b`.
pub open spec fn message_of(b: Seq<u8>, m: Message) -> bool {
    let p = b.len() - 1;
    &&& b.len() >= 1
    &&& match m {
        Message::Choke => b[0] == 0 && p == 0,
        Message::Unchoke => b[0] == 1 && p == 0,
        Message::Interested => b[0] == 2 && p == 0,
        Message::NotInterested => b[0] == 3 && p == 0,
        Message::Have(index) => b[0] == 4 && p == 4 && index == be32(b, 1),
        Message::Bitfield(bits) => b[0] == 5 && bits@ == b.skip(1),
        Message::Request { index, begin, length } => b[0] == 6 && p == 12 && index == be32(b, 1)
            && begin == be32(b, 5) && length == be32(b, 9),
        Message::Piece { index, begin, block } => b[0] == 7 && p >= 8 && index == be32(b, 1) && begin
            == be32(b, 5) && block@ == b.skip(9),
        Message::Cancel { index, begin, length } => b[0] == 8 && p == 12 && index == be32(b, 1)
            && begin == be32(b, 5) && length == be32(b, 9),
        Message::Port(port) => b[0] == 9 && p == 2 && port == b[1] * 256 + b[2],
    }
}

/// Whether `b` is a message of the core protocol: a known id with a body
/// of the length that id calls for.
pub open spec fn message_known(b: Seq<u8>) -> bool {
    let p = b.len() - 1;
    &&& b.len() >= 1
    &&& {
        ||| (b[0] <= 3 && p == 0)
        ||| (b[0] == 4 && p == 4)
        ||| b[0] == 5
        ||| ((b[0] == 6 || b[0] == 8) && p == 12)
        ||| (b[0] == 7 && p >= 8)
        ||| (b[0] == 9 && p == 2)
    }
}

/// The stance a choke, unchoke, interested or not-interested message gives
/// the peer; other messages leave it.
pub open spec fn after_message(s: StatePerSide, m: Message) -> StatePerSide {
    match m {
        Message::Choke => StatePerSide { choked: true, ..s },
        Message::Unchoke => StatePerSide { choked: false, ..s },
        Message::Interested => StatePerSide { interested: true, ..s },
        Message::NotInterested => StatePerSide { interested: false, ..s },
        _ => s,
    }
}

/// The expectation a state waits on.
pub open spec fn expectation(s: State) -> Option<Expect> {
    match s {
        State::SendHandshake => Some(Expect::Flush),
        State::AwaitPeerStrLen(_) => Some(Expect::Bytes(1)),
        State::AwaitHandshakeBody(_, n) => Some(Expect::Bytes(n)),
        State::SendReply => Some(Expect::Flush),
        State::AwaitMessageHeader => Some(Expect::Bytes(4)),
        State::AwaitMessageBody(n) => Some(Expect::Bytes(n)),
        State::Closed => None,
    }
}

impl Connection {
    /// What an event cannot change.
    pub open spec fn same_session(&self, other: &Connection) -> bool {
        &&& self.info_hash@ == other.info_hash@
        &&& self.my_peer_id@ == other.my_peer_id@
        &&& self.local == other.local
        &&& self.timeout_secs == other.timeout_secs
    }

    /// `step` goes on in `state`, waiting on its expectation with a fresh
    /// deadline.
    pub open spec fn goes_on(&self, step: &Step, state: State) -> bool {
        &&& self.state == state
        &&& expectation(state) matches Some(e)
        &&& step.decision == Decision::Continue { expect: e, deadline_secs: self.timeout_secs }
    }

    /// `step` closes the connection, and nothing else happens.
    pub open spec fn closes(&self, step: &Step) -> bool {
        &&& self.state == State::Closed
        &&& step.decision == Decision::Close
        &&& step.consumed == 0
        &&& step.output@.len() == 0
        &&& step.event is None
    }

    /// The peer's id and stance stay as they were.
    pub open spec fn same_peer(&self, other: &Connection) -> bool {
        &&& self.peer_id == other.peer_id
        &&& self.remote == other.remote
    }

    /// Nothing is read, written or reported.
    pub open spec fn quiet(step: &Step) -> bool {
        &&& step.consumed == 0
        &&& step.output@.len() == 0
        &&& step.event is None
    }
}

fn read_be32(b: &[u8], at: usize) -> (r: u32)
    requires
        at + 4 <= b@.len(),
    ensures
        r == be32(b@, at as int),
{
    (b[at] as u32) * 16777216 + (b[at + 1] as u32) * 65536 + (b[at + 2] as u32) * 256 + (b[at + 3] as u32)
}

fn copy_from(b: &[u8], from: usize) -> (r: Vec<u8>)
    requires
        from <= b@.len(),
    ensures
        r@ == b@.skip(from as int),
{
    let mut out: Vec<u8> = Vec::new();
    let mut i = from;
    while i < b.len()
        invariant
            from <= i <= b@.len(),
            out@ == b@.subrange(from as int, i as int),
        decreases b@.len() - i,
    {
        out.push(b[i]);
        assert(b@.subrange(from as int, i + 1) =~= b@.subrange(from as int, i as int).push(b@[i as int]));
        i = i + 1;
    }
    assert(b@.subrange(from as int, b@.len() as int) =~= b@.skip(from as int));
    out
}

fn push_all(out: &mut Vec<u8>, b: &[u8])
    ensures
        final(out)@ == old(out)@ + b@,
{
    let mut i: usize = 0;
    while i < b.len()
        invariant
            i <= b@.len(),
            out@ == old(out)@ + b@.take(i as int),
        decreases b@.len() - i,
    {
        out.push(b[i]);
        assert(b@.take(i + 1) =~= b@.take(i as int).push(b@[i as int]));
        i = i + 1;
    }
    assert(b@.take(b@.len() as int) =~= b@);
}

/// Decodes a message from its id and body.
pub fn decode_message(b: &[u8]) -> (r: Option<Message>)
    ensures
        r is Some <==> message_known(b@),
        r matches Some(m) ==> message_of(b@, m),
{
    if b.len() == 0 {
        return None;
    }
    let p = b.len() - 1;
    let id = b[0];
    if id <= 3 && p == 0 {
        if id == 0 {
            Some(Message::Choke)
        } else if id == 1 {
            Some(Message::Unchoke)
        } else if id == 2 {
            Some(Message::Interested)
        } else {
            Some(Message::NotInterested)
        }
    } else if id == 4 && p == 4 {
        Some(Message::Have(read_be32(b, 1)))
    } else if id == 5 {
        Some(Message::Bitfield(copy_from(b, 1)))
    } else if (id == 6 || id == 8) && p == 12 {
        let index = read_be32(b, 1);
        let begin = read_be32(b, 5);
        let length = read_be32(b, 9);
        if id == 6 {
            Some(Message::Request { index, begin, length })
        } else {
            Some(Message::Cancel { index, begin, length })
        }
    } else if id == 7 && p >= 8 {
        Some(Message::Piece { index: read_be32(b, 1), begin: read_be32(b, 5), block: copy_from(b, 9) })
    } else if id == 9 && p == 2 {
        Some(Message::Port((b[1] as u16) * 256 + (b[2] as u16)))
    } else {
        None
    }
}

fn protocol_bytes() -> (r: Vec<u8>)
    ensures
        r@ == protocol_name(),
{
    let r = vec![66u8, 105, 116, 84, 111, 114, 114, 101, 110, 116, 32, 112, 114, 111, 116, 111, 99, 111, 108];
    assert(r@ =~= protocol_name());
    r
}

/// Our handshake for the torrent `info_hash`, from the peer `peer_id`.
pub fn handshake_bytes(info_hash: &[u8], peer_id: &[u8]) -> (r: Vec<u8>)
    ensures
        r@ == handshake(info_hash@, peer_id@),
{
    let mut out: Vec<u8> = Vec::new();
    out.push(19u8);
    let p = protocol_bytes();
    push_all(&mut out, p.as_slice());
    let zeros: Vec<u8> = vec![0u8, 0, 0, 0, 0, 0, 0, 0];
    push_all(&mut out, zeros.as_slice());
    push_all(&mut out, info_hash);
    push_all(&mut out, peer_id);
    assert(out@ =~= handshake(info_hash@, peer_id@));
    out
}

/// Whether `h` is a handshake for the protocol and the torrent `info_hash`.
pub fn handshake_valid(h: &[u8], info_hash: &[u8]) -> (r: bool)
    ensures
        r == handshake_ok(h@, info_hash@),
{
    if h.len() != 68 || h[0] != 19 {
        return false;
    }
    let p = protocol_bytes();
    if compare_bytes(vstd::slice::slice_subrange(h, 1, 20), p.as_slice()) != 0 {
        return false;
    }
    compare_bytes(vstd::slice::slice_subrange(h, 28, 48), info_hash) == 0
}

impl Connection {
    /// Starts a connection and says what to wait for first.
    pub fn new(seed: Seed, info_hash: Vec<u8>, my_peer_id: Vec<u8>, timeout_secs: u64) -> (r: (
        Connection,
        Step,
    ))
        ensures
            r.0.info_hash@ == info_hash@,
            r.0.my_peer_id@ == my_peer_id@,
            r.0.peer_id is None,
            r.0.local == (StatePerSide { choked: true, interested: false }),
            r.0.remote == (StatePerSide { choked: true, interested: false }),
            r.0.timeout_secs == timeout_secs,
            seed == Seed::Listen ==> r.0.goes_on(&r.1, State::AwaitPeerStrLen(Reply::Yes)),
            seed == Seed::Connect ==> r.0.goes_on(&r.1, State::SendHandshake),
            Connection::quiet(&r.1),
    {
        let (state, expect) = match seed {
            Seed::Listen => (State::AwaitPeerStrLen(Reply::Yes), Expect::Bytes(1)),
            Seed::Connect => (State::SendHandshake, Expect::Flush),
        };
        let c = Connection {
            state,
            info_hash,
            my_peer_id,
            peer_id: None,
            local: StatePerSide::new(),
            remote: StatePerSide::new(),
            timeout_secs,
        };
        let step = Step {
            decision: Decision::Continue { expect, deadline_secs: timeout_secs },
            consumed: 0,
            output: Vec::new(),
            event: None,
        };
        (c, step)
    }

    fn go_on(&mut self, state: State, consumed: usize, output: Vec<u8>, event: Option<Message>) -> (step: Step)
        requires
            state != State::Closed,
        ensures
            final(self).goes_on(&step, state),
            final(self).same_session(old(self)),
            final(self).same_peer(old(self)),
            step.consumed == consumed,
            step.output == output,
            step.event == event,
    {
        self.state = state;
        let expect = match state {
            State::SendHandshake => Expect::Flush,
            State::AwaitPeerStrLen(_) => Expect::Bytes(1),
            State::AwaitHandshakeBody(_, n) => Expect::Bytes(n),
            State::SendReply => Expect::Flush,
            State::AwaitMessageHeader => Expect::Bytes(4),
            State::AwaitMessageBody(n) => Expect::Bytes(n),
            State::Closed => Expect::Flush,
        };
        Step { decision: Decision::Continue { expect, deadline_secs: self.timeout_secs }, consumed, output, event }
    }

    fn close(&mut self) -> (step: Step)
        ensures
            final(self).closes(&step),
            final(self).same_session(old(self)),
            final(self).same_peer(old(self)),
    {
        self.state = State::Closed;
        Step { decision: Decision::Close, consumed: 0, output: Vec::new(), event: None }
    }

    /// Bytes arrived: `input` is all that the input buffer holds.
    pub fn bytes_ready(&mut self, input: &[u8]) -> (step: Step)
        ensures
            final(self).same_session(old(self)),
            match old(self).state {
                State::AwaitPeerStrLen(reply) => if input@.len() < 1 {
                    final(self).goes_on(&step, old(self).state) && Connection::quiet(&step)
                        && final(self).same_peer(old(self))
                } else {
                    final(self).goes_on(&step, State::AwaitHandshakeBody(reply, (input@[0] + 49) as usize))
                        && Connection::quiet(&step) && final(self).same_peer(old(self))
                },
                State::AwaitHandshakeBody(reply, n) => if input@.len() < n {
                    final(self).goes_on(&step, old(self).state) && Connection::quiet(&step)
                        && final(self).same_peer(old(self))
                } else if handshake_ok(input@.take(n as int), old(self).info_hash@) {
                    &&& final(self).peer_id matches Some(id) && id@ == input@.subrange(n - 20, n as int)
                    &&& final(self).remote == old(self).remote
                    &&& step.consumed == n
                    &&& step.output@.len() == 0
                    &&& step.event is None
                    &&& reply == Reply::Yes ==> final(self).goes_on(&step, State::SendReply)
                    &&& reply == Reply::No ==> final(self).goes_on(&step, State::AwaitMessageHeader)
                } else {
                    final(self).closes(&step)
                },
                State::AwaitMessageHeader => if input@.len() < 4 {
                    final(self).goes_on(&step, old(self).state) && Connection::quiet(&step)
                        && final(self).same_peer(old(self))
                } else {
                    &&& final(self).same_peer(old(self))
                    &&& step.consumed == 4
                    &&& step.output@.len() == 0
                    &&& step.event is None
                    &&& be32(input@, 0) == 0 ==> final(self).goes_on(&step, State::AwaitMessageHeader)
                    &&& be32(input@, 0) != 0 ==> final(self).goes_on(
                        &step,
                        State::AwaitMessageBody(be32(input@, 0) as usize),
                    )
                },
                State::AwaitMessageBody(n) => if input@.len() < n {
                    final(self).goes_on(&step, old(self).state) && Connection::quiet(&step)
                        && final(self).same_peer(old(self))
                } else if message_known(input@.take(n as int)) {
                    &&& final(self).goes_on(&step, State::AwaitMessageHeader)
                    &&& step.consumed == n
                    &&& step.output@.len() == 0
                    &&& step.event matches Some(m) && message_of(input@.take(n as int), m)
                        && final(self).remote == after_message(old(self).remote, m)
                    &&& final(self).peer_id == old(self).peer_id
                } else {
                    final(self).closes(&step)
                },
                _ => final(self).closes(&step),
            },
    {
        match self.state {
            State::AwaitPeerStrLen(reply) => {
                if input.len() < 1 {
                    let st = self.state;
                    return self.go_on(st, 0, Vec::new(), None);
                }
                let n = input[0] as usize + HANDSHAKE_REST_SIZE;
                self.go_on(State::AwaitHandshakeBody(reply, n), 0, Vec::new(), None)
            },
            State::AwaitHandshakeBody(reply, n) => {
                if input.len() < n {
                    let st = self.state;
                    return self.go_on(st, 0, Vec::new(), None);
                }
                let h = vstd::slice::slice_subrange(input, 0, n);
                assert(h@ =~= input@.take(n as int));
                if !handshake_valid(h, self.info_hash.as_slice()) {
                    return self.close();
                }
                let id = copy_from(h, n - 20);
                assert(h@.skip(n - 20) =~= input@.subrange(n - 20, n as int));
                self.peer_id = Some(id);
                match reply {
                    Reply::Yes => self.go_on(State::SendReply, n, Vec::new(), None),
                    Reply::No => self.go_on(State::AwaitMessageHeader, n, Vec::new(), None),
                }
            },
            State::AwaitMessageHeader => {
                if input.len() < 4 {
                    let st = self.state;
                    return self.go_on(st, 0, Vec::new(), None);
                }
                let len = read_be32(input, 0);
                if len == 0 {
                    self.go_on(State::AwaitMessageHeader, 4, Vec::new(), None)
                } else {
                    self.go_on(State::AwaitMessageBody(len as usize), 4, Vec::new(), None)
                }
            },
            State::AwaitMessageBody(n) => {
                if input.len() < n {
                    let st = self.state;
                    return self.go_on(st, 0, Vec::new(), None);
                }
                let body = vstd::slice::slice_subrange(input, 0, n);
                assert(body@ =~= input@.take(n as int));
                match decode_message(body) {
                    None => self.close(),
                    Some(m) => {
                        match m {
                            Message::Choke => {
                                self.remote.choked = true;
                            },
                            Message::Unchoke => {
                                self.remote.choked = false;
                            },
                            Message::Interested => {
                                self.remote.interested = true;
                            },
                            Message::NotInterested => {
                                self.remote.interested = false;
                            },
                            _ => {},
                        }
                        let ghost remote = self.remote;
                        let step = self.go_on(State::AwaitMessageHeader, n, Vec::new(), Some(m));
                        assert(self.remote == remote);
                        step
                    },
                }
            },
            _ => self.close(),
        }
    }

    /// All written bytes were sent.
    pub fn flush_done(&mut self) -> (step: Step)
        ensures
            final(self).same_session(old(self)),
            match old(self).state {
                State::SendHandshake => {
                    &&& final(self).goes_on(&step, State::AwaitPeerStrLen(Reply::No))
                    &&& final(self).same_peer(old(self))
                    &&& step.consumed == 0
                    &&& step.output@ == handshake(old(self).info_hash@, old(self).my_peer_id@)
                    &&& step.event is None
                },
                State::SendReply => {
                    &&& final(self).goes_on(&step, State::AwaitMessageHeader)
                    &&& final(self).same_peer(old(self))
                    &&& step.consumed == 0
                    &&& step.output@ == handshake(old(self).info_hash@, old(self).my_peer_id@)
                    &&& step.event is None
                },
                _ => final(self).closes(&step),
            },
    {
        match self.state {
            State::SendHandshake => {
                let h = handshake_bytes(self.info_hash.as_slice(), self.my_peer_id.as_slice());
                self.go_on(State::AwaitPeerStrLen(Reply::No), 0, h, None)
            },
            State::SendReply => {
                let h = handshake_bytes(self.info_hash.as_slice(), self.my_peer_id.as_slice());
                self.go_on(State::AwaitMessageHeader, 0, h, None)
            },
            _ => self.close(),
        }
    }

    /// The deadline passed: the connection closes.
    pub fn timeout(&mut self) -> (step: Step)
        ensures
            final(self).closes(&step),
            final(self).same_session(old(self)),
            final(self).same_peer(old(self)),
    {
        self.close()
    }

    /// The event loop woke the connection: it goes on waiting as before,
    /// with a fresh deadline.
    pub fn wakeup(&mut self) -> (step: Step)
        ensures
            final(self).same_session(old(self)),
            final(self).same_peer(old(self)),
            old(self).state == State::Closed ==> final(self).closes(&step),
            old(self).state != State::Closed ==> final(self).goes_on(&step, old(self).state)
                && Connection::quiet(&step),
    {
        if self.state == State::Closed {
            return self.close();
        }
        let st = self.state;
        self.go_on(st, 0, Vec::new(), None)
    }
}

/// A handshake whose protocol string is not "BitTorrent protocol", or that
/// names another torrent, is refused.
pub proof fn lemma_handshake_refused(h: Seq<u8>, info_hash: Seq<u8>)
    requires
        h.len() != 68 || h[0] != 19 || h.subrange(1, 20) != protocol_name() || h.subrange(28, 48)
            != info_hash,
    ensures
        !handshake_ok(h, info_hash),
{
}

} // verus!
