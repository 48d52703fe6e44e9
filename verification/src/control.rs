//! The messages of the control protocol.
use std::collections::HashMap;
use vstd::prelude::*;

use crate::controller::{self, ClientId, Events, ShmController};
use crate::queue::{self, ReadHalf, ShmQueue};

verus! {

/// A tag is an identifier for a pending request.
#[derive(Clone, Copy, Debug, Default, PartialEq, Eq, Structural)]
pub struct Tag(pub u16);

/// The command to invoke, respectively its response if multiple are possible.
#[derive(Clone, Copy, Debug, Default, PartialEq, Eq, Structural)]
pub struct Cmd(pub u16);

/// A message descriptor on the control queue.
///
/// The bits of `op` are used as follows, from the highest to the lowest: 32 bits of argument (for
/// a request) or result (for a response), 16 bits of command or response, 16 bits of tag.
#[derive(Clone, Copy, Debug, Hash, PartialEq, Eq, Structural)]
pub struct ControlMessage {
    pub op: u64,
}

/// A message passed on a socket-control queue.
#[derive(Clone, Copy, Debug, PartialEq, Eq, Structural)]
pub struct SocketMessage(pub ControlMessage);

/// A response as it was read from a control queue.
pub struct ControlResponse<'ring> {
    pub msg: ControlMessage,
    pub ring: &'ring ReadHalf,
}

/// Request a new pipe as a 'server' (queue head A).
pub struct PipeRequest {
    /// An identifier with which other clients can request this ring.
    pub public_id: u32,
    /// The tag identifying the request.
    pub tag: Tag,
}

/// Join a pipe with a public id as a client (queue head B).
pub struct PipeJoin {
    /// The identifier that was used when creating the server.
    pub public_id: u32,
    /// The tag identifying the request.
    pub tag: Tag,
}

/// Purposefully leave a pipe.
pub struct PipeLeave {
    /// The queue to leave.
    pub queue: u32,
    /// The tag identifying the request.
    pub tag: Tag,
}

/// Send a parameterless ping.
pub struct Ping {
    pub payload: Tag,
}

/// Request a new server.
pub struct SocketCreate {
    /// Reserved, ID of a configured descriptor. Must be `0`.
    pub public_id: u32,
    /// The tag identifying the request.
    pub tag: Tag,
}

/// Open a socket on a port. Sent on a socket queue.
pub struct SocketBind {
    /// The port under which to bind the socket.
    pub port: u32,
    /// The tag identifying the request.
    pub tag: Tag,
}

/// Designate an area for accepted connections.
pub struct SocketAccept {
    /// The page where to put accepted sockets.
    pub location: u32,
    /// The tag identifying the request.
    pub tag: Tag,
}

/// Connect to a socket under a port.
pub struct SocketConnect {
    /// The port under which the target socket is bound.
    pub port: u32,
    /// The tag identifying the request.
    pub tag: Tag,
}

/// The numbers of the commands and responses.
impl Cmd {
    pub const BAD: u16 = 0xffff;
    pub const UNIMPLEMENTED: u16 = 0xfffe;
    pub const OUT_OF_QUEUES: u16 = 0xfffd;
    /// Create a new ring as a server.
    pub const REQUEST_PIPE: u16 = 1;
    /// A client connection to an existing server.
    pub const PIPE_JOIN: u16 = 3;
    /// A ping will immediately be answered by a ping back.
    pub const REQUEST_PING: u16 = 2;
    /// Create a queue for a server host, but do not advertise it yet.
    pub const SOCKET_CREATE: u16 = 4;
    /// Advertise a socket on a particular port.
    pub const SOCKET_BIND: u16 = 5;
    /// Connect to a socket on a particular port.
    pub const SOCKET_CONNECT: u16 = 6;
    /// Remove ourselves from a channel, giving the spot up.
    pub const PIPE_LEAVE: u16 = 5;
}

/// The message word with the given argument or result, command and tag.
pub open spec fn packed(value: u32, cmd: Cmd, tag: Tag) -> u64 {
    (value as u64) << 32 | (cmd.0 as u64) << 16 | (tag.0 as u64)
}

/// The tag of a message word.
pub open spec fn tag_of(op: u64) -> Tag {
    Tag((op & 0xffff) as u16)
}

/// The command of a message word.
pub open spec fn cmd_of(op: u64) -> Cmd {
    Cmd(((op >> 16) & 0xffff) as u16)
}

/// The argument or result of a message word.
pub open spec fn value_of(op: u64) -> u32 {
    (op >> 32) as u32
}

/// A message holds exactly the argument, command and tag that it was packed from, and is the only
/// one that does.
pub proof fn lemma_packed_fields(value: u32, cmd: Cmd, tag: Tag)
    ensures
        value_of(packed(value, cmd, tag)) == value,
        cmd_of(packed(value, cmd, tag)) == cmd,
        tag_of(packed(value, cmd, tag)) == tag,
        forall|op: u64| #[trigger]
            value_of(op) == value && cmd_of(op) == cmd && tag_of(op) == tag ==> op == packed(
                value,
                cmd,
                tag,
            ),
{
    let (c, t) = (cmd.0, tag.0);
    assert({
        let op = (value as u64) << 32 | (c as u64) << 16 | (t as u64);
        &&& (op >> 32) as u32 == value
        &&& ((op >> 16) & 0xffff) as u16 == c
        &&& (op & 0xffff) as u16 == t
    }) by (bit_vector);
    assert forall|op: u64| #[trigger]
        value_of(op) == value && cmd_of(op) == cmd && tag_of(op) == tag implies op == packed(
        value,
        cmd,
        tag,
    ) by {
        assert(op == (((op >> 32) as u32) as u64) << 32 | ((((op >> 16) & 0xffff) as u16) as u64)
            << 16 | (((op & 0xffff) as u16) as u64)) by (bit_vector);
    }
}

impl ControlMessage {
    /// Create a new message from any of the requests.
    pub fn new<M: Into<ControlMessage>>(msg: M) -> (r: ControlMessage)
        ensures
            <M as vstd::std_specs::convert::IntoSpec<ControlMessage>>::obeys_into_spec() ==> r
                == <M as vstd::std_specs::convert::IntoSpec<ControlMessage>>::into_spec(msg),
    {
        msg.into()
    }

    /// Add an argument to the control message.
    pub fn with_argument(self, val: u32) -> (r: ControlMessage)
        ensures
            r.op == self.op | (val as u64) << 32,
    {
        self.with_result(val)
    }

    /// A message without an argument.
    pub fn with_raw(cmd: Cmd, tag: Tag) -> (r: ControlMessage)
        ensures
            r.op == packed(0, cmd, tag),
    {
        let (c, t): (u16, u16) = (cmd.0, tag.0);
        assert((0u32 as u64) << 32 | (c as u64) << 16 | (t as u64) == (c as u64) << 16 | (t as u64))
            by (bit_vector);
        ControlMessage { op: (c as u64) << 16 | (t as u64) }
    }

    /// Add a result to the message.
    pub fn with_result(self, val: u32) -> (r: ControlMessage)
        ensures
            r.op == self.op | (val as u64) << 32,
    {
        ControlMessage { op: self.op | (val as u64) << 32 }
    }

    pub fn tag(self) -> (r: Tag)
        ensures
            r == tag_of(self.op),
    {
        Tag((self.op & 0xffff) as u16)
    }

    pub fn cmd(self) -> (r: Cmd)
        ensures
            r == cmd_of(self.op),
    {
        Cmd(((self.op >> 16) & 0xffff) as u16)
    }

    pub fn value0(self) -> (r: u32)
        ensures
            r == value_of(self.op),
    {
        (self.op >> 32) as u32
    }
}

/// Commands of a controller.
impl ControlMessage {
    /// Serve one request of the client `queue_owner`, as
    /// [`ControllerState::execute_control`](crate::controller::ControllerState::execute_control)
    /// does.
    pub fn execute(
        controller: &mut ShmController,
        queue_owner: u32,
        queue: &mut ShmQueue,
        events: Option<&mut Events>,
    )
        ensures
            final(controller).futex == old(controller).futex,
            final(controller).max_members == old(controller).max_members,
            !controller::can_serve(*old(queue)) ==> final(controller).state@ == old(
                controller,
            ).state@ && *final(queue) == *old(queue) && (events matches Some(e) ==> *final(e)
                == *e),
            controller::can_serve(*old(queue)) ==> {
                let msg = queue::be_value(old(queue).read@);
                let out = old(controller).state@.control(ClientId(queue_owner), msg);
                &&& final(controller).state@ == out.state
                &&& final(queue).read@ == old(queue).read@.skip(8)
                &&& final(queue).write@ == old(queue).write@ + queue::be_bytes(
                    controller::answer(msg, out),
                )
                &&& final(queue).write.capacity == old(queue).write.capacity
                &&& (events matches Some(e) ==> final(e).requests@ == e.requests@.push(
                    (
                        ControlMessage { op: msg },
                        ControlMessage { op: controller::answer(msg, out) },
                    ),
                ))
            },
    {
        controller.state.execute_control(ClientId(queue_owner), queue, events)
    }
}

/// Adding a value to a message without one gives the message packed from all three parts.
pub proof fn lemma_with_result(value: u32, cmd: Cmd, tag: Tag)
    ensures
        packed(0, cmd, tag) | (value as u64) << 32 == packed(value, cmd, tag),
{
    let (c, t) = (cmd.0, tag.0);
    assert(((0u32 as u64) << 32 | (c as u64) << 16 | (t as u64)) | (value as u64) << 32 == (
    value as u64) << 32 | (c as u64) << 16 | (t as u64)) by (bit_vector);
}

impl From<PipeRequest> for ControlMessage {
    fn from(v: PipeRequest) -> (r: ControlMessage) {
        proof {
            lemma_with_result(v.public_id, Cmd(Cmd::REQUEST_PIPE), v.tag);
        }
        ControlMessage::with_raw(Cmd(Cmd::REQUEST_PIPE), v.tag).with_argument(v.public_id)
    }
}

impl vstd::std_specs::convert::FromSpecImpl<PipeRequest> for ControlMessage {
    open spec fn obeys_from_spec() -> bool {
        true
    }

    open spec fn from_spec(v: PipeRequest) -> ControlMessage {
        ControlMessage { op: packed(v.public_id, Cmd(Cmd::REQUEST_PIPE), v.tag) }
    }
}

impl From<Ping> for ControlMessage {
    fn from(v: Ping) -> (r: ControlMessage) {
        ControlMessage::with_raw(Cmd(Cmd::REQUEST_PING), v.payload)
    }
}

impl vstd::std_specs::convert::FromSpecImpl<Ping> for ControlMessage {
    open spec fn obeys_from_spec() -> bool {
        true
    }

    open spec fn from_spec(v: Ping) -> ControlMessage {
        ControlMessage { op: packed(0, Cmd(Cmd::REQUEST_PING), v.payload) }
    }
}

impl From<PipeJoin> for ControlMessage {
    fn from(v: PipeJoin) -> (r: ControlMessage) {
        proof {
            lemma_with_result(v.public_id, Cmd(Cmd::PIPE_JOIN), v.tag);
        }
        ControlMessage::with_raw(Cmd(Cmd::PIPE_JOIN), v.tag).with_argument(v.public_id)
    }
}

impl vstd::std_specs::convert::FromSpecImpl<PipeJoin> for ControlMessage {
    open spec fn obeys_from_spec() -> bool {
        true
    }

    open spec fn from_spec(v: PipeJoin) -> ControlMessage {
        ControlMessage { op: packed(v.public_id, Cmd(Cmd::PIPE_JOIN), v.tag) }
    }
}

impl From<PipeLeave> for ControlMessage {
    fn from(v: PipeLeave) -> (r: ControlMessage) {
        proof {
            lemma_with_result(v.queue, Cmd(Cmd::PIPE_LEAVE), v.tag);
        }
        ControlMessage::with_raw(Cmd(Cmd::PIPE_LEAVE), v.tag).with_argument(v.queue)
    }
}

impl vstd::std_specs::convert::FromSpecImpl<PipeLeave> for ControlMessage {
    open spec fn obeys_from_spec() -> bool {
        true
    }

    open spec fn from_spec(v: PipeLeave) -> ControlMessage {
        ControlMessage { op: packed(v.queue, Cmd(Cmd::PIPE_LEAVE), v.tag) }
    }
}

impl From<SocketCreate> for ControlMessage {
    fn from(v: SocketCreate) -> (r: ControlMessage) {
        proof {
            lemma_with_result(v.public_id, Cmd(Cmd::SOCKET_CREATE), v.tag);
        }
        ControlMessage::with_raw(Cmd(Cmd::SOCKET_CREATE), v.tag).with_argument(v.public_id)
    }
}

impl vstd::std_specs::convert::FromSpecImpl<SocketCreate> for ControlMessage {
    open spec fn obeys_from_spec() -> bool {
        true
    }

    open spec fn from_spec(v: SocketCreate) -> ControlMessage {
        ControlMessage { op: packed(v.public_id, Cmd(Cmd::SOCKET_CREATE), v.tag) }
    }
}

impl From<SocketBind> for SocketMessage {
    fn from(v: SocketBind) -> (r: SocketMessage) {
        proof {
            lemma_with_result(v.port, Cmd(Cmd::SOCKET_BIND), v.tag);
        }
        SocketMessage(ControlMessage::with_raw(Cmd(Cmd::SOCKET_BIND), v.tag).with_argument(v.port))
    }
}

impl vstd::std_specs::convert::FromSpecImpl<SocketBind> for SocketMessage {
    open spec fn obeys_from_spec() -> bool {
        true
    }

    open spec fn from_spec(v: SocketBind) -> SocketMessage {
        SocketMessage(ControlMessage { op: packed(v.port, Cmd(Cmd::SOCKET_BIND), v.tag) })
    }
}

impl From<SocketConnect> for ControlMessage {
    fn from(v: SocketConnect) -> (r: ControlMessage) {
        proof {
            lemma_with_result(v.port, Cmd(Cmd::SOCKET_CONNECT), v.tag);
        }
        ControlMessage::with_raw(Cmd(Cmd::SOCKET_CONNECT), v.tag).with_argument(v.port)
    }
}

impl vstd::std_specs::convert::FromSpecImpl<SocketConnect> for ControlMessage {
    open spec fn obeys_from_spec() -> bool {
        true
    }

    open spec fn from_spec(v: SocketConnect) -> ControlMessage {
        ControlMessage { op: packed(v.port, Cmd(Cmd::SOCKET_CONNECT), v.tag) }
    }
}

impl<'ring> ControlResponse<'ring> {
    /// The response in the eight bytes `op`, the most significant first.
    pub fn new(ring: &'ring ReadHalf, op: [u8; 8]) -> (r: ControlResponse<'ring>)
        ensures
            r.msg.op == queue::be_value(op@),
            r.ring == ring,
    {
        let word: u64 = (op[0] as u64) << 56 | (op[1] as u64) << 48 | (op[2] as u64) << 40 | (
        op[3] as u64) << 32 | (op[4] as u64) << 24 | (op[5] as u64) << 16 | (op[6] as u64) << 8 | (
        op[7] as u64);
        ControlResponse { msg: ControlMessage { op: word }, ring }
    }

    pub fn tag(&self) -> (r: Tag)
        ensures
            r == tag_of(self.msg.op),
    {
        self.msg.tag()
    }

    pub fn response(&self) -> (r: Cmd)
        ensures
            r == cmd_of(self.msg.op),
    {
        self.msg.cmd()
    }

    pub fn value0(&self) -> (r: u32)
        ensures
            r == value_of(self.msg.op),
    {
        self.msg.value0()
    }
}

/// A request that a [`Poll`] sends and finds the response of.
pub trait Request {
    type Response;

    /// Set the tag that the poll structure has chosen.
    fn set_tag(&mut self, tag: Tag);

    /// Get the tag of the request.
    fn tag(&self) -> Tag;

    /// Interpret the returned message as a response.
    fn response(&self, response: ControlResponse<'_>) -> Self::Response;
}

/// The ring of a client to its controller.
pub struct ShmControllerRing {
    pub client: ClientId,
    pub queue: ShmQueue,
}

/// A structure with which to poll a control queue.
pub struct Poll {
    /// The ring that is polled.
    pub ring: ShmControllerRing,
    /// The recent responses, by their tag.
    pub responses: HashMap<u16, ControlMessage>,
}

impl Poll {
    /// Wrap a ring for communication via control messages.
    pub fn new(ring: ShmControllerRing) -> (r: Poll)
        ensures
            r.ring == ring,
            r.responses@ == Map::<u16, ControlMessage>::empty(),
    {
        Poll { ring, responses: HashMap::new() }
    }

    /// Unwrap the raw ring within.
    pub fn into_ring(self) -> (r: ShmControllerRing)
        ensures
            r == self.ring,
    {
        self.ring
    }
}

/// A message word is its argument or result, its command and its tag, one behind the other as the
/// digits of a number.
pub proof fn lemma_word_fields(op: u64)
    ensures
        op as int == 0x1_0000_0000 * value_of(op) + 0x1_0000 * cmd_of(op).0 + tag_of(op).0,
        op == packed(value_of(op), cmd_of(op), tag_of(op)),
{
    assert(op == 0x1_0000_0000 * ((op >> 32) as u32) + 0x1_0000 * (((op >> 16) & 0xffff) as u16) + ((
    op & 0xffff) as u16)) by (bit_vector);
    lemma_packed_fields(value_of(op), cmd_of(op), tag_of(op));
}

/// The message `op` has the argument `value`, the number `cmd` and the tag `tag`.
pub open spec fn reads(op: u64, value: u32, cmd: u16, tag: Tag) -> bool {
    op as int == 0x1_0000_0000 * value + 0x1_0000 * cmd + tag.0
}

/// What a message with these parts reads as.
pub proof fn lemma_reads(op: u64, value: u32, cmd: u16, tag: Tag)
    requires
        reads(op, value, cmd, tag),
    ensures
        value_of(op) == value,
        cmd_of(op) == Cmd(cmd),
        tag_of(op) == tag,
        op == packed(value, Cmd(cmd), tag),
{
    lemma_word_fields(op);
}

/// Each request is sent as a message of its own number, with its argument and its tag.
pub proof fn lemma_requests(value: u32, tag: Tag)
    ensures
        reads(
            <ControlMessage as vstd::std_specs::convert::FromSpec<PipeRequest>>::from_spec(
                PipeRequest { public_id: value, tag },
            ).op,
            value,
            1,
            tag,
        ),
        reads(
            <ControlMessage as vstd::std_specs::convert::FromSpec<Ping>>::from_spec(
                Ping { payload: tag },
            ).op,
            0,
            2,
            tag,
        ),
        reads(
            <ControlMessage as vstd::std_specs::convert::FromSpec<PipeJoin>>::from_spec(
                PipeJoin { public_id: value, tag },
            ).op,
            value,
            3,
            tag,
        ),
        reads(
            <ControlMessage as vstd::std_specs::convert::FromSpec<SocketCreate>>::from_spec(
                SocketCreate { public_id: value, tag },
            ).op,
            value,
            4,
            tag,
        ),
        reads(
            <ControlMessage as vstd::std_specs::convert::FromSpec<PipeLeave>>::from_spec(
                PipeLeave { queue: value, tag },
            ).op,
            value,
            5,
            tag,
        ),
        reads(
            <SocketMessage as vstd::std_specs::convert::FromSpec<SocketBind>>::from_spec(
                SocketBind { port: value, tag },
            ).0.op,
            value,
            5,
            tag,
        ),
        reads(
            <ControlMessage as vstd::std_specs::convert::FromSpec<SocketConnect>>::from_spec(
                SocketConnect { port: value, tag },
            ).op,
            value,
            6,
            tag,
        ),
{
    lemma_packed_reads(value, Cmd(Cmd::REQUEST_PIPE), tag);
    lemma_packed_reads(0, Cmd(Cmd::REQUEST_PING), tag);
    lemma_packed_reads(value, Cmd(Cmd::PIPE_JOIN), tag);
    lemma_packed_reads(value, Cmd(Cmd::SOCKET_CREATE), tag);
    lemma_packed_reads(value, Cmd(Cmd::PIPE_LEAVE), tag);
    lemma_packed_reads(value, Cmd(Cmd::SOCKET_CONNECT), tag);
}

/// A packed message reads as the parts that it was packed from.
pub proof fn lemma_packed_reads(value: u32, cmd: Cmd, tag: Tag)
    ensures
        reads(packed(value, cmd, tag), value, cmd.0, tag),
{
    lemma_packed_fields(value, cmd, tag);
    lemma_word_fields(packed(value, cmd, tag));
}

} // verus!
