//! The state of a controller, and what it does with the requests of its clients.
use vstd::multiset::Multiset;
use vstd::prelude::*;

use crate::control::{self, Cmd, ControlMessage, SocketMessage, Tag};
use crate::queue::{self, ShmQueue};

verus! {

#[derive(Clone, Copy, Debug, PartialEq, Eq, Structural)]
pub struct ClientId(pub u32);

#[derive(Clone, Copy, Debug, PartialEq, Eq, Structural)]
pub struct QueueId(pub u32);

#[derive(Clone, Copy, Debug, PartialEq, Eq, Structural)]
pub struct SocketId(pub u32);

/// A queue opened only on the server (A) side.
#[derive(Clone, Copy, Debug, PartialEq, Eq, Structural)]
pub struct OpenServer {
    pub queue: QueueId,
    pub user_tag: u32,
    pub a: ClientId,
}

/// A queue opened only on the client (B) side: the server has left it.
#[derive(Clone, Copy, Debug, PartialEq, Eq, Structural)]
pub struct OpenClient {
    pub queue: QueueId,
    pub user_tag: u32,
    pub b: ClientId,
}

/// A queue with both sides alive.
#[derive(Clone, Copy, Debug, PartialEq, Eq, Structural)]
pub struct ActiveQueue {
    pub queue: QueueId,
    pub user_tag: u32,
    pub a: ClientId,
    pub b: ClientId,
}

/// A queue on which a host is told of connections to a port. A bound port is not zero.
pub struct Socket {
    pub client: ClientId,
    pub queue: QueueId,
    pub port: Option<u32>,
    pub pending_limit: u32,
    pub pending: Vec<QueueId>,
}

/// The queues of a controller, by the use they are put to.
pub struct ControllerState {
    pub free_queues: Vec<QueueId>,
    pub open_server: Vec<OpenServer>,
    pub open_client: Vec<OpenClient>,
    pub active: Vec<ActiveQueue>,
    pub sockets: Vec<Socket>,
}

/// A controller: the state of its queues, and the word through which clients join it.
pub struct ShmController {
    pub state: ControllerState,
    pub futex: i32,
    pub max_members: u32,
}

/// The requests that a controller has answered, each with its answer.
pub struct Events {
    pub requests: Vec<(ControlMessage, ControlMessage)>,
}

impl Events {
    /// Record that `msg` was answered with `answer`.
    pub fn request(&mut self, msg: ControlMessage, answer: ControlMessage)
        ensures
            final(self).requests@ == old(self).requests@.push((msg, answer)),
    {
        self.requests.push((msg, answer));
    }
}

#[verifier::ext_equal]
pub struct SocketView {
    pub client: ClientId,
    pub queue: QueueId,
    pub port: Option<u32>,
    pub pending_limit: u32,
    pub pending: Seq<QueueId>,
}

#[verifier::ext_equal]
pub struct ControllerView {
    pub free_queues: Seq<QueueId>,
    pub open_server: Seq<OpenServer>,
    pub open_client: Seq<OpenClient>,
    pub active: Seq<ActiveQueue>,
    pub sockets: Seq<SocketView>,
}

impl View for Socket {
    type V = SocketView;

    open spec fn view(&self) -> SocketView {
        SocketView {
            client: self.client,
            queue: self.queue,
            port: self.port,
            pending_limit: self.pending_limit,
            pending: self.pending@,
        }
    }
}

impl View for ControllerState {
    type V = ControllerView;

    open spec fn view(&self) -> ControllerView {
        ControllerView {
            free_queues: self.free_queues@,
            open_server: self.open_server@,
            open_client: self.open_client@,
            active: self.active@,
            sockets: Seq::new(self.sockets@.len(), |i: int| self.sockets@[i]@),
        }
    }
}

/// The first queue, from `i` on, that was opened with the tag `tag`.
pub open spec fn first_open(s: Seq<OpenServer>, tag: u32, i: int) -> Option<int>
    decreases s.len() - i,
{
    if i < 0 || i >= s.len() {
        None
    } else if s[i].user_tag == tag {
        Some(i)
    } else {
        first_open(s, tag, i + 1)
    }
}

/// The first active entry, from `i` on, of the queue `queue`.
pub open spec fn first_active(s: Seq<ActiveQueue>, queue: u32, i: int) -> Option<int>
    decreases s.len() - i,
{
    if i < 0 || i >= s.len() {
        None
    } else if s[i].queue.0 == queue {
        Some(i)
    } else {
        first_active(s, queue, i + 1)
    }
}

/// The first socket, from `i` on, that is bound to `port`. No socket is bound to zero.
pub open spec fn first_bound(s: Seq<SocketView>, port: u32, i: int) -> Option<int>
    decreases s.len() - i,
{
    if i < 0 || i >= s.len() {
        None
    } else if port != 0 && s[i].port == Some(port) {
        Some(i)
    } else {
        first_bound(s, port, i + 1)
    }
}

/// What a request does: the state it leads to, and the response and result it is answered with.
#[verifier::ext_equal]
pub struct Outcome {
    pub state: ControllerView,
    pub op: Cmd,
    pub result: u32,
}

impl ControllerView {
    /// The answer `op` to a request that changes nothing.
    pub open spec fn unchanged(self, op: u16) -> Outcome {
        Outcome { state: self, op: Cmd(op), result: 0 }
    }

    /// Hand the free queue on top to `owner`, to wait for a partner that knows `tag`.
    pub open spec fn request_pipe(self, owner: ClientId, tag: u32) -> Outcome {
        if self.free_queues.len() == 0 {
            self.unchanged(Cmd::OUT_OF_QUEUES)
        } else {
            let queue = self.free_queues.last();
            Outcome {
                state: ControllerView {
                    free_queues: self.free_queues.drop_last(),
                    open_server: self.open_server.push(
                        OpenServer { queue, user_tag: tag, a: owner },
                    ),
                    ..self
                },
                op: Cmd(Cmd::REQUEST_PIPE),
                result: queue.0,
            }
        }
    }

    /// Make `owner` the partner of the first queue that waits under `tag`.
    pub open spec fn pipe_join(self, owner: ClientId, tag: u32) -> Outcome {
        match first_open(self.open_server, tag, 0) {
            None => self.unchanged(Cmd::OUT_OF_QUEUES),
            Some(i) => {
                let open = self.open_server[i];
                Outcome {
                    state: ControllerView {
                        open_server: self.open_server.remove(i),
                        active: self.active.push(
                            ActiveQueue {
                                queue: open.queue,
                                user_tag: open.user_tag,
                                a: open.a,
                                b: owner,
                            },
                        ),
                        ..self
                    },
                    op: Cmd(Cmd::REQUEST_PIPE),
                    result: open.queue.0,
                }
            },
        }
    }

    /// Take `owner` off the active queue `queue`; the other side stays and waits for a partner.
    pub open spec fn pipe_leave(self, owner: ClientId, queue: u32) -> Outcome {
        match first_active(self.active, queue, 0) {
            None => self.unchanged(Cmd::OUT_OF_QUEUES),
            Some(i) => {
                let active = self.active[i];
                if active.a == owner {
                    Outcome {
                        state: ControllerView {
                            active: self.active.remove(i),
                            open_client: self.open_client.push(
                                OpenClient {
                                    queue: active.queue,
                                    user_tag: active.user_tag,
                                    b: active.b,
                                },
                            ),
                            ..self
                        },
                        op: Cmd(Cmd::PIPE_LEAVE),
                        result: 0,
                    }
                } else if active.b == owner {
                    Outcome {
                        state: ControllerView {
                            active: self.active.remove(i),
                            open_server: self.open_server.push(
                                OpenServer {
                                    queue: active.queue,
                                    user_tag: active.user_tag,
                                    a: active.a,
                                },
                            ),
                            ..self
                        },
                        op: Cmd(Cmd::PIPE_LEAVE),
                        result: 0,
                    }
                } else {
                    self.unchanged(Cmd::OUT_OF_QUEUES)
                }
            },
        }
    }

    /// Hand the free queue on top to `owner`, as a socket that is not bound yet.
    pub open spec fn socket_create(self, owner: ClientId) -> Outcome {
        if self.free_queues.len() == 0 {
            self.unchanged(Cmd::OUT_OF_QUEUES)
        } else {
            let queue = self.free_queues.last();
            Outcome {
                state: ControllerView {
                    free_queues: self.free_queues.drop_last(),
                    sockets: self.sockets.push(
                        SocketView {
                            client: owner,
                            queue,
                            port: None,
                            pending_limit: 0,
                            pending: Seq::empty(),
                        },
                    ),
                    ..self
                },
                op: Cmd(Cmd::SOCKET_CREATE),
                result: queue.0,
            }
        }
    }

    /// Put the free queue on top to the pending connections of the first socket bound to `port`,
    /// if more than its limit are pending already.
    pub open spec fn socket_connect(self, port: u32) -> Outcome {
        match first_bound(self.sockets, port, 0) {
            None => self.unchanged(Cmd::BAD),
            Some(i) => {
                let socket = self.sockets[i];
                if socket.pending_limit < socket.pending.len() && self.free_queues.len() > 0 {
                    Outcome {
                        state: ControllerView {
                            free_queues: self.free_queues.drop_last(),
                            sockets: self.sockets.update(
                                i,
                                SocketView {
                                    pending: socket.pending.push(self.free_queues.last()),
                                    ..socket
                                },
                            ),
                            ..self
                        },
                        op: Cmd(Cmd::SOCKET_CONNECT),
                        result: 0,
                    }
                } else {
                    self.unchanged(Cmd::BAD)
                }
            },
        }
    }

    /// What the request `msg` of the client `owner` does on a control queue.
    pub open spec fn control(self, owner: ClientId, msg: u64) -> Outcome {
        let cmd = control::cmd_of(msg).0;
        if cmd == Cmd::REQUEST_PING {
            self.unchanged(Cmd::REQUEST_PING)
        } else if cmd == Cmd::REQUEST_PIPE {
            self.request_pipe(owner, control::value_of(msg))
        } else if cmd == Cmd::PIPE_JOIN {
            self.pipe_join(owner, control::value_of(msg))
        } else if cmd == Cmd::PIPE_LEAVE {
            self.pipe_leave(owner, control::value_of(msg))
        } else if cmd == Cmd::SOCKET_CREATE {
            self.socket_create(owner)
        } else if cmd == Cmd::SOCKET_CONNECT {
            self.socket_connect(control::value_of(msg))
        } else {
            self.unchanged(Cmd::BAD)
        }
    }

    /// What the request `msg` does on the queue of the socket `id`.
    pub open spec fn socket(self, id: SocketId, msg: u64) -> Outcome {
        let port = control::value_of(msg);
        if control::cmd_of(msg).0 != Cmd::SOCKET_BIND {
            self.unchanged(Cmd::UNIMPLEMENTED)
        } else if port == 0 || first_bound(self.sockets, port, 0) is Some {
            self.unchanged(Cmd::BAD)
        } else {
            Outcome {
                state: ControllerView {
                    sockets: self.sockets.update(
                        id.0 as int,
                        SocketView { port: Some(port), ..self.sockets[id.0 as int] },
                    ),
                    ..self
                },
                op: Cmd(Cmd::SOCKET_BIND),
                result: 0,
            }
        }
    }
}

/// Whether a request can be served: one is there, and there is room for the answer.
pub open spec fn can_serve(queue: ShmQueue) -> bool {
    queue.write@.len() + 8 <= queue.write.capacity && 8 <= queue.read@.len()
}

/// The word that answers `msg` when it leads to `out`.
pub open spec fn answer(msg: u64, out: Outcome) -> u64 {
    control::packed(out.result, out.op, control::tag_of(msg))
}

impl ControllerState {
    /// The first queue that was opened with the tag `tag`.
    fn position_open(&self, tag: u32) -> (r: Option<usize>)
        ensures
            match r {
                Some(i) => first_open(self@.open_server, tag, 0) == Some(i as int) && i
                    < self@.open_server.len(),
                None => first_open(self@.open_server, tag, 0) is None,
            },
    {
        let mut i: usize = 0;
        while i < self.open_server.len()
            invariant
                i <= self.open_server@.len(),
                first_open(self@.open_server, tag, 0) == first_open(
                    self@.open_server,
                    tag,
                    i as int,
                ),
            decreases self.open_server@.len() - i,
        {
            if self.open_server[i].user_tag == tag {
                return Some(i);
            }
            i = i + 1;
        }
        None
    }

    /// The first active entry of the queue `queue`.
    fn position_active(&self, queue: u32) -> (r: Option<usize>)
        ensures
            match r {
                Some(i) => first_active(self@.active, queue, 0) == Some(i as int) && i
                    < self@.active.len(),
                None => first_active(self@.active, queue, 0) is None,
            },
    {
        let mut i: usize = 0;
        while i < self.active.len()
            invariant
                i <= self.active@.len(),
                first_active(self@.active, queue, 0) == first_active(self@.active, queue, i as int),
            decreases self.active@.len() - i,
        {
            if self.active[i].queue.0 == queue {
                return Some(i);
            }
            i = i + 1;
        }
        None
    }

    /// The first socket that is bound to `port`.
    fn position_bound(&self, port: u32) -> (r: Option<usize>)
        ensures
            match r {
                Some(i) => first_bound(self@.sockets, port, 0) == Some(i as int) && i
                    < self@.sockets.len(),
                None => first_bound(self@.sockets, port, 0) is None,
            },
    {
        let mut i: usize = 0;
        while i < self.sockets.len()
            invariant
                i <= self.sockets@.len(),
                first_bound(self@.sockets, port, 0) == first_bound(self@.sockets, port, i as int),
            decreases self.sockets@.len() - i,
        {
            if let Some(p) = self.sockets[i].port {
                if port != 0 && p == port {
                    return Some(i);
                }
            }
            i = i + 1;
        }
        None
    }

    /// Perform the request `msg` of the client `owner`.
    fn control(&mut self, owner: ClientId, msg: ControlMessage) -> (r: (Cmd, u32))
        ensures
            final(self)@ == old(self)@.control(owner, msg.op).state,
            r.0 == old(self)@.control(owner, msg.op).op,
            r.1 == old(self)@.control(owner, msg.op).result,
    {
        let cmd: u16 = msg.cmd().0;
        let value: u32 = msg.value0();
        if cmd == Cmd::REQUEST_PING {
            (Cmd(Cmd::REQUEST_PING), 0)
        } else if cmd == Cmd::REQUEST_PIPE {
            match self.free_queues.pop() {
                Some(queue) => {
                    self.open_server.push(OpenServer { queue, user_tag: value, a: owner });
                    assert(self@ =~= old(self)@.request_pipe(owner, value).state);
                    (Cmd(Cmd::REQUEST_PIPE), queue.0)
                },
                None => (Cmd(Cmd::OUT_OF_QUEUES), 0),
            }
        } else if cmd == Cmd::PIPE_JOIN {
            match self.position_open(value) {
                Some(i) => {
                    let open: OpenServer = self.open_server.remove(i);
                    self.active.push(
                        ActiveQueue {
                            queue: open.queue,
                            user_tag: open.user_tag,
                            a: open.a,
                            b: owner,
                        },
                    );
                    assert(self@ =~= old(self)@.pipe_join(owner, value).state);
                    (Cmd(Cmd::REQUEST_PIPE), open.queue.0)
                },
                None => (Cmd(Cmd::OUT_OF_QUEUES), 0),
            }
        } else if cmd == Cmd::PIPE_LEAVE {
            match self.position_active(value) {
                Some(i) => {
                    if self.active[i].a.0 == owner.0 {
                        let active: ActiveQueue = self.active.remove(i);
                        self.open_client.push(
                            OpenClient {
                                queue: active.queue,
                                user_tag: active.user_tag,
                                b: active.b,
                            },
                        );
                        assert(self@ =~= old(self)@.pipe_leave(owner, value).state);
                        (Cmd(Cmd::PIPE_LEAVE), 0)
                    } else if self.active[i].b.0 == owner.0 {
                        let active: ActiveQueue = self.active.remove(i);
                        self.open_server.push(
                            OpenServer {
                                queue: active.queue,
                                user_tag: active.user_tag,
                                a: active.a,
                            },
                        );
                        assert(self@ =~= old(self)@.pipe_leave(owner, value).state);
                        (Cmd(Cmd::PIPE_LEAVE), 0)
                    } else {
                        // A message from the wrong client is answered, but does nothing.
                        (Cmd(Cmd::OUT_OF_QUEUES), 0)
                    }
                },
                None => (Cmd(Cmd::OUT_OF_QUEUES), 0),
            }
        } else if cmd == Cmd::SOCKET_CREATE {
            match self.free_queues.pop() {
                Some(queue) => {
                    self.sockets.push(
                        Socket {
                            client: owner,
                            queue,
                            port: None,
                            pending_limit: 0,
                            pending: Vec::new(),
                        },
                    );
                    assert(self@ =~= old(self)@.socket_create(owner).state);
                    (Cmd(Cmd::SOCKET_CREATE), queue.0)
                },
                None => (Cmd(Cmd::OUT_OF_QUEUES), 0),
            }
        } else if cmd == Cmd::SOCKET_CONNECT {
            match self.position_bound(value) {
                Some(i) => {
                    if (self.sockets[i].pending_limit as usize) < self.sockets[i].pending.len() {
                        match self.free_queues.pop() {
                            Some(queue) => {
                                self.sockets[i].pending.push(queue);
                                assert(self@ =~= old(self)@.socket_connect(value).state);
                                (Cmd(Cmd::SOCKET_CONNECT), 0)
                            },
                            None => (Cmd(Cmd::BAD), 0),
                        }
                    } else {
                        (Cmd(Cmd::BAD), 0)
                    }
                },
                None => (Cmd(Cmd::BAD), 0),
            }
        } else {
            (Cmd(Cmd::BAD), 0)
        }
    }

    /// Serve one request from a control queue, if one is there and its answer has room.
    pub fn execute_control(
        &mut self,
        queue_owner: ClientId,
        queue: &mut ShmQueue,
        events: Option<&mut Events>,
    )
        ensures
            !can_serve(*old(queue)) ==> final(self)@ == old(self)@ && *final(queue) == *old(queue)
                && (events matches Some(e) ==> *final(e) == *e),
            can_serve(*old(queue)) ==> {
                let msg = queue::be_value(old(queue).read@);
                let out = old(self)@.control(queue_owner, msg);
                &&& final(self)@ == out.state
                &&& final(queue).read@ == old(queue).read@.skip(8)
                &&& final(queue).write@ == old(queue).write@ + queue::be_bytes(answer(msg, out))
                &&& final(queue).write.capacity == old(queue).write.capacity
                &&& (events matches Some(e) ==> final(e).requests@ == e.requests@.push(
                    (ControlMessage { op: msg }, ControlMessage { op: answer(msg, out) }),
                ))
            },
    {
        if !queue.write.prepare_write(8) {
            // No space for a response.
            return ;
        }
        if !queue.read.available(8) {
            return ;
        }
        let msg: ControlMessage = ControlMessage { op: queue.read.controller_u64() };
        let (op, result): (Cmd, u32) = self.control(queue_owner, msg);
        queue.read.commit(8);
        let reply: ControlMessage = ControlMessage::with_raw(op, msg.tag()).with_result(result);
        proof {
            control::lemma_with_result(result, op, control::tag_of(msg.op));
        }
        queue.write.controller_u64(reply.op);
        if let Some(e) = events {
            e.request(msg, reply);
        }
    }

    /// Perform the request `msg` on the queue of the socket `id`.
    fn socket(&mut self, id: SocketId, msg: SocketMessage) -> (r: (Cmd, u32))
        requires
            old(self)@.socket(id, msg.0.op).op.0 == Cmd::SOCKET_BIND ==> id.0
                < old(self)@.sockets.len(),
        ensures
            final(self)@ == old(self)@.socket(id, msg.0.op).state,
            r.0 == old(self)@.socket(id, msg.0.op).op,
            r.1 == old(self)@.socket(id, msg.0.op).result,
    {
        if msg.0.cmd().0 != Cmd::SOCKET_BIND {
            return (Cmd(Cmd::UNIMPLEMENTED), 0);
        }
        let port: u32 = msg.0.value0();
        if self.position_bound(port).is_some() {
            return (Cmd(Cmd::BAD), 0);
        }
        if port == 0 {
            return (Cmd(Cmd::BAD), 0);
        }
        self.sockets[id.0 as usize].port = Some(port);
        assert(self@ =~= old(self)@.socket(id, msg.0.op).state);
        (Cmd(Cmd::SOCKET_BIND), 0)
    }

    /// Serve one request from the queue of the socket `socket_id`, if one is there and its answer
    /// has room. No events are recorded for sockets.
    pub fn execute_socket(
        &mut self,
        socket_id: SocketId,
        queue: &mut ShmQueue,
        events: Option<&mut Events>,
    )
        requires
            can_serve(*old(queue)) ==> events is None,
            can_serve(*old(queue)) && old(self)@.socket(
                socket_id,
                queue::be_value(old(queue).read@),
            ).op.0 == Cmd::SOCKET_BIND ==> socket_id.0 < old(self)@.sockets.len(),
        ensures
            !can_serve(*old(queue)) ==> final(self)@ == old(self)@ && *final(queue) == *old(queue),
            can_serve(*old(queue)) ==> {
                let msg = queue::be_value(old(queue).read@);
                let out = old(self)@.socket(socket_id, msg);
                &&& final(self)@ == out.state
                &&& final(queue).read@ == old(queue).read@.skip(8)
                &&& final(queue).write@ == old(queue).write@ + queue::be_bytes(answer(msg, out))
                &&& final(queue).write.capacity == old(queue).write.capacity
            },
            events matches Some(e) ==> *final(e) == *e,
    {
        if !queue.write.prepare_write(8) {
            return ;
        }
        if !queue.read.available(8) {
            return ;
        }
        let msg: SocketMessage = SocketMessage(
            ControlMessage { op: queue.read.controller_u64() },
        );
        let (op, result): (Cmd, u32) = self.socket(socket_id, msg);
        queue.read.commit(8);
        let reply: ControlMessage = ControlMessage::with_raw(op, msg.0.tag()).with_result(result);
        proof {
            control::lemma_with_result(result, op, control::tag_of(msg.0.op));
        }
        queue.write.controller_u64(reply.op);
    }
}

/// An answer carries the tag of its request, and the response and result of what was done.
pub proof fn lemma_answer_fields(msg: u64, out: Outcome)
    ensures
        control::tag_of(answer(msg, out)) == control::tag_of(msg),
        control::cmd_of(answer(msg, out)) == out.op,
        control::value_of(answer(msg, out)) == out.result,
{
    control::lemma_packed_fields(out.result, out.op, control::tag_of(msg));
}

/// A request that is refused changes nothing, and its answer has no result.
pub proof fn lemma_refused_unchanged(s: ControllerView, owner: ClientId, id: SocketId, msg: u64)
    ensures
        s.control(owner, msg).op.0 >= Cmd::OUT_OF_QUEUES ==> s.control(owner, msg) == s.unchanged(
            s.control(owner, msg).op.0,
        ),
        s.socket(id, msg).op.0 >= Cmd::OUT_OF_QUEUES ==> s.socket(id, msg) == s.unchanged(
            s.socket(id, msg).op.0,
        ),
{
}

/// A ping is answered by a ping with the same tag, and changes nothing.
pub proof fn lemma_ping(s: ControllerView, owner: ClientId, msg: u64)
    requires
        control::cmd_of(msg).0 == Cmd::REQUEST_PING,
    ensures
        s.control(owner, msg).state == s,
        answer(msg, s.control(owner, msg)) == control::packed(
            0,
            Cmd(Cmd::REQUEST_PING),
            control::tag_of(msg),
        ),
{
}

/// The queues of the sockets, and those that wait to be accepted on them.
pub open spec fn socket_queues(sockets: Seq<SocketView>) -> Multiset<QueueId>
    decreases sockets.len(),
{
    if sockets.len() == 0 {
        Multiset::empty()
    } else {
        socket_queues(sockets.drop_last()).insert(sockets.last().queue).add(
            sockets.last().pending.to_multiset(),
        )
    }
}

/// Every queue that the state holds, as often as it holds it.
pub open spec fn all_queues(s: ControllerView) -> Multiset<QueueId> {
    s.free_queues.to_multiset().add(
        s.open_server.map_values(|o: OpenServer| o.queue).to_multiset(),
    ).add(s.open_client.map_values(|o: OpenClient| o.queue).to_multiset()).add(
        s.active.map_values(|o: ActiveQueue| o.queue).to_multiset(),
    ).add(socket_queues(s.sockets))
}

proof fn lemma_socket_pending(sockets: Seq<SocketView>, i: int, new: SocketView, q: QueueId)
    requires
        0 <= i < sockets.len(),
        new.queue == sockets[i].queue,
        new.pending == sockets[i].pending.push(q),
    ensures
        socket_queues(sockets.update(i, new)) == socket_queues(sockets).insert(q),
    decreases sockets.len(),
{
    broadcast use vstd::seq_lib::group_to_multiset_ensures;

    let after = sockets.update(i, new);
    if i == sockets.len() - 1 {
        assert(after.drop_last() =~= sockets.drop_last());
        assert(socket_queues(after) =~= socket_queues(sockets).insert(q));
    } else {
        lemma_socket_pending(sockets.drop_last(), i, new, q);
        assert(after.drop_last() =~= sockets.drop_last().update(i, new));
        assert(socket_queues(after) =~= socket_queues(sockets).insert(q));
    }
}

proof fn lemma_socket_bound(sockets: Seq<SocketView>, i: int, new: SocketView)
    requires
        0 <= i < sockets.len(),
        new.queue == sockets[i].queue,
        new.pending == sockets[i].pending,
    ensures
        socket_queues(sockets.update(i, new)) == socket_queues(sockets),
    decreases sockets.len(),
{
    let after = sockets.update(i, new);
    if i == sockets.len() - 1 {
        assert(after.drop_last() =~= sockets.drop_last());
    } else {
        lemma_socket_bound(sockets.drop_last(), i, new);
        assert(after.drop_last() =~= sockets.drop_last().update(i, new));
    }
}

/// The queue that is found under a tag is the first that was opened with it. None is found if none was.
pub proof fn lemma_first_open(s: Seq<OpenServer>, tag: u32, i: int)
    requires
        0 <= i,
    ensures
        match first_open(s, tag, i) {
            Some(j) => i <= j < s.len() && s[j].user_tag == tag && forall|k: int|
                i <= k < j ==> (#[trigger] s[k]).user_tag != tag,
            None => forall|k: int| i <= k < s.len() ==> (#[trigger] s[k]).user_tag != tag,
        },
    decreases s.len() - i,
{
    if i < s.len() && s[i].user_tag != tag {
        lemma_first_open(s, tag, i + 1);
    }
}

/// The entry that is found for a queue is the first active one of it. None is found if there is none.
pub proof fn lemma_first_active(s: Seq<ActiveQueue>, queue: u32, i: int)
    requires
        0 <= i,
    ensures
        match first_active(s, queue, i) {
            Some(j) => i <= j < s.len() && s[j].queue.0 == queue && forall|k: int|
                i <= k < j ==> (#[trigger] s[k]).queue.0 != queue,
            None => forall|k: int| i <= k < s.len() ==> (#[trigger] s[k]).queue.0 != queue,
        },
    decreases s.len() - i,
{
    if i < s.len() && s[i].queue.0 != queue {
        lemma_first_active(s, queue, i + 1);
    }
}

/// The socket that is found for a port is the first that is bound to it. None is found if none is, and
/// none for port zero.
pub proof fn lemma_first_bound(s: Seq<SocketView>, port: u32, i: int)
    requires
        0 <= i,
    ensures
        match first_bound(s, port, i) {
            Some(j) => i <= j < s.len() && port != 0 && s[j].port == Some(port) && forall|k: int|
                i <= k < j ==> (#[trigger] s[k]).port != Some(port),
            None => port != 0 ==> forall|k: int|
                i <= k < s.len() ==> (#[trigger] s[k]).port != Some(port),
        },
    decreases s.len() - i,
{
    if i < s.len() && !(port != 0 && s[i].port == Some(port)) {
        lemma_first_bound(s, port, i + 1);
    }
}

/// No request makes a queue, loses one or hands one out twice: the state holds the same queues
/// before and after it.
pub proof fn lemma_queues_conserved(s: ControllerView, owner: ClientId, id: SocketId, msg: u64)
    ensures
        all_queues(s.control(owner, msg).state) == all_queues(s),
        id.0 < s.sockets.len() ==> all_queues(s.socket(id, msg).state) == all_queues(s),
{
    broadcast use vstd::seq_lib::group_to_multiset_ensures;

    let servers = |o: OpenServer| o.queue;
    let clients = |o: OpenClient| o.queue;
    let actives = |o: ActiveQueue| o.queue;
    let t = s.control(owner, msg).state;
    let value = control::value_of(msg);
    let (cmd, free) = (control::cmd_of(msg).0, s.free_queues);
    if free.len() > 0 {
        assert(free =~= free.drop_last().push(free.last()));
    }
    if cmd == Cmd::REQUEST_PIPE && free.len() > 0 {
        assert(t.open_server.map_values(servers) =~= s.open_server.map_values(servers).push(
            free.last(),
        ));
        assert(all_queues(t) =~= all_queues(s));
    } else if cmd == Cmd::PIPE_JOIN && first_open(s.open_server, value, 0) is Some {
        lemma_first_open(s.open_server, value, 0);
        let i = first_open(s.open_server, value, 0)->0;
        let before = s.open_server.map_values(servers);
        assert(t.open_server.map_values(servers) =~= before.remove(i));
        assert(t.active.map_values(actives) =~= s.active.map_values(actives).push(before[i]));
        assert(before.to_multiset().count(before[i]) > 0) by {
            assert(before.contains(before[i]));
        }
        assert(all_queues(t) =~= all_queues(s));
    } else if cmd == Cmd::PIPE_LEAVE && first_active(s.active, value, 0) is Some {
        lemma_first_active(s.active, value, 0);
        let i = first_active(s.active, value, 0)->0;
        let before = s.active.map_values(actives);
        assert(before.to_multiset().count(before[i]) > 0) by {
            assert(before.contains(before[i]));
        }
        if s.active[i].a == owner {
            assert(t.active.map_values(actives) =~= before.remove(i));
            assert(t.open_client.map_values(clients) =~= s.open_client.map_values(clients).push(
                before[i],
            ));
            assert(all_queues(t) =~= all_queues(s));
        } else if s.active[i].b == owner {
            assert(t.active.map_values(actives) =~= before.remove(i));
            assert(t.open_server.map_values(servers) =~= s.open_server.map_values(servers).push(
                before[i],
            ));
            assert(all_queues(t) =~= all_queues(s));
        }
    } else if cmd == Cmd::SOCKET_CREATE && free.len() > 0 {
        assert(t.sockets.drop_last() =~= s.sockets);
        assert(t.sockets.last().pending.to_multiset() =~= Multiset::empty());
        assert(all_queues(t) =~= all_queues(s));
    } else if cmd == Cmd::SOCKET_CONNECT && first_bound(s.sockets, value, 0) is Some {
        lemma_first_bound(s.sockets, value, 0);
        let i = first_bound(s.sockets, value, 0)->0;
        if s.sockets[i].pending_limit < s.sockets[i].pending.len() && free.len() > 0 {
            lemma_socket_pending(s.sockets, i, t.sockets[i], free.last());
            assert(all_queues(t) =~= all_queues(s));
        }
    }
    if id.0 < s.sockets.len() && s.socket(id, msg).op.0 == Cmd::SOCKET_BIND {
        lemma_socket_bound(s.sockets, id.0 as int, s.socket(id, msg).state.sockets[id.0 as int]);
    }
}

/// A pipe that one client requests and another joins under the same tag is one queue, held by the
/// two of them; nothing else is taken.
pub proof fn lemma_pipe_established(s: ControllerView, a: ClientId, b: ClientId, tag: u32)
    requires
        s.free_queues.len() > 0,
        first_open(s.open_server, tag, 0) is None,
    ensures
        ({
            let opened = s.request_pipe(a, tag);
            let joined = opened.state.pipe_join(b, tag);
            let queue = s.free_queues.last();
            &&& opened.op.0 == Cmd::REQUEST_PIPE
            &&& joined.op.0 == Cmd::REQUEST_PIPE
            &&& opened.result == queue.0
            &&& joined.result == queue.0
            &&& joined.state == (ControllerView {
                free_queues: s.free_queues.drop_last(),
                active: s.active.push(ActiveQueue { queue, user_tag: tag, a, b }),
                ..s
            })
        }),
{
    let opened = s.request_pipe(a, tag).state;
    let n = s.open_server.len() as int;
    lemma_first_open(s.open_server, tag, 0);
    lemma_first_open(opened.open_server, tag, 0);
    assert(opened.open_server[n].user_tag == tag);
    assert forall|k: int| 0 <= k < n implies (#[trigger] opened.open_server[k]).user_tag != tag by {
        assert(opened.open_server[k] == s.open_server[k]);
    }
    assert(first_open(opened.open_server, tag, 0) == Some(n));
    assert(opened.open_server.remove(n) =~= s.open_server);
    assert(opened.pipe_join(b, tag).state =~= (ControllerView {
        free_queues: s.free_queues.drop_last(),
        active: s.active.push(
            ActiveQueue { queue: s.free_queues.last(), user_tag: tag, a, b },
        ),
        ..s
    }));
}

/// A joined client that leaves gives its place up: the pipe waits again, and the next client to
/// join under its tag gets the same queue with the same host.
pub proof fn lemma_place_given_up(s: ControllerView, i: int, next: ClientId)
    requires
        0 <= i < s.active.len(),
        first_active(s.active, s.active[i].queue.0, 0) == Some(i),
        first_open(s.open_server, s.active[i].user_tag, 0) is None,
        s.active[i].a != s.active[i].b,
    ensures
        ({
            let pipe = s.active[i];
            let left = s.pipe_leave(pipe.b, pipe.queue.0);
            let joined = left.state.pipe_join(next, pipe.user_tag);
            &&& left.op.0 == Cmd::PIPE_LEAVE
            &&& joined.op.0 == Cmd::REQUEST_PIPE
            &&& joined.result == pipe.queue.0
            &&& joined.state == (ControllerView {
                active: s.active.remove(i).push(ActiveQueue { b: next, ..pipe }),
                ..s
            })
        }),
{
    let pipe = s.active[i];
    let left = s.pipe_leave(pipe.b, pipe.queue.0).state;
    let n = s.open_server.len() as int;
    lemma_first_open(s.open_server, pipe.user_tag, 0);
    lemma_first_open(left.open_server, pipe.user_tag, 0);
    assert(left.open_server[n].user_tag == pipe.user_tag);
    assert forall|k: int| 0 <= k < n implies (#[trigger] left.open_server[k]).user_tag
        != pipe.user_tag by {
        assert(left.open_server[k] == s.open_server[k]);
    }
    assert(first_open(left.open_server, pipe.user_tag, 0) == Some(n));
    assert(left.open_server.remove(n) =~= s.open_server);
    assert(left.pipe_join(next, pipe.user_tag).state =~= (ControllerView {
        active: s.active.remove(i).push(ActiveQueue { b: next, ..pipe }),
        ..s
    }));
}

/// Bound ports are not zero, and no two sockets are bound to the same.
pub open spec fn ports_distinct(s: ControllerView) -> bool {
    &&& forall|i: int| 0 <= i < s.sockets.len() ==> (#[trigger] s.sockets[i]).port != Some(0u32)
    &&& forall|i: int, j: int|
        0 <= i < j < s.sockets.len() && (#[trigger] s.sockets[i]).port is Some ==> s.sockets[i].port
            != (#[trigger] s.sockets[j]).port
}

/// Every request keeps the bound ports distinct.
pub proof fn lemma_ports_stay_distinct(s: ControllerView, owner: ClientId, id: SocketId, msg: u64)
    requires
        ports_distinct(s),
    ensures
        ports_distinct(s.control(owner, msg).state),
        id.0 < s.sockets.len() ==> ports_distinct(s.socket(id, msg).state),
{
    lemma_first_bound(s.sockets, control::value_of(msg), 0);
    let t = s.control(owner, msg).state;
    assert forall|i: int| 0 <= i < s.sockets.len() implies (#[trigger] t.sockets[i]).port
        == s.sockets[i].port by {}
    if t.sockets.len() > s.sockets.len() {
        assert(t.sockets[s.sockets.len() as int].port is None);
    }
    assert forall|i: int, j: int|
        0 <= i < j < t.sockets.len() && (#[trigger] t.sockets[i]).port is Some implies t.sockets[i].port
        != (#[trigger] t.sockets[j]).port by {
        if j < s.sockets.len() {
            assert(s.sockets[i].port != s.sockets[j].port);
        }
    }
    if id.0 < s.sockets.len() && s.socket(id, msg).op.0 == Cmd::SOCKET_BIND {
        let u = s.socket(id, msg).state;
        assert forall|i: int, j: int|
            0 <= i < j < u.sockets.len() && (
            #[trigger] u.sockets[i]).port is Some implies u.sockets[i].port != (
        #[trigger] u.sockets[j]).port by {
            assert(s.sockets[i].port is Some ==> s.sockets[i].port != s.sockets[j].port);
        }
    }
}

/// Once a socket is bound, its port leads to it, and nobody else can bind the port.
pub proof fn lemma_bound_port_leads_to_socket(
    s: ControllerView,
    id: SocketId,
    other: SocketId,
    msg: u64,
)
    requires
        ports_distinct(s),
        id.0 < s.sockets.len(),
        s.socket(id, msg).op.0 == Cmd::SOCKET_BIND,
    ensures
        first_bound(s.socket(id, msg).state.sockets, control::value_of(msg), 0) == Some(id.0 as int),
        s.socket(id, msg).state.socket(other, msg) == s.socket(id, msg).state.unchanged(Cmd::BAD),
{
    let t = s.socket(id, msg).state;
    lemma_first_bound(s.sockets, control::value_of(msg), 0);
    lemma_first_bound(t.sockets, control::value_of(msg), 0);
    assert(t.sockets[id.0 as int].port == Some(control::value_of(msg)));
    assert forall|k: int| 0 <= k < t.sockets.len() && k != id.0 implies (
    #[trigger] t.sockets[k]).port != Some(control::value_of(msg)) by {
        assert(t.sockets[k] == s.sockets[k]);
    }
}

/// The answer to a request has the tag of the request, the number of the response and the result. It
/// is a word of the same form.
pub proof fn lemma_answer_reads(msg: u64, out: Outcome)
    ensures
        control::reads(answer(msg, out), out.result, out.op.0, control::tag_of(msg)),
{
    control::lemma_packed_reads(out.result, out.op, control::tag_of(msg));
}

/// A client that requests a pipe gets the free queue on top, which then waits under its tag behind
/// all others that do. Without a free queue, it is told so and nothing changes.
pub proof fn lemma_pipe_requested(s: ControllerView, owner: ClientId, msg: u64, tag: u32, id: Tag)
    requires
        control::reads(msg, tag, 1, id),
    ensures
        ({
            let out = s.control(owner, msg);
            let t = out.state;
            &&& s.free_queues.len() == 0 ==> t == s && out.op.0 == 0xfffd && out.result == 0
            &&& s.free_queues.len() > 0 ==> {
                let queue = QueueId(out.result);
                &&& out.op.0 == 1
                &&& s.free_queues == t.free_queues.push(queue)
                &&& t.open_server == s.open_server.push(
                    OpenServer { queue, user_tag: tag, a: owner },
                )
                &&& t.open_client == s.open_client
                &&& t.active == s.active
                &&& t.sockets == s.sockets
            }
        }),
{
    control::lemma_reads(msg, tag, 1, id);
    if s.free_queues.len() > 0 {
        assert(s.free_queues =~= s.free_queues.drop_last().push(s.free_queues.last()));
    }
}

/// A client that joins gets the pipe that has waited longest under the tag, whatever else is open:
/// that pipe is moved to the active ones with its own queue, tag and host, and the client is its
/// partner. All other pipes stay as they are, in their order.
pub proof fn lemma_pipe_joined(
    s: ControllerView,
    owner: ClientId,
    msg: u64,
    tag: u32,
    id: Tag,
    i: int,
)
    requires
        control::reads(msg, tag, 3, id),
        0 <= i < s.open_server.len(),
        s.open_server[i].user_tag == tag,
        forall|k: int| 0 <= k < i ==> (#[trigger] s.open_server[k]).user_tag != tag,
    ensures
        ({
            let out = s.control(owner, msg);
            let (t, open) = (out.state, s.open_server[i]);
            &&& out.op.0 == 1
            &&& out.result == open.queue.0
            &&& t.open_server == s.open_server.take(i) + s.open_server.skip(i + 1)
            &&& t.active.len() == s.active.len() + 1
            &&& t.active.take(s.active.len() as int) == s.active
            &&& t.active.last().queue == open.queue
            &&& t.active.last().user_tag == tag
            &&& t.active.last().a == open.a
            &&& t.active.last().b == owner
            &&& t.free_queues == s.free_queues
            &&& t.open_client == s.open_client
            &&& t.sockets == s.sockets
        }),
{
    control::lemma_reads(msg, tag, 3, id);
    lemma_first_open(s.open_server, tag, 0);
    assert(first_open(s.open_server, tag, 0) == Some(i));
    let t = s.control(owner, msg).state;
    assert(t.open_server =~= s.open_server.take(i) + s.open_server.skip(i + 1));
    assert(t.active.take(s.active.len() as int) =~= s.active);
}

/// A client that joins under a tag that no pipe waits under is told so, and nothing changes.
pub proof fn lemma_pipe_not_joined(s: ControllerView, owner: ClientId, msg: u64, tag: u32, id: Tag)
    requires
        control::reads(msg, tag, 3, id),
        forall|k: int| 0 <= k < s.open_server.len() ==> (#[trigger] s.open_server[k]).user_tag != tag,
    ensures
        s.control(owner, msg).state == s,
        s.control(owner, msg).op.0 == 0xfffd,
        s.control(owner, msg).result == 0,
{
    control::lemma_reads(msg, tag, 3, id);
    lemma_first_open(s.open_server, tag, 0);
}

/// A client that leaves an active pipe is off it, and the other stays with the queue and the tag: a
/// host that leaves makes it one of those that only their partner holds, a partner that leaves one of
/// those that wait for a partner. Nobody else can end a pipe. All other pipes stay as they are.
pub proof fn lemma_pipe_left(
    s: ControllerView,
    owner: ClientId,
    msg: u64,
    queue: u32,
    id: Tag,
    i: int,
)
    requires
        control::reads(msg, queue, 5, id),
        0 <= i < s.active.len(),
        s.active[i].queue.0 == queue,
        forall|k: int| 0 <= k < i ==> (#[trigger] s.active[k]).queue.0 != queue,
    ensures
        ({
            let out = s.control(owner, msg);
            let (t, pipe) = (out.state, s.active[i]);
            &&& out.result == 0
            &&& t.free_queues == s.free_queues
            &&& t.sockets == s.sockets
            &&& owner != pipe.a && owner != pipe.b ==> t == s && out.op.0 == 0xfffd
            &&& owner == pipe.a || owner == pipe.b ==> out.op.0 == 5 && t.active == s.active.take(i)
                + s.active.skip(i + 1)
            &&& owner == pipe.a ==> {
                &&& t.open_server == s.open_server
                &&& t.open_client == s.open_client.push(
                    OpenClient { queue: pipe.queue, user_tag: pipe.user_tag, b: pipe.b },
                )
            }
            &&& owner != pipe.a && owner == pipe.b ==> {
                &&& t.open_client == s.open_client
                &&& t.open_server == s.open_server.push(
                    OpenServer { queue: pipe.queue, user_tag: pipe.user_tag, a: pipe.a },
                )
            }
        }),
{
    control::lemma_reads(msg, queue, 5, id);
    lemma_first_active(s.active, queue, 0);
    assert(first_active(s.active, queue, 0) == Some(i));
    let t = s.control(owner, msg).state;
    if owner == s.active[i].a || owner == s.active[i].b {
        assert(t.active =~= s.active.take(i) + s.active.skip(i + 1));
    }
}

/// Leaving a queue that is not active is refused, and nothing changes.
pub proof fn lemma_pipe_not_left(s: ControllerView, owner: ClientId, msg: u64, queue: u32, id: Tag)
    requires
        control::reads(msg, queue, 5, id),
        forall|k: int| 0 <= k < s.active.len() ==> (#[trigger] s.active[k]).queue.0 != queue,
    ensures
        s.control(owner, msg).state == s,
        s.control(owner, msg).op.0 == 0xfffd,
        s.control(owner, msg).result == 0,
{
    control::lemma_reads(msg, queue, 5, id);
    lemma_first_active(s.active, queue, 0);
}

/// A client that creates a socket gets the free queue on top. The socket comes behind all others; it
/// is not bound, and nobody waits on it. Without a free queue, the client is told so and nothing
/// changes.
pub proof fn lemma_socket_created(s: ControllerView, owner: ClientId, msg: u64, value: u32, id: Tag)
    requires
        control::reads(msg, value, 4, id),
    ensures
        ({
            let out = s.control(owner, msg);
            let t = out.state;
            &&& s.free_queues.len() == 0 ==> t == s && out.op.0 == 0xfffd && out.result == 0
            &&& s.free_queues.len() > 0 ==> {
                let queue = QueueId(out.result);
                &&& out.op.0 == 4
                &&& s.free_queues == t.free_queues.push(queue)
                &&& t.sockets.len() == s.sockets.len() + 1
                &&& t.sockets.take(s.sockets.len() as int) == s.sockets
                &&& t.sockets.last().client == owner
                &&& t.sockets.last().queue == queue
                &&& t.sockets.last().port is None
                &&& t.sockets.last().pending_limit == 0
                &&& t.sockets.last().pending.len() == 0
                &&& t.open_server == s.open_server
                &&& t.open_client == s.open_client
                &&& t.active == s.active
            }
        }),
{
    control::lemma_reads(msg, value, 4, id);
    if s.free_queues.len() > 0 {
        assert(s.free_queues =~= s.free_queues.drop_last().push(s.free_queues.last()));
        assert(s.control(owner, msg).state.sockets.take(s.sockets.len() as int) =~= s.sockets);
    }
}

/// A client that connects to a port is given the free queue on top, behind all others that wait on
/// the first socket that is bound to the port, if more than its limit wait there. Otherwise it is
/// refused and nothing changes. No socket but that one does in any case.
pub proof fn lemma_socket_connected(
    s: ControllerView,
    owner: ClientId,
    msg: u64,
    port: u32,
    id: Tag,
    i: int,
)
    requires
        control::reads(msg, port, 6, id),
        port != 0,
        0 <= i < s.sockets.len(),
        s.sockets[i].port == Some(port),
        forall|k: int| 0 <= k < i ==> (#[trigger] s.sockets[k]).port != Some(port),
    ensures
        ({
            let out = s.control(owner, msg);
            let t = out.state;
            let free = s.free_queues.len() > 0 && s.sockets[i].pending.len()
                > s.sockets[i].pending_limit;
            &&& out.result == 0
            &&& !free ==> t == s && out.op.0 == 0xffff
            &&& free ==> {
                let queue = s.free_queues.last();
                &&& out.op.0 == 6
                &&& s.free_queues == t.free_queues.push(queue)
                &&& t.sockets.len() == s.sockets.len()
                &&& t.sockets[i].pending == s.sockets[i].pending.push(queue)
                &&& t.sockets[i].client == s.sockets[i].client
                &&& t.sockets[i].queue == s.sockets[i].queue
                &&& t.sockets[i].port == Some(port)
                &&& t.sockets[i].pending_limit == s.sockets[i].pending_limit
                &&& forall|k: int|
                    0 <= k < s.sockets.len() && k != i ==> #[trigger] t.sockets[k] == s.sockets[k]
                &&& t.open_server == s.open_server
                &&& t.open_client == s.open_client
                &&& t.active == s.active
            }
        }),
{
    control::lemma_reads(msg, port, 6, id);
    lemma_first_bound(s.sockets, port, 0);
    assert(first_bound(s.sockets, port, 0) == Some(i));
    if s.free_queues.len() > 0 {
        assert(s.free_queues =~= s.free_queues.drop_last().push(s.free_queues.last()));
    }
}

/// A client that connects to a port that no socket is bound to is refused, and nothing changes. So is
/// one that connects to port zero.
pub proof fn lemma_socket_not_connected(
    s: ControllerView,
    owner: ClientId,
    msg: u64,
    port: u32,
    id: Tag,
)
    requires
        control::reads(msg, port, 6, id),
        port == 0 || forall|k: int|
            0 <= k < s.sockets.len() ==> (#[trigger] s.sockets[k]).port != Some(port),
    ensures
        s.control(owner, msg).state == s,
        s.control(owner, msg).op.0 == 0xffff,
        s.control(owner, msg).result == 0,
{
    control::lemma_reads(msg, port, 6, id);
    lemma_first_bound(s.sockets, port, 0);
}

/// A ping is answered by a ping, and a message of a number that is none of a request is bad. Neither
/// changes anything.
pub proof fn lemma_other_messages(
    s: ControllerView,
    owner: ClientId,
    msg: u64,
    value: u32,
    cmd: u16,
    id: Tag,
)
    requires
        control::reads(msg, value, cmd, id),
        cmd == 2 || cmd == 0 || cmd > 6,
    ensures
        s.control(owner, msg).state == s,
        s.control(owner, msg).op.0 == (if cmd == 2 {
            2u16
        } else {
            0xffff
        }),
        s.control(owner, msg).result == 0,
{
    control::lemma_reads(msg, value, cmd, id);
}

/// A socket is bound to a port that is not zero and that no socket is bound to. Then its port is that,
/// and all else is as it was. A port that is taken or zero is refused, other messages are not known on
/// the queue of a socket, and neither changes anything.
pub proof fn lemma_socket_bind(
    s: ControllerView,
    socket: SocketId,
    msg: u64,
    port: u32,
    cmd: u16,
    id: Tag,
)
    requires
        control::reads(msg, port, cmd, id),
        socket.0 < s.sockets.len(),
    ensures
        ({
            let out = s.socket(socket, msg);
            let (t, i) = (out.state, socket.0 as int);
            let free = port != 0 && forall|k: int|
                0 <= k < s.sockets.len() ==> (#[trigger] s.sockets[k]).port != Some(port);
            &&& out.result == 0
            &&& cmd != 5 ==> t == s && out.op.0 == 0xfffe
            &&& cmd == 5 && !free ==> t == s && out.op.0 == 0xffff
            &&& cmd == 5 && free ==> {
                &&& out.op.0 == 5
                &&& t.sockets.len() == s.sockets.len()
                &&& t.sockets[i].port == Some(port)
                &&& t.sockets[i].client == s.sockets[i].client
                &&& t.sockets[i].queue == s.sockets[i].queue
                &&& t.sockets[i].pending_limit == s.sockets[i].pending_limit
                &&& t.sockets[i].pending == s.sockets[i].pending
                &&& forall|k: int|
                    0 <= k < s.sockets.len() && k != i ==> #[trigger] t.sockets[k] == s.sockets[k]
                &&& t.free_queues == s.free_queues
                &&& t.open_server == s.open_server
                &&& t.open_client == s.open_client
                &&& t.active == s.active
            }
        }),
{
    control::lemma_reads(msg, port, cmd, id);
    lemma_first_bound(s.sockets, port, 0);
}

/// A request is served just when its eight bytes are there and eight more have room in the answers.
pub proof fn lemma_can_serve(queue: ShmQueue)
    ensures
        can_serve(queue) <==> queue.read.bytes@.len() >= 8 && queue.write.bytes@.len() + 8
            <= queue.write.capacity,
{
}

} // verus!
