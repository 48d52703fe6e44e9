use shm_pbx::control::{
    Cmd, ControlMessage, ControlResponse, Ping, PipeJoin, PipeLeave, PipeRequest, Poll,
    ShmControllerRing, SocketBind, SocketConnect, SocketCreate, SocketMessage, Tag,
};
use shm_pbx::controller::{
    ActiveQueue, ClientId, ControllerState, Events, OpenClient, OpenServer, QueueId, ShmController,
    Socket, SocketId,
};
use shm_pbx::queue::{ReadHalf, ShmQueue, WriteHalf};

fn state(free: &[u32]) -> ControllerState {
    ControllerState {
        free_queues: free.iter().map(|&q| QueueId(q)).collect(),
        open_server: vec![],
        open_client: vec![],
        active: vec![],
        sockets: vec![],
    }
}

fn request(op: u64) -> ShmQueue {
    ShmQueue {
        read: ReadHalf { bytes: op.to_be_bytes().to_vec() },
        write: WriteHalf { bytes: vec![], capacity: 8 },
    }
}

/// Serve one request on a control queue, and give its answer.
fn serve(state: &mut ControllerState, owner: u32, msg: ControlMessage) -> ControlMessage {
    let mut queue = request(msg.op);
    state.execute_control(ClientId(owner), &mut queue, None);
    assert_eq!(queue.read.bytes, Vec::<u8>::new());
    assert_eq!(queue.write.bytes.len(), 8);
    let mut word = [0; 8];
    word.copy_from_slice(&queue.write.bytes);
    ControlMessage { op: u64::from_be_bytes(word) }
}

/// Serve one request on the queue of a socket, and give its answer.
fn serve_socket(state: &mut ControllerState, id: u32, msg: ControlMessage) -> ControlMessage {
    let mut queue = request(msg.op);
    state.execute_socket(SocketId(id), &mut queue, None);
    let mut word = [0; 8];
    word.copy_from_slice(&queue.write.bytes);
    ControlMessage { op: u64::from_be_bytes(word) }
}

#[test]
fn message_fields() {
    let msg = ControlMessage::with_raw(Cmd(Cmd::PIPE_JOIN), Tag(0x0107)).with_argument(0x0908_0706);
    assert_eq!(msg.op, 0x0908_0706_0003_0107);
    assert_eq!(msg.tag(), Tag(0x0107));
    assert_eq!(msg.cmd(), Cmd(Cmd::PIPE_JOIN));
    assert_eq!(msg.value0(), 0x0908_0706);
    let extremes = ControlMessage::with_raw(Cmd(0xffff), Tag(0xffff)).with_result(u32::MAX);
    assert_eq!(extremes.op, u64::MAX);
    assert_eq!(ControlMessage::with_raw(Cmd(1), Tag(0)).with_result(0).op, 0x1_0000);
}

#[test]
fn message_of_each_request() {
    let tag = Tag(9);
    assert_eq!(ControlMessage::new(PipeRequest { public_id: 7, tag }).op, 0x7_0001_0009);
    assert_eq!(ControlMessage::new(Ping { payload: tag }).op, 0x2_0009);
    assert_eq!(ControlMessage::new(PipeJoin { public_id: 7, tag }).op, 0x7_0003_0009);
    assert_eq!(ControlMessage::new(PipeLeave { queue: 7, tag }).op, 0x7_0005_0009);
    assert_eq!(ControlMessage::new(SocketCreate { public_id: 0, tag }).op, 0x4_0009);
    assert_eq!(ControlMessage::new(SocketConnect { port: 80, tag }).op, 0x50_0006_0009);
    assert_eq!(SocketMessage::from(SocketBind { port: 80, tag }).0.op, 0x50_0005_0009);
}

#[test]
fn response_is_read_most_significant_byte_first() {
    let ring = ReadHalf { bytes: vec![] };
    let response = ControlResponse::new(&ring, [0, 0, 0, 5, 0xff, 0xfd, 1, 2]);
    assert_eq!(response.value0(), 5);
    assert_eq!(response.response(), Cmd(Cmd::OUT_OF_QUEUES));
    assert_eq!(response.tag(), Tag(0x0102));
}

#[test]
fn ping_is_answered_by_a_ping() {
    let mut state = state(&[1, 2]);
    let answer = serve(&mut state, 3, ControlMessage::new(Ping { payload: Tag(77) }));
    assert_eq!(answer.op, ControlMessage::new(Ping { payload: Tag(77) }).op);
    assert_eq!(state.free_queues.len(), 2);
}

#[test]
fn pipe_is_established_and_left() {
    let mut state = state(&[4, 5]);
    let msg = ControlMessage::new(PipeRequest { public_id: 42, tag: Tag(1) });
    let answer = serve(&mut state, 10, msg);
    assert_eq!((answer.cmd().0, answer.value0(), answer.tag()), (Cmd::REQUEST_PIPE, 5, Tag(1)));
    assert_eq!(state.open_server, vec![OpenServer { queue: QueueId(5), user_tag: 42, a: ClientId(10) }]);

    let msg = ControlMessage::new(PipeJoin { public_id: 43, tag: Tag(2) });
    assert_eq!(serve(&mut state, 11, msg).cmd().0, Cmd::OUT_OF_QUEUES);

    let msg = ControlMessage::new(PipeJoin { public_id: 42, tag: Tag(2) });
    let answer = serve(&mut state, 11, msg);
    assert_eq!((answer.cmd().0, answer.value0()), (Cmd::REQUEST_PIPE, 5));
    assert!(state.open_server.is_empty());
    let active = ActiveQueue { queue: QueueId(5), user_tag: 42, a: ClientId(10), b: ClientId(11) };
    assert_eq!(state.active, vec![active]);

    // Not by somebody else.
    let msg = ControlMessage::new(PipeLeave { queue: 5, tag: Tag(3) });
    assert_eq!(serve(&mut state, 12, msg).cmd().0, Cmd::OUT_OF_QUEUES);
    assert_eq!(state.active, vec![active]);

    // The joining side leaves, and another can take its place.
    assert_eq!(serve(&mut state, 11, msg).op, ControlMessage::with_raw(Cmd(5), Tag(3)).op);
    assert_eq!(state.open_server, vec![OpenServer { queue: QueueId(5), user_tag: 42, a: ClientId(10) }]);
    let join = ControlMessage::new(PipeJoin { public_id: 42, tag: Tag(4) });
    assert_eq!(serve(&mut state, 13, join).value0(), 5);

    // The opening side leaves.
    assert_eq!(serve(&mut state, 10, msg).cmd().0, Cmd::PIPE_LEAVE);
    assert_eq!(state.open_client, vec![OpenClient { queue: QueueId(5), user_tag: 42, b: ClientId(13) }]);
    assert!(state.active.is_empty());
}

#[test]
fn first_of_several_open_queues_is_joined() {
    let mut state = state(&[1, 2, 3]);
    let msg = ControlMessage::new(PipeRequest { public_id: 8, tag: Tag(0) });
    assert_eq!(serve(&mut state, 1, msg).value0(), 3);
    assert_eq!(serve(&mut state, 2, msg).value0(), 2);
    let join = ControlMessage::new(PipeJoin { public_id: 8, tag: Tag(0) });
    assert_eq!(serve(&mut state, 3, join).value0(), 3);
    assert_eq!(serve(&mut state, 3, join).value0(), 2);
    assert_eq!(serve(&mut state, 3, join).cmd().0, Cmd::OUT_OF_QUEUES);
}

#[test]
fn out_of_queues() {
    let mut state = state(&[]);
    let msg = ControlMessage::new(PipeRequest { public_id: 8, tag: Tag(6) });
    let answer = serve(&mut state, 1, msg);
    assert_eq!(answer.op, ControlMessage::with_raw(Cmd(Cmd::OUT_OF_QUEUES), Tag(6)).op);
    let msg = ControlMessage::new(SocketCreate { public_id: 0, tag: Tag(6) });
    assert_eq!(serve(&mut state, 1, msg).cmd().0, Cmd::OUT_OF_QUEUES);
    assert!(state.open_server.is_empty());
    assert!(state.sockets.is_empty());
}

#[test]
fn unknown_command_is_bad() {
    let mut state = state(&[1]);
    for cmd in [0, 7, 0xfffe] {
        let answer = serve(&mut state, 1, ControlMessage::with_raw(Cmd(cmd), Tag(2)));
        assert_eq!(answer.op, ControlMessage::with_raw(Cmd(Cmd::BAD), Tag(2)).op);
    }
    assert_eq!(state.free_queues, vec![QueueId(1)]);
}

#[test]
fn sockets_are_bound_to_distinct_ports() {
    let mut state = state(&[1, 2, 3]);
    let create = ControlMessage::new(SocketCreate { public_id: 0, tag: Tag(1) });
    assert_eq!(serve(&mut state, 20, create).value0(), 3);
    assert_eq!(serve(&mut state, 21, create).value0(), 2);
    assert_eq!(state.sockets[0].client, ClientId(20));
    assert_eq!(state.sockets[0].port, None);

    let bind = |port| SocketMessage::from(SocketBind { port, tag: Tag(2) }).0;
    assert_eq!(serve_socket(&mut state, 0, bind(0)).cmd().0, Cmd::BAD);
    assert_eq!(serve_socket(&mut state, 0, bind(80)).cmd().0, Cmd::SOCKET_BIND);
    assert_eq!(serve_socket(&mut state, 1, bind(80)).cmd().0, Cmd::BAD);
    assert_eq!(serve_socket(&mut state, 1, bind(81)).cmd().0, Cmd::SOCKET_BIND);
    assert_eq!(state.sockets[0].port, Some(80));
    assert_eq!(state.sockets[1].port, Some(81));
    let ping = ControlMessage::new(Ping { payload: Tag(2) });
    assert_eq!(serve_socket(&mut state, 1, ping).cmd().0, Cmd::UNIMPLEMENTED);
}

#[test]
fn socket_connect_needs_pending_beyond_the_limit() {
    let mut state = state(&[1]);
    let connect = |port| ControlMessage::new(SocketConnect { port, tag: Tag(2) });
    assert_eq!(serve(&mut state, 1, connect(80)).cmd().0, Cmd::BAD);
    state.sockets.push(Socket {
        client: ClientId(1),
        queue: QueueId(9),
        port: Some(80),
        pending_limit: 0,
        pending: vec![],
    });
    assert_eq!(serve(&mut state, 1, connect(80)).cmd().0, Cmd::BAD);
    assert_eq!(serve(&mut state, 1, connect(0)).cmd().0, Cmd::BAD);
    state.sockets[0].pending.push(QueueId(7));
    assert_eq!(serve(&mut state, 1, connect(80)).cmd().0, Cmd::SOCKET_CONNECT);
    assert_eq!(state.sockets[0].pending, vec![QueueId(7), QueueId(1)]);
    assert_eq!(serve(&mut state, 1, connect(80)).cmd().0, Cmd::BAD);
}

#[test]
fn nothing_happens_without_room_or_request() {
    let mut controller = ShmController { state: state(&[1]), futex: -1, max_members: 4 };
    let msg = ControlMessage::new(PipeRequest { public_id: 8, tag: Tag(6) });
    let mut events = Events { requests: vec![] };

    let mut full = request(msg.op);
    full.write.capacity = 7;
    ControlMessage::execute(&mut controller, 1, &mut full, Some(&mut events));
    assert_eq!(full.read.bytes.len(), 8);

    let mut short = request(msg.op);
    short.read.bytes.pop();
    ControlMessage::execute(&mut controller, 1, &mut short, Some(&mut events));
    assert_eq!(short.read.bytes.len(), 7);
    assert!(short.write.bytes.is_empty());
    assert_eq!(controller.state.free_queues, vec![QueueId(1)]);
    assert!(events.requests.is_empty());

    let mut good = request(msg.op);
    ControlMessage::execute(&mut controller, 1, &mut good, Some(&mut events));
    assert_eq!(events.requests.len(), 1);
    assert_eq!(events.requests[0].0.op, msg.op);
    assert_eq!(events.requests[0].1.op.to_be_bytes().to_vec(), good.write.bytes);
    assert!(controller.state.free_queues.is_empty());
}

#[test]
fn poll_gives_the_ring_back() {
    let ring = ShmControllerRing {
        client: ClientId(3),
        queue: request(0x0102),
    };
    let poll = Poll::new(ring);
    assert!(poll.responses.is_empty());
    let ring = poll.into_ring();
    assert_eq!(ring.client, ClientId(3));
    assert_eq!(ring.queue.read.bytes, vec![0, 0, 0, 0, 0, 0, 1, 2]);
}
