//! Socket state of a run, and the byte layouts that socket calls pass through
//! guest memory.
//!
//! Socket descriptors are synthetic. Each is of one kind and maps to a
//! connection, server or datagram socket of the embedding's network
//! coordinator. Errors are negative Linux errno values.

use std::collections::{HashMap, VecDeque};

use vstd::prelude::*;


verus! {

broadcast use vstd::std_specs::hash::group_hash_axioms;

/// IPv4 sockets.
pub const AF_INET: i32 = 2;

/// Unix-domain sockets.
pub const AF_UNIX: i32 = 1;

/// Stream sockets.
pub const SOCK_STREAM: i32 = 1;

/// Datagram sockets.
pub const SOCK_DGRAM: i32 = 2;

/// Mask to strip SOCK_NONBLOCK / SOCK_CLOEXEC from the type argument.
pub const SOCK_TYPE_MASK: i32 = 0xF;

/// First socket descriptor: well above file descriptors, so that a socket never
/// aliases a file.
pub const SOCK_FD_BASE: i32 = 1024;

/// Denied.
pub const EPERM: i32 = -1;

/// Unknown descriptor.
pub const EBADF: i32 = -9;

/// Bad address or argument.
pub const EINVAL: i32 = -22;

/// Not supported.
pub const ENOTSUP: i32 = -95;

/// Connection refused.
pub const ECONNREFUSED: i32 = -111;

/// Nothing there yet.
pub const EAGAIN: i32 = -11;

/// What a socket is.
#[derive(Debug, Clone, Copy, PartialEq, Eq, Structural)]
pub enum SockKind {
    TcpStream,
    UdpDgram,
    UnixStream,
    UnixDgram,
}

/// Socket state of a run.
pub struct SocketState {
    next_fd: i32,
    conn_fds: HashMap<i32, i32>,
    server_fds: HashMap<i32, i32>,
    recv_bufs: HashMap<i32, VecDeque<Vec<u8>>>,
    accept_queues: HashMap<i32, VecDeque<i32>>,
    fd_kinds: HashMap<i32, SockKind>,
    udp_fds: HashMap<i32, i32>,
    udp_connected: HashMap<i32, (String, u16)>,
    unix_stream_bind_paths: HashMap<i32, String>,
    unix_dgram_fds: HashMap<i32, i32>,
    unix_dgram_connected: HashMap<i32, String>,
}

/// What the socket state holds.
#[verifier::ext_equal]
pub struct SocketView {
    /// The descriptor that the next socket takes.
    pub next_fd: i32,
    /// Descriptor to connection id.
    pub conns: Map<i32, i32>,
    /// Descriptor to server id, or before `listen` to minus the port.
    pub servers: Map<i32, i32>,
    /// Per connection: the chunks received and not yet read, oldest first.
    pub received: Map<i32, Seq<Seq<u8>>>,
    /// Per server: the connections accepted and not yet handed out.
    pub pending: Map<i32, Seq<i32>>,
    /// Descriptor to kind.
    pub kinds: Map<i32, SockKind>,
    /// Descriptor to bound UDP socket id.
    pub udp_ids: Map<i32, i32>,
    /// Descriptor to default UDP peer.
    pub udp_peers: Map<i32, (Seq<char>, u16)>,
    /// Descriptor to the path that a Unix stream socket was bound to.
    pub unix_paths: Map<i32, Seq<char>>,
    /// Descriptor to bound Unix datagram socket id.
    pub unix_ids: Map<i32, i32>,
    /// Descriptor to default Unix datagram peer.
    pub unix_peers: Map<i32, Seq<char>>,
}

spec fn chunk_views(s: Seq<Vec<u8>>) -> Seq<Seq<u8>> {
    Seq::new(s.len(), |i: int| s[i]@)
}

spec fn received_views(m: Map<i32, VecDeque<Vec<u8>>>) -> Map<i32, Seq<Seq<u8>>> {
    Map::new(|k: i32| m.contains_key(k), |k: i32| chunk_views(m[k]@))
}

spec fn pending_views(m: Map<i32, VecDeque<i32>>) -> Map<i32, Seq<i32>> {
    Map::new(|k: i32| m.contains_key(k), |k: i32| m[k]@)
}

spec fn peer_views(m: Map<i32, (String, u16)>) -> Map<i32, (Seq<char>, u16)> {
    Map::new(|k: i32| m.contains_key(k), |k: i32| (m[k].0@, m[k].1))
}

spec fn path_views(m: Map<i32, String>) -> Map<i32, Seq<char>> {
    Map::new(|k: i32| m.contains_key(k), |k: i32| m[k]@)
}

impl View for SocketState {
    type V = SocketView;

    closed spec fn view(&self) -> SocketView {
        SocketView {
            next_fd: self.next_fd,
            conns: self.conn_fds@,
            servers: self.server_fds@,
            received: received_views(self.recv_bufs@),
            pending: pending_views(self.accept_queues@),
            kinds: self.fd_kinds@,
            udp_ids: self.udp_fds@,
            udp_peers: peer_views(self.udp_connected@),
            unix_paths: path_views(self.unix_stream_bind_paths@),
            unix_ids: self.unix_dgram_fds@,
            unix_peers: path_views(self.unix_dgram_connected@),
        }
    }
}

/// The state of a run without sockets.
pub open spec fn no_sockets() -> SocketView {
    SocketView {
        next_fd: SOCK_FD_BASE,
        conns: Map::empty(),
        servers: Map::empty(),
        received: Map::empty(),
        pending: Map::empty(),
        kinds: Map::empty(),
        udp_ids: Map::empty(),
        udp_peers: Map::empty(),
        unix_paths: Map::empty(),
        unix_ids: Map::empty(),
        unix_peers: Map::empty(),
    }
}

/// All bytes of a queue of chunks.
pub open spec fn flat(q: Seq<Seq<u8>>) -> Seq<u8>
    decreases q.len(),
{
    if q.len() == 0 {
        Seq::empty()
    } else {
        q[0] + flat(q.skip(1))
    }
}

/// The first `max` bytes of a queue of chunks.
pub open spec fn drained(q: Seq<Seq<u8>>, max: int) -> Seq<u8>
    decreases q.len(),
{
    if max <= 0 || q.len() == 0 {
        Seq::empty()
    } else if q[0].len() <= max {
        q[0] + drained(q.skip(1), max - q[0].len())
    } else {
        q[0].take(max)
    }
}

/// What is left of a queue of chunks after its first `max` bytes. A chunk that
/// was read to its end is gone.
pub open spec fn left_over(q: Seq<Seq<u8>>, max: int) -> Seq<Seq<u8>>
    decreases q.len(),
{
    if max <= 0 || q.len() == 0 {
        q
    } else if q[0].len() <= max {
        left_over(q.skip(1), max - q[0].len())
    } else {
        q.update(0, q[0].skip(max))
    }
}

/// Draining loses and reorders nothing: what comes out, followed by what stays,
/// is what was there; and it takes as much as it may.
pub proof fn law_drain_keeps_bytes(q: Seq<Seq<u8>>, max: int)
    requires
        0 <= max,
    ensures
        drained(q, max) + flat(left_over(q, max)) == flat(q),
        drained(q, max).len() == if max <= flat(q).len() {
            max
        } else {
            flat(q).len() as int
        },
    decreases q.len(),
{
    if max > 0 && q.len() > 0 {
        if q[0].len() <= max {
            law_drain_keeps_bytes(q.skip(1), max - q[0].len());
            assert(q[0] + (drained(q.skip(1), max - q[0].len()) + flat(
                left_over(q.skip(1), max - q[0].len()),
            )) =~= drained(q, max) + flat(left_over(q, max)));
        } else {
            let rest = q.update(0, q[0].skip(max));
            assert(rest.skip(1) =~= q.skip(1));
            assert(q[0].take(max) + (q[0].skip(max) + flat(q.skip(1))) =~= q[0] + flat(q.skip(1)));
        }
    } else {
        assert(drained(q, max) + flat(left_over(q, max)) =~= flat(q));
    }
}

/// Bytes that arrive go behind those that wait.
pub proof fn law_push_appends(q: Seq<Seq<u8>>, bytes: Seq<u8>)
    ensures
        flat(q.push(bytes)) == flat(q) + bytes,
    decreases q.len(),
{
    if q.len() == 0 {
        let one = q.push(bytes);
        assert(one.skip(1) =~= Seq::<Seq<u8>>::empty());
        assert(one[0] == bytes);
        reveal_with_fuel(flat, 2);
        assert(flat(one) =~= flat(q) + bytes);
    } else {
        law_push_appends(q.skip(1), bytes);
        assert(q.push(bytes).skip(1) =~= q.skip(1).push(bytes));
        assert(flat(q.push(bytes)) =~= flat(q) + bytes);
    }
}

impl SocketView {
    /// The chunks received on `conn` and not yet read.
    pub open spec fn chunks(self, conn: i32) -> Seq<Seq<u8>> {
        if self.received.contains_key(conn) {
            self.received[conn]
        } else {
            Seq::empty()
        }
    }

    /// The bytes received on `conn` and not yet read.
    pub open spec fn unread(self, conn: i32) -> Seq<u8> {
        flat(self.chunks(conn))
    }

    /// The kind of the socket `fd`, if it is known.
    pub open spec fn kind(self, fd: i32) -> Option<SockKind> {
        if self.kinds.contains_key(fd) {
            Some(self.kinds[fd])
        } else {
            None
        }
    }

    /// The state after bytes arrived on `conn`.
    pub open spec fn with_data(self, conn: i32, bytes: Seq<u8>) -> SocketView {
        SocketView { received: self.received.insert(conn, self.chunks(conn).push(bytes)), ..self }
    }

    /// The state after up to `max` bytes were read from `conn`.
    pub open spec fn with_drained(self, conn: i32, max: int) -> SocketView {
        if self.received.contains_key(conn) {
            SocketView {
                received: self.received.insert(conn, left_over(self.chunks(conn), max)),
                ..self
            }
        } else {
            self
        }
    }

    /// The connections waiting to be accepted on `server`.
    pub open spec fn waiting(self, server: i32) -> Seq<i32> {
        if self.pending.contains_key(server) {
            self.pending[server]
        } else {
            Seq::empty()
        }
    }

    /// The state with other connections waiting on `server`.
    pub open spec fn with_waiting(self, server: i32, conns: Seq<i32>) -> SocketView {
        SocketView { pending: self.pending.insert(server, conns), ..self }
    }

    /// No known socket has a number that is still to be handed out.
    pub open spec fn fresh(self) -> bool {
        &&& SOCK_FD_BASE <= self.next_fd
        &&& forall|fd: i32| #[trigger]
            self.kinds.contains_key(fd) ==> SOCK_FD_BASE <= fd < self.next_fd
    }

    /// The state after a socket of the given kind was made.
    pub open spec fn with_socket(self, kind: SockKind) -> SocketView {
        SocketView { kinds: self.kinds.insert(self.next_fd, kind), ..self.with_next_fd() }
    }

    /// The state after a descriptor was handed out.
    pub open spec fn with_next_fd(self) -> SocketView {
        SocketView { next_fd: self.next_fd.wrapping_add(1), ..self }
    }
}

/// Until the numbers run out, a new socket has a number that no other socket has.
pub proof fn law_new_socket_is_fresh(s: SocketView, kind: SockKind)
    requires
        s.fresh(),
        s.next_fd < i32::MAX,
    ensures
        !s.kinds.contains_key(s.next_fd),
        s.with_socket(kind).kind(s.next_fd) == Some(kind),
        s.with_socket(kind).fresh(),
        forall|fd: i32| #[trigger]
            s.kinds.contains_key(fd) ==> s.with_socket(kind).kind(fd) == s.kind(fd),
{
}

impl SocketState {
    /// A state without sockets.
    pub fn new() -> (r: Self)
        ensures
            r@ == no_sockets(),
    {
        let r = SocketState {
            next_fd: SOCK_FD_BASE,
            conn_fds: HashMap::new(),
            server_fds: HashMap::new(),
            recv_bufs: HashMap::new(),
            accept_queues: HashMap::new(),
            fd_kinds: HashMap::new(),
            udp_fds: HashMap::new(),
            udp_connected: HashMap::new(),
            unix_stream_bind_paths: HashMap::new(),
            unix_dgram_fds: HashMap::new(),
            unix_dgram_connected: HashMap::new(),
        };
        assert(r@ =~= no_sockets());
        r
    }

    /// Allocate a fresh socket descriptor.
    pub fn alloc_fd(&mut self) -> (fd: i32)
        ensures
            fd == old(self)@.next_fd,
            final(self)@ == old(self)@.with_next_fd(),
    {
        let fd: i32 = self.next_fd;
        self.next_fd = fd.wrapping_add(1);
        fd
    }

    /// The kind of the socket `fd`, if it is known.
    pub fn fd_kind(&self, fd: i32) -> (r: Option<SockKind>)
        ensures
            r == self@.kind(fd),
    {
        match self.fd_kinds.get(&fd) {
            Some(k) => Some(*k),
            None => None,
        }
    }

    /// Record the kind of a socket.
    pub fn set_kind(&mut self, fd: i32, kind: SockKind)
        ensures
            final(self)@ == (SocketView { kinds: old(self)@.kinds.insert(fd, kind), ..old(self)@ }),
    {
        self.fd_kinds.insert(fd, kind);
    }

    /// The connection behind a socket.
    pub fn conn_of(&self, fd: i32) -> (r: Option<i32>)
        ensures
            r == if self@.conns.contains_key(fd) {
                Some(self@.conns[fd])
            } else {
                None
            },
    {
        match self.conn_fds.get(&fd) {
            Some(c) => Some(*c),
            None => None,
        }
    }

    /// Tie a socket to a connection.
    pub fn set_conn(&mut self, fd: i32, conn: i32)
        ensures
            final(self)@ == (SocketView { conns: old(self)@.conns.insert(fd, conn), ..old(self)@ }),
    {
        self.conn_fds.insert(fd, conn);
    }

    /// The server behind a socket, or minus the port that it is bound to.
    pub fn server_of(&self, fd: i32) -> (r: Option<i32>)
        ensures
            r == if self@.servers.contains_key(fd) {
                Some(self@.servers[fd])
            } else {
                None
            },
    {
        match self.server_fds.get(&fd) {
            Some(c) => Some(*c),
            None => None,
        }
    }

    /// Tie a socket to a server.
    pub fn set_server(&mut self, fd: i32, server: i32)
        ensures
            final(self)@ == (SocketView {
                servers: old(self)@.servers.insert(fd, server),
                ..old(self)@
            }),
    {
        self.server_fds.insert(fd, server);
    }

    /// The UDP socket behind a descriptor.
    pub fn udp_of(&self, fd: i32) -> (r: Option<i32>)
        ensures
            r == if self@.udp_ids.contains_key(fd) {
                Some(self@.udp_ids[fd])
            } else {
                None
            },
    {
        match self.udp_fds.get(&fd) {
            Some(c) => Some(*c),
            None => None,
        }
    }

    /// Tie a descriptor to a UDP socket.
    pub fn set_udp(&mut self, fd: i32, id: i32)
        ensures
            final(self)@ == (SocketView { udp_ids: old(self)@.udp_ids.insert(fd, id), ..old(self)@ }),
    {
        self.udp_fds.insert(fd, id);
    }

    /// The default peer of a UDP socket.
    pub fn udp_peer_of(&self, fd: i32) -> (r: Option<(String, u16)>)
        ensures
            r is Some <==> self@.udp_peers.contains_key(fd),
            r matches Some(p) ==> (p.0@, p.1) == self@.udp_peers[fd],
    {
        match self.udp_connected.get(&fd) {
            Some(p) => Some((p.0.clone(), p.1)),
            None => None,
        }
    }

    /// Set the default peer of a UDP socket.
    pub fn set_udp_peer(&mut self, fd: i32, host: String, port: u16)
        ensures
            final(self)@ == (SocketView {
                udp_peers: old(self)@.udp_peers.insert(fd, (host@, port)),
                ..old(self)@
            }),
    {
        self.udp_connected.insert(fd, (host, port));
        assert(self@.udp_peers =~= old(self)@.udp_peers.insert(fd, (host@, port)));
    }

    /// The path that a Unix stream socket was bound to.
    pub fn unix_path_of(&self, fd: i32) -> (r: Option<String>)
        ensures
            r is Some <==> self@.unix_paths.contains_key(fd),
            r matches Some(p) ==> p@ == self@.unix_paths[fd],
    {
        match self.unix_stream_bind_paths.get(&fd) {
            Some(p) => Some(p.clone()),
            None => None,
        }
    }

    /// Record the path that a Unix stream socket is bound to.
    pub fn set_unix_path(&mut self, fd: i32, path: String)
        ensures
            final(self)@ == (SocketView {
                unix_paths: old(self)@.unix_paths.insert(fd, path@),
                ..old(self)@
            }),
    {
        self.unix_stream_bind_paths.insert(fd, path);
        assert(self@.unix_paths =~= old(self)@.unix_paths.insert(fd, path@));
    }

    /// The Unix datagram socket behind a descriptor.
    pub fn unix_dgram_of(&self, fd: i32) -> (r: Option<i32>)
        ensures
            r == if self@.unix_ids.contains_key(fd) {
                Some(self@.unix_ids[fd])
            } else {
                None
            },
    {
        match self.unix_dgram_fds.get(&fd) {
            Some(c) => Some(*c),
            None => None,
        }
    }

    /// Tie a descriptor to a Unix datagram socket.
    pub fn set_unix_dgram(&mut self, fd: i32, id: i32)
        ensures
            final(self)@ == (SocketView {
                unix_ids: old(self)@.unix_ids.insert(fd, id),
                ..old(self)@
            }),
    {
        self.unix_dgram_fds.insert(fd, id);
    }

    /// The default peer of a Unix datagram socket.
    pub fn unix_peer_of(&self, fd: i32) -> (r: Option<String>)
        ensures
            r is Some <==> self@.unix_peers.contains_key(fd),
            r matches Some(p) ==> p@ == self@.unix_peers[fd],
    {
        match self.unix_dgram_connected.get(&fd) {
            Some(p) => Some(p.clone()),
            None => None,
        }
    }

    /// Set the default peer of a Unix datagram socket.
    pub fn set_unix_peer(&mut self, fd: i32, path: String)
        ensures
            final(self)@ == (SocketView {
                unix_peers: old(self)@.unix_peers.insert(fd, path@),
                ..old(self)@
            }),
    {
        self.unix_dgram_connected.insert(fd, path);
        assert(self@.unix_peers =~= old(self)@.unix_peers.insert(fd, path@));
    }

    /// Enqueue incoming bytes for `conn_id`.
    pub fn push_data(&mut self, conn_id: i32, bytes: Vec<u8>)
        ensures
            final(self)@ == old(self)@.with_data(conn_id, bytes@),
    {
        let mut q = match self.recv_bufs.remove(&conn_id) {
            Some(q) => q,
            None => VecDeque::new(),
        };
        let ghost was = q@;
        assert(chunk_views(was) =~= old(self)@.chunks(conn_id));
        q.push_back(bytes);
        assert(chunk_views(q@) =~= chunk_views(was).push(bytes@));
        self.recv_bufs.insert(conn_id, q);
        assert(self@ =~= old(self)@.with_data(conn_id, bytes@));
    }

    /// Drain up to `max` bytes from the receive buffer for `conn_id`.
    pub fn drain_recv(&mut self, conn_id: i32, max: usize) -> (r: Vec<u8>)
        ensures
            r@ == drained(old(self)@.chunks(conn_id), max as int),
            final(self)@ == old(self)@.with_drained(conn_id, max as int),
    {
        let mut q = match self.recv_bufs.remove(&conn_id) {
            Some(q) => q,
            None => {
                assert(self@ =~= old(self)@);
                return Vec::new();
            },
        };
        let ghost all = chunk_views(q@);
        assert(all =~= old(self)@.chunks(conn_id));
        let mut out: Vec<u8> = Vec::new();
        assert(out@ + drained(all, max as int) =~= drained(all, max as int));
        while out.len() < max && q.len() > 0
            invariant
                out@.len() <= max,
                drained(all, max as int) == out@ + drained(chunk_views(q@), max - out@.len()),
                left_over(all, max as int) == left_over(chunk_views(q@), max - out@.len()),
            decreases max - out@.len(), q@.len(),
        {
            let ghost now = chunk_views(q@);
            let ghost done = out@;
            let room: usize = max - out.len();
            if let Some(front) = q.pop_front() {
                let mut front = front;
                let ghost chunk = front@;
                assert(now[0] == chunk);
                assert(chunk_views(q@) =~= now.skip(1));
                if front.len() <= room {
                    out.append(&mut front);
                    assert(out@ =~= done + chunk);
                    assert(done + (chunk + drained(now.skip(1), room - chunk.len())) =~= out@
                        + drained(now.skip(1), room - chunk.len()));
                } else {
                    let ghost q1 = q@;
                    out.extend_from_slice(&front[0..room]);
                    let total: usize = front.len();
                    let rest = vstd::slice::slice_to_vec(&front[room..total]);
                    assert(rest@ =~= chunk.skip(room as int));
                    q.push_front(rest);
                    assert(out@ =~= done + chunk.take(room as int));
                    assert(chunk_views(q@) =~= now.update(0, chunk.skip(room as int)));
                    assert(out@.len() == max);
                    assert(drained(chunk_views(q@), 0) =~= Seq::<u8>::empty());
                    assert(out@ + drained(chunk_views(q@), 0) =~= out@);
                }
            }
        }
        assert(drained(chunk_views(q@), max - out@.len()) =~= Seq::<u8>::empty());
        assert(out@ + drained(chunk_views(q@), max - out@.len()) =~= out@);
        let ghost kept = chunk_views(q@);
        self.recv_bufs.insert(conn_id, q);
        assert(self@ =~= old(self)@.with_drained(conn_id, max as int));
        out
    }

    /// Whether `conn_id` has any buffered incoming bytes.
    pub fn has_buffered(&self, conn_id: i32) -> (r: bool)
        ensures
            r == (self@.unread(conn_id).len() > 0),
    {
        match self.recv_bufs.get(&conn_id) {
            Some(q) => {
                let ghost all = chunk_views(q@);
                assert(all =~= self@.chunks(conn_id));
                let n: usize = q.len();
                let mut i: usize = 0;
                assert(all.skip(0) =~= all);
                while i < n
                    invariant
                        i <= n,
                        n == q@.len(),
                        all == chunk_views(q@),
                        all == self@.chunks(conn_id),
                        flat(all) == flat(all.skip(i as int)),
                    decreases n - i,
                {
                    assert(all.skip(i as int)[0] == q@[i as int]@);
                    assert(all.skip(i as int).skip(1) =~= all.skip(i as int + 1));
                    if q[i].len() > 0 {
                        return true;
                    }
                    assert(flat(all.skip(i as int)) =~= flat(all.skip(i as int + 1)));
                    i = i + 1;
                }
                false
            },
            None => false,
        }
    }

    /// Take the connection that has waited longest on `server_id`.
    pub fn pop_pending(&mut self, server_id: i32) -> (r: Option<i32>)
        ensures
            ({
                let q = old(self)@.waiting(server_id);
                if q.len() > 0 {
                    r == Some(q[0]) && final(self)@ == old(self)@.with_waiting(server_id, q.skip(1))
                } else {
                    r is None && final(self)@ == old(self)@.with_waiting(server_id, q)
                }
            }),
    {
        let mut q = match self.accept_queues.remove(&server_id) {
            Some(q) => q,
            None => VecDeque::new(),
        };
        let ghost was = q@;
        assert(was =~= old(self)@.waiting(server_id));
        let r = q.pop_front();
        assert(was.len() > 0 ==> q@ =~= was.skip(1));
        self.accept_queues.insert(server_id, q);
        assert(self@ =~= old(self)@.with_waiting(server_id, q@));
        r
    }

    /// Let a connection wait on `server_id`.
    pub fn push_pending(&mut self, server_id: i32, conn: i32)
        ensures
            final(self)@ == old(self)@.with_waiting(
                server_id,
                old(self)@.waiting(server_id).push(conn),
            ),
    {
        let mut q = match self.accept_queues.remove(&server_id) {
            Some(q) => q,
            None => VecDeque::new(),
        };
        assert(q@ =~= old(self)@.waiting(server_id));
        q.push_back(conn);
        self.accept_queues.insert(server_id, q);
        assert(self@ =~= old(self)@.with_waiting(server_id, q@));
    }
}

} // verus!
